//! Classifying path text: file name, stem, extension and parent directory.
//!
//! Paths are plain text here; nothing touches the file system. A separator
//! is `/` or `\`; the file name is what follows the last separator; the
//! extension is what follows the last `.` of the file name, provided that
//! dot is neither its first character nor absent; the stem is what precedes
//! that dot; the parent is what precedes the last separator.

use vstd::prelude::*;
use vstd::string::StrSliceExecFns;

use crate::text::copy_chars;

verus! {

/// The path separators recognized in path text.
pub open spec fn is_path_sep(c: char) -> bool {
    c == '/' || c == '\\'
}

/// The position of the last separator in the text, or a negative number
/// when it holds none.
pub open spec fn last_sep_index(s: Seq<char>) -> int
    decreases s.len(),
{
    if s.len() == 0 {
        -1
    } else if is_path_sep(s[s.len() - 1]) {
        s.len() - 1
    } else {
        last_sep_index(s.drop_last())
    }
}

/// The position of the last `.` in the text, or a negative number when it
/// holds none.
pub open spec fn last_dot_index(s: Seq<char>) -> int
    decreases s.len(),
{
    if s.len() == 0 {
        -1
    } else if s[s.len() - 1] == '.' {
        s.len() - 1
    } else {
        last_dot_index(s.drop_last())
    }
}

/// The file name: everything after the last separator.
pub open spec fn file_name_text(s: Seq<char>) -> Seq<char> {
    s.skip(last_sep_index(s) + 1)
}

/// The extension: what follows the last `.` of the file name, unless that
/// dot is missing or leads the name (a dot-file has no extension).
pub open spec fn extension_text(s: Seq<char>) -> Option<Seq<char>> {
    let name = file_name_text(s);
    let d = last_dot_index(name);
    if d <= 0 {
        None
    } else {
        Some(name.skip(d + 1))
    }
}

/// The stem: the file name up to the dot that starts the extension, or the
/// whole file name when there is no extension.
pub open spec fn stem_text(s: Seq<char>) -> Seq<char> {
    let name = file_name_text(s);
    let d = last_dot_index(name);
    if d <= 0 {
        name
    } else {
        name.take(d)
    }
}

/// The parent directory: everything before the last separator, empty when
/// the path is a bare file name.
pub open spec fn parent_text(s: Seq<char>) -> Seq<char> {
    let k = last_sep_index(s);
    if k < 0 {
        Seq::empty()
    } else {
        s.take(k)
    }
}

/// A text with no separator has no last separator position.
proof fn lemma_last_sep_none(s: Seq<char>)
    requires
        forall|j: int| 0 <= j < s.len() ==> !is_path_sep(#[trigger] s[j]),
    ensures
        last_sep_index(s) == -1,
    decreases s.len(),
{
    if s.len() > 0 {
        assert(forall|j: int| 0 <= j < s.drop_last().len() ==> s.drop_last()[j] == s[j]);
        lemma_last_sep_none(s.drop_last());
    }
}

/// A separator with none after it is the last one.
proof fn lemma_last_sep_at(s: Seq<char>, k: int)
    requires
        0 <= k < s.len(),
        is_path_sep(s[k]),
        forall|j: int| k < j < s.len() ==> !is_path_sep(#[trigger] s[j]),
    ensures
        last_sep_index(s) == k,
    decreases s.len(),
{
    if k < s.len() - 1 {
        assert(forall|j: int| 0 <= j < s.drop_last().len() ==> s.drop_last()[j] == s[j]);
        lemma_last_sep_at(s.drop_last(), k);
    }
}

/// A text with no dot has no last dot position.
proof fn lemma_last_dot_none(s: Seq<char>)
    requires
        forall|j: int| 0 <= j < s.len() ==> #[trigger] s[j] != '.',
    ensures
        last_dot_index(s) == -1,
    decreases s.len(),
{
    if s.len() > 0 {
        assert(forall|j: int| 0 <= j < s.drop_last().len() ==> s.drop_last()[j] == s[j]);
        lemma_last_dot_none(s.drop_last());
    }
}

/// A dot with none after it is the last one.
proof fn lemma_last_dot_at(s: Seq<char>, k: int)
    requires
        0 <= k < s.len(),
        s[k] == '.',
        forall|j: int| k < j < s.len() ==> #[trigger] s[j] != '.',
    ensures
        last_dot_index(s) == k,
    decreases s.len(),
{
    if k < s.len() - 1 {
        assert(forall|j: int| 0 <= j < s.drop_last().len() ==> s.drop_last()[j] == s[j]);
        lemma_last_dot_at(s.drop_last(), k);
    }
}

/// The position just past the last separator: where the file name starts.
fn name_start(path: &str) -> (result: usize)
    ensures
        result == last_sep_index(path@) + 1,
        result <= path@.len(),
{
    let n = path.unicode_len();
    let mut i: usize = n;
    while i > 0
        invariant
            i <= n,
            n == path@.len(),
            forall|j: int| i <= j < n ==> !is_path_sep(#[trigger] path@[j]),
        decreases i,
    {
        let c = path.get_char(i - 1);
        if c == '/' || c == '\\' {
            proof {
                lemma_last_sep_at(path@, i - 1);
            }
            return i;
        }
        i -= 1;
    }
    proof {
        lemma_last_sep_none(path@);
    }
    0
}

/// The position of the dot that starts the extension within the file name
/// region `[start, n)`, when the name has an extension.
fn dot_start(path: &str, start: usize) -> (result: Option<usize>)
    requires
        start <= path@.len(),
    ensures
        ({
            let name = path@.skip(start as int);
            match result {
                Some(d) => start <= d < path@.len() && (d - start) == last_dot_index(name)
                    && last_dot_index(name) > 0,
                None => last_dot_index(name) <= 0,
            }
        }),
{
    let ghost name = path@.skip(start as int);
    let n = path.unicode_len();
    let mut i: usize = n;
    while i > start
        invariant
            start <= i <= n,
            n == path@.len(),
            name == path@.skip(start as int),
            forall|j: int| i - start <= j < name.len() ==> #[trigger] name[j] != '.',
        decreases i,
    {
        let c = path.get_char(i - 1);
        proof {
            assert(name[i - 1 - start] == path@[i - 1]);
        }
        if c == '.' {
            proof {
                lemma_last_dot_at(name, i - 1 - start);
            }
            if i - 1 == start {
                return None;
            }
            return Some(i - 1);
        }
        i -= 1;
    }
    proof {
        lemma_last_dot_none(name);
    }
    None
}

/// The file name of the path text.
pub fn file_name(path: &str) -> (result: String)
    ensures
        result@ == file_name_text(path@),
{
    let start = name_start(path);
    copy_chars(path, start, path.unicode_len())
}

/// The stem of the path text: its file name without the extension.
pub fn file_stem(path: &str) -> (result: String)
    ensures
        result@ == stem_text(path@),
{
    let start = name_start(path);
    let n = path.unicode_len();
    match dot_start(path, start) {
        Some(d) => {
            let result = copy_chars(path, start, d);
            proof {
                let name = path@.skip(start as int);
                assert(result@ =~= name.take(last_dot_index(name)));
            }
            result
        },
        None => {
            let result = copy_chars(path, start, n);
            proof {
                let name = path@.skip(start as int);
                assert(result@ =~= name);
            }
            result
        },
    }
}

/// The extension of the path text, when its file name has one.
pub fn file_extension(path: &str) -> (result: Option<String>)
    ensures
        match result {
            Some(e) => extension_text(path@) == Some(e@),
            None => extension_text(path@) is None,
        },
{
    let start = name_start(path);
    let n = path.unicode_len();
    match dot_start(path, start) {
        Some(d) => {
            let result = copy_chars(path, d + 1, n);
            proof {
                let name = path@.skip(start as int);
                assert(result@ =~= name.skip(last_dot_index(name) + 1));
            }
            Some(result)
        },
        None => None,
    }
}

/// The parent directory of the path text.
pub fn parent_dir(path: &str) -> (result: String)
    ensures
        result@ == parent_text(path@),
{
    let start = name_start(path);
    if start == 0 {
        proof {
            assert(parent_text(path@) =~= Seq::<char>::empty());
        }
        String::new()
    } else {
        let result = copy_chars(path, 0, start - 1);
        proof {
            assert(result@ =~= parent_text(path@));
        }
        result
    }
}

} // verus!
