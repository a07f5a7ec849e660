//! Building and folding owned text, character by character.

use vstd::prelude::*;
use vstd::string::StrSliceExecFns;

verus! {

/// Relies on `String::push`: appends exactly the given character.
#[verifier::external_body]
pub(crate) fn push_char(s: &mut String, c: char)
    ensures
        final(s)@ == old(s)@.push(c),
{
    s.push(c)
}

/// The characters of `s` between `from` and `to`, as owned text.
pub(crate) fn copy_chars(s: &str, from: usize, to: usize) -> (result: String)
    requires
        from <= to <= s@.len(),
    ensures
        result@ == s@.subrange(from as int, to as int),
{
    let mut result = String::new();
    let mut i: usize = from;
    proof {
        assert(s@.subrange(from as int, from as int) =~= Seq::<char>::empty());
    }
    while i < to
        invariant
            from <= i <= to <= s@.len(),
            result@ == s@.subrange(from as int, i as int),
        decreases to - i,
    {
        push_char(&mut result, s.get_char(i));
        proof {
            assert(result@ =~= s@.subrange(from as int, i + 1));
        }
        i += 1;
    }
    result
}

/// An uppercase ASCII letter folded to its lowercase form; any other
/// character kept as it is.
pub open spec fn lower_char(c: char) -> char {
    if 'A' <= c && c <= 'Z' {
        ((c as int) + 32) as char
    } else {
        c
    }
}

/// The text with every uppercase ASCII letter folded to lowercase.
pub open spec fn lower_text(s: Seq<char>) -> Seq<char> {
    Seq::new(s.len(), |i: int| lower_char(s[i]))
}

/// One character folded to lowercase, as executable code.
fn lower_char_exec(c: char) -> (result: char)
    ensures
        result == lower_char(c),
{
    match c {
        'A' => 'a',
        'B' => 'b',
        'C' => 'c',
        'D' => 'd',
        'E' => 'e',
        'F' => 'f',
        'G' => 'g',
        'H' => 'h',
        'I' => 'i',
        'J' => 'j',
        'K' => 'k',
        'L' => 'l',
        'M' => 'm',
        'N' => 'n',
        'O' => 'o',
        'P' => 'p',
        'Q' => 'q',
        'R' => 'r',
        'S' => 's',
        'T' => 't',
        'U' => 'u',
        'V' => 'v',
        'W' => 'w',
        'X' => 'x',
        'Y' => 'y',
        'Z' => 'z',
        _ => c,
    }
}

/// The text folded to lowercase, ASCII letters only.
pub fn to_lower(s: &str) -> (result: String)
    ensures
        result@ == lower_text(s@),
{
    let n = s.unicode_len();
    let mut result = String::new();
    proof {
        assert(result@ =~= lower_text(s@).take(0));
    }
    let mut i: usize = 0;
    while i < n
        invariant
            n == s@.len(),
            i <= n,
            result@ == lower_text(s@).take(i as int),
        decreases n - i,
    {
        push_char(&mut result, lower_char_exec(s.get_char(i)));
        proof {
            assert(result@ =~= lower_text(s@).take(i + 1));
        }
        i += 1;
    }
    proof {
        assert(lower_text(s@).take(n as int) =~= lower_text(s@));
    }
    result
}

} // verus!
