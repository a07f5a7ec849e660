//! The composite ordering key: a bucket and a rank.
//!
//! A `LexoRank` is the unit actually stored on orderable entities. It orders
//! first by bucket, then by rank, and serializes to `"<bucket>|<rank>"`,
//! where the bucket is a decimal integer and the rank uses the digits
//! followed by the lowercase letters. Parsing splits on the first `|` and
//! treats failure of either half as a parse error; the text form round-trips
//! exactly.

use vstd::prelude::*;
use vstd::string::StrSliceExecFns;

use crate::bucket::{Bucket, BUCKET_COUNT};
use crate::text::push_char;
use crate::rank::{
    next_symbols, prev_symbols, symbols_lt, symbols_valid, Rank, SYMBOL_COUNT, SYMBOL_MID,
};

verus! {

/// Why a piece of text failed to parse as a `LexoRank`.
#[derive(Clone, Copy, Debug, PartialEq, Eq, Structural)]
pub enum ParseError {
    /// No `|` separator occurs in the text.
    MissingSeparator,
    /// The part before the separator is not a bucket number.
    BadBucket,
    /// The part after the separator is not a well-formed rank string.
    BadRank,
}

/// The composite key attached to orderable entities.
#[derive(Clone, Debug, PartialEq, Eq)]
pub struct LexoRank {
    bucket: Bucket,
    rank: Rank,
}

/// Strict order on composite keys: by bucket first, then by rank.
pub open spec fn lexo_lt(b1: u8, r1: Seq<u8>, b2: u8, r2: Seq<u8>) -> bool {
    b1 < b2 || (b1 == b2 && symbols_lt(r1, r2))
}

/// The decimal digit characters.
pub open spec fn is_digit_char(c: char) -> bool {
    '0' <= c && c <= '9'
}

/// The characters of the rank alphabet: digits and lowercase letters.
pub open spec fn is_symbol_char(c: char) -> bool {
    ('0' <= c && c <= '9') || ('a' <= c && c <= 'z')
}

/// The character that displays a symbol value.
pub open spec fn symbol_char(v: u8) -> char {
    if v < 10 {
        (v + 48) as char
    } else {
        (v + 87) as char
    }
}

/// The symbol value of an alphabet character.
pub open spec fn char_symbol(c: char) -> u8 {
    if is_digit_char(c) {
        (c as int - 48) as u8
    } else {
        (c as int - 87) as u8
    }
}

/// The position of the first `|` in the text, or a negative number when the
/// text holds none.
pub open spec fn first_bar(t: Seq<char>) -> int
    decreases t.len(),
{
    if t.len() == 0 {
        -1
    } else if t[0] == '|' {
        0
    } else if first_bar(t.skip(1)) < 0 {
        -1
    } else {
        first_bar(t.skip(1)) + 1
    }
}

/// The number denoted by a run of decimal digits, most significant first.
pub open spec fn digits_value(d: Seq<char>) -> int
    decreases d.len(),
{
    if d.len() == 0 {
        0
    } else {
        digits_value(d.take(d.len() - 1)) * 10 + (d[d.len() - 1] as int - 48)
    }
}

/// The text before the separator denotes a bucket: non-empty, all digits,
/// and of value below `BUCKET_COUNT`.
pub open spec fn bucket_text_ok(d: Seq<char>) -> bool {
    &&& d.len() > 0
    &&& forall|i: int| 0 <= i < d.len() ==> is_digit_char(d[i])
    &&& digits_value(d) < BUCKET_COUNT
}

/// The text after the separator denotes a rank: non-empty, all alphabet
/// characters, and not ending in the lowest symbol.
pub open spec fn rank_text_ok(r: Seq<char>) -> bool {
    &&& r.len() > 0
    &&& forall|i: int| 0 <= i < r.len() ==> is_symbol_char(r[i])
    &&& r[r.len() - 1] != '0'
}

/// The symbol values denoted by rank text.
pub open spec fn rank_text_symbols(r: Seq<char>) -> Seq<u8> {
    Seq::new(r.len(), |i: int| char_symbol(r[i]))
}

/// What parsing yields on any text: the bucket number and the rank symbols,
/// or nothing when the text is not of the form `"<bucket>|<rank>"`.
pub open spec fn spec_parse(t: Seq<char>) -> Option<(u8, Seq<u8>)> {
    let k = first_bar(t);
    if k < 0 {
        None
    } else if !bucket_text_ok(t.take(k)) {
        None
    } else if !rank_text_ok(t.skip(k + 1)) {
        None
    } else {
        Some((digits_value(t.take(k)) as u8, rank_text_symbols(t.skip(k + 1))))
    }
}

/// The text form of a composite key with bucket number `b` and rank symbols
/// `r`: the bucket digit, the separator, then the rank characters.
pub open spec fn lexo_text(b: u8, r: Seq<u8>) -> Seq<char> {
    seq![symbol_char(b), '|'] + Seq::new(r.len(), |i: int| symbol_char(r[i]))
}

impl LexoRank {
    /// The bucket of the key.
    pub closed spec fn spec_bucket(&self) -> Bucket {
        self.bucket
    }

    /// The rank symbols of the key.
    pub closed spec fn spec_rank(&self) -> Seq<u8> {
        self.rank@
    }

    /// A key is well formed when both halves are.
    pub open spec fn wf(&self) -> bool {
        self.spec_bucket().wf() && symbols_valid(self.spec_rank())
    }

    /// True when `self` sorts strictly before `other`.
    pub open spec fn spec_lt(&self, other: &LexoRank) -> bool {
        lexo_lt(
            self.spec_bucket().spec_value(),
            self.spec_rank(),
            other.spec_bucket().spec_value(),
            other.spec_rank(),
        )
    }

    /// Combines a bucket and a rank into a key.
    pub fn new(bucket: Bucket, rank: Rank) -> (result: LexoRank)
        ensures
            result.spec_bucket() == bucket,
            result.spec_rank() == rank@,
    {
        LexoRank { bucket, rank }
    }

    /// The bucket of the key.
    pub fn bucket(&self) -> (result: &Bucket)
        ensures
            result == self.spec_bucket(),
    {
        &self.bucket
    }

    /// The rank of the key.
    pub fn rank(&self) -> (result: &Rank)
        ensures
            result@ == self.spec_rank(),
    {
        &self.rank
    }

    /// True when `self` sorts strictly before `other`.
    pub fn lt(&self, other: &LexoRank) -> (result: bool)
        ensures
            result == self.spec_lt(other),
    {
        if self.bucket.value() < other.bucket.value() {
            true
        } else if self.bucket.value() > other.bucket.value() {
            false
        } else {
            self.rank.lt(&other.rank)
        }
    }

    /// The key after this one: same bucket, successor rank; strictly greater.
    pub fn next(&self) -> (result: LexoRank)
        requires
            self.wf(),
        ensures
            result.spec_bucket() == self.spec_bucket(),
            result.spec_rank() == next_symbols(self.spec_rank()),
            result.wf(),
            self.spec_lt(&result),
    {
        LexoRank { bucket: self.bucket, rank: self.rank.next() }
    }

    /// The key before this one: same bucket, predecessor rank; strictly less.
    pub fn prev(&self) -> (result: LexoRank)
        requires
            self.wf(),
        ensures
            result.spec_bucket() == self.spec_bucket(),
            result.spec_rank() == prev_symbols(self.spec_rank()),
            result.wf(),
            result.spec_lt(self),
    {
        LexoRank { bucket: self.bucket, rank: self.rank.prev() }
    }

    /// A key strictly between `self` and `other` in `self`'s bucket, defined
    /// whenever `self`'s rank sorts strictly before `other`'s. `None` means
    /// the inputs were equal or misordered — a caller error, never lack of
    /// room.
    pub fn between(&self, other: &LexoRank) -> (result: Option<LexoRank>)
        requires
            self.wf(),
            other.wf(),
        ensures
            result is Some <==> symbols_lt(self.spec_rank(), other.spec_rank()),
            result matches Some(c) ==> {
                &&& c.spec_bucket() == self.spec_bucket()
                &&& c.wf()
                &&& symbols_lt(self.spec_rank(), c.spec_rank())
                &&& symbols_lt(c.spec_rank(), other.spec_rank())
            },
    {
        match self.rank.between(&other.rank) {
            Some(rank) => Some(LexoRank { bucket: self.bucket, rank }),
            None => None,
        }
    }
}

/// The fixed default middle key: bucket `1`, rank `"h"`, chosen so that a
/// single entry can be moved in either direction without hitting an edge.
pub open spec fn is_middle_key(l: LexoRank) -> bool {
    l.spec_bucket().spec_value() == 1 && l.spec_rank() == seq![SYMBOL_MID]
}

impl Default for LexoRank {
    /// The fixed default middle key: bucket `1`, rank `"h"`. Parse failures
    /// that callers choose to tolerate fall back to this value.
    fn default() -> (result: LexoRank)
        ensures
            is_middle_key(result),
            result.wf(),
    {
        let bucket = Bucket::new(1).unwrap();
        LexoRank { bucket, rank: Rank::middle() }
    }
}

/// The character displaying a symbol value, as executable code.
fn symbol_char_exec(v: u8) -> (result: char)
    requires
        v < SYMBOL_COUNT,
    ensures
        result == symbol_char(v),
{
    if v < 10 {
        (v + 48) as char
    } else {
        (v + 87) as char
    }
}

impl LexoRank {
    /// The text form `"<bucket>|<rank>"` of the key.
    pub fn to_text(&self) -> (result: String)
        requires
            self.wf(),
        ensures
            result@ == lexo_text(self.spec_bucket().spec_value(), self.spec_rank()),
    {
        let ghost b = self.spec_bucket().spec_value();
        let ghost r = self.spec_rank();
        let mut result = String::new();
        push_char(&mut result, symbol_char_exec(self.bucket.value()));
        push_char(&mut result, '|');
        proof {
            assert(result@ =~= seq![symbol_char(b), '|']);
        }
        let symbols = self.rank.symbols();
        let mut i: usize = 0;
        while i < symbols.len()
            invariant
                symbols@ == r,
                symbols_valid(r),
                b < SYMBOL_COUNT,
                i <= r.len(),
                result@ == seq![symbol_char(b), '|'] + Seq::new(
                    i as nat,
                    |j: int| symbol_char(r[j]),
                ),
            decreases symbols@.len() - i,
        {
            push_char(&mut result, symbol_char_exec(symbols[i]));
            proof {
                assert(result@ =~= seq![symbol_char(b), '|'] + Seq::new(
                    (i + 1) as nat,
                    |j: int| symbol_char(r[j]),
                ));
            }
            i += 1;
        }
        proof {
            assert(Seq::new(r.len(), |j: int| symbol_char(r[j])) =~= Seq::new(
                i as nat,
                |j: int| symbol_char(r[j]),
            ));
        }
        result
    }

    /// Parses the text form. Succeeds on exactly the texts of the shape
    /// `"<bucket>|<rank>"`, and names which half was at fault otherwise.
    pub fn from_string(value: &str) -> (result: Result<LexoRank, ParseError>)
        ensures
            result matches Ok(l) ==> {
                &&& spec_parse(value@) matches Some(p)
                &&& l.spec_bucket().spec_value() == p.0
                &&& l.spec_rank() == p.1
                &&& l.wf()
            },
            result is Err <==> spec_parse(value@) is None,
            result == Err::<LexoRank, ParseError>(ParseError::MissingSeparator) <==> first_bar(
                value@,
            ) < 0,
            result == Err::<LexoRank, ParseError>(ParseError::BadBucket) <==> first_bar(value@)
                >= 0 && !bucket_text_ok(value@.take(first_bar(value@))),
            result == Err::<LexoRank, ParseError>(ParseError::BadRank) <==> first_bar(value@) >= 0
                && bucket_text_ok(value@.take(first_bar(value@))) && !rank_text_ok(
                value@.skip(first_bar(value@) + 1),
            ),
    {
        let ghost t = value@;
        let n = value.unicode_len();
        // Find the first separator.
        let mut k: usize = 0;
        while k < n && value.get_char(k) != '|'
            invariant
                t == value@,
                k <= n,
                n == t.len(),
                forall|j: int| 0 <= j < k ==> t[j] != '|',
            decreases n - k,
        {
            k += 1;
        }
        if k == n {
            proof {
                lemma_first_bar_none(t);
            }
            return Err(ParseError::MissingSeparator);
        }
        proof {
            lemma_first_bar_at(t, k as int);
        }
        // Parse the bucket digits before the separator, saturating the value
        // once it can no longer be a bucket number.
        if k == 0 {
            return Err(ParseError::BadBucket);
        }
        let ghost bt = t.take(k as int);
        let mut val: u8 = 0;
        let mut i: usize = 0;
        while i < k
            invariant
                t == value@,
                k <= n,
                n == t.len(),
                0 < k,
                first_bar(t) == k,
                bt == t.take(k as int),
                i <= k,
                forall|j: int| 0 <= j < i ==> is_digit_char(bt[j]),
                0 <= digits_value(bt.take(i as int)),
                val == if digits_value(bt.take(i as int)) < BUCKET_COUNT {
                    digits_value(bt.take(i as int))
                } else {
                    BUCKET_COUNT as int
                },
            decreases k - i,
        {
            let c = value.get_char(i);
            if !(c >= '0' && c <= '9') {
                proof {
                    assert(bt[i as int] == t[i as int]);
                    assert(!is_digit_char(bt[i as int]));
                }
                return Err(ParseError::BadBucket);
            }
            let d = (c as u32 - 48) as u8;
            proof {
                lemma_digits_value_nonneg(bt.take(i + 1));
                assert(bt.take(i + 1).take(i as int) =~= bt.take(i as int));
                assert(bt.take(i + 1)[i as int] == t[i as int]);
            }
            if val >= BUCKET_COUNT {
                // Already too large: further digits only grow the value.
                val = BUCKET_COUNT;
            } else {
                let grown = val * 10 + d;
                val = if grown < BUCKET_COUNT {
                    grown
                } else {
                    BUCKET_COUNT
                };
            }
            i += 1;
        }
        proof {
            assert(bt.take(k as int) =~= bt);
        }
        let bucket = match Bucket::new(val) {
            Some(b) => b,
            None => {
                return Err(ParseError::BadBucket);
            },
        };
        // Parse the rank characters after the separator.
        let ghost rt = t.skip(k + 1);
        if k + 1 == n {
            return Err(ParseError::BadRank);
        }
        let mut symbols: Vec<u8> = Vec::new();
        let mut i: usize = k + 1;
        while i < n
            invariant
                t == value@,
                k < n,
                n == t.len(),
                first_bar(t) == k,
                bucket_text_ok(t.take(k as int)),
                rt == t.skip(k + 1),
                k + 1 <= i <= n,
                symbols@.len() == i - (k + 1),
                forall|j: int| 0 <= j < i - (k + 1) ==> is_symbol_char(rt[j]),
                forall|j: int| 0 <= j < i - (k + 1) ==> symbols@[j] == char_symbol(rt[j]),
            decreases n - i,
        {
            let c = value.get_char(i);
            if c >= '0' && c <= '9' {
                symbols.push((c as u32 - 48) as u8);
            } else if c >= 'a' && c <= 'z' {
                symbols.push((c as u32 - 87) as u8);
            } else {
                proof {
                    assert(rt[i - (k + 1)] == t[i as int]);
                    assert(!is_symbol_char(rt[i - (k + 1)]));
                }
                return Err(ParseError::BadRank);
            }
            proof {
                assert(rt[i - (k + 1)] == t[i as int]);
            }
            i += 1;
        }
        if value.get_char(n - 1) == '0' {
            return Err(ParseError::BadRank);
        }
        proof {
            assert(rt[rt.len() - 1] == t[t.len() - 1]);
            assert(rank_text_ok(rt));
            assert(symbols@ =~= rank_text_symbols(rt));
            assert(forall|j: int|
                0 <= j < symbols@.len() ==> is_symbol_char(rt[j]) && symbols@[j] == char_symbol(
                    rt[j],
                ));
            assert(symbols@[symbols@.len() - 1] != 0) by {
                assert(rt[rt.len() - 1] != '0');
            }
            assert(symbols_valid(symbols@));
        }
        let rank = Rank::from_symbols(symbols).unwrap();
        Ok(LexoRank { bucket, rank })
    }

    /// Parses the text form, substituting the default middle key for any
    /// malformed text; this documents the data loss a caller accepts.
    pub fn from_string_or_default(value: &str) -> (result: LexoRank)
        ensures
            spec_parse(value@) matches Some(p) ==> result.spec_bucket().spec_value() == p.0
                && result.spec_rank() == p.1,
            spec_parse(value@) is None ==> result.spec_bucket().spec_value() == 1
                && result.spec_rank() == seq![SYMBOL_MID],
            result.wf(),
    {
        match LexoRank::from_string(value) {
            Ok(l) => l,
            Err(_) => LexoRank::default(),
        }
    }
}

/// A text with no `|` anywhere has no first separator.
proof fn lemma_first_bar_none(t: Seq<char>)
    requires
        forall|j: int| 0 <= j < t.len() ==> t[j] != '|',
    ensures
        first_bar(t) < 0,
    decreases t.len(),
{
    if t.len() > 0 {
        assert(forall|j: int| 0 <= j < t.skip(1).len() ==> t.skip(1)[j] == t[j + 1]);
        lemma_first_bar_none(t.skip(1));
    }
}

/// The first `|` is the one before which none occurs.
proof fn lemma_first_bar_at(t: Seq<char>, k: int)
    requires
        0 <= k < t.len(),
        t[k] == '|',
        forall|j: int| 0 <= j < k ==> t[j] != '|',
    ensures
        first_bar(t) == k,
    decreases t.len(),
{
    if k > 0 {
        assert(forall|j: int| 0 <= j < t.skip(1).len() ==> t.skip(1)[j] == t[j + 1]);
        lemma_first_bar_at(t.skip(1), k - 1);
    }
}

/// A run of digits denotes a non-negative number.
proof fn lemma_digits_value_nonneg(d: Seq<char>)
    requires
        forall|i: int| 0 <= i < d.len() ==> is_digit_char(d[i]),
    ensures
        digits_value(d) >= 0,
    decreases d.len(),
{
    if d.len() > 0 {
        assert(forall|i: int| 0 <= i < d.len() - 1 ==> d.take(d.len() - 1)[i] == d[i]);
        lemma_digits_value_nonneg(d.take(d.len() - 1));
    }
}

/// Serializing a key and parsing the text back yields the key again: the
/// text form round-trips for every well-formed bucket and rank.
pub proof fn lemma_text_round_trip(b: u8, r: Seq<u8>)
    requires
        b < BUCKET_COUNT,
        symbols_valid(r),
    ensures
        spec_parse(lexo_text(b, r)) == Some((b, r)),
{
    let t = lexo_text(b, r);
    assert(t[0] == symbol_char(b));
    assert(symbol_char(b) != '|');
    assert(t[1] == '|');
    lemma_first_bar_at(t, 1);
    let bt = t.take(1);
    assert(bt =~= seq![symbol_char(b)]);
    assert(digits_value(bt) == digits_value(bt.take(0)) * 10 + (bt[0] as int - 48));
    assert(bt.take(0) =~= Seq::<char>::empty());
    assert(digits_value(bt.take(0)) == 0);
    assert(symbol_char(b) as int == b + 48);
    assert(digits_value(bt) == b);
    assert(bucket_text_ok(bt));
    let rt = t.skip(2);
    assert(rt =~= Seq::new(r.len(), |i: int| symbol_char(r[i])));
    assert(forall|i: int| 0 <= i < rt.len() ==> #[trigger] rt[i] == symbol_char(r[i]));
    assert(forall|i: int| 0 <= i < rt.len() ==> is_symbol_char(#[trigger] rt[i]));
    assert(rt[rt.len() - 1] == symbol_char(r[r.len() - 1]));
    assert(r[r.len() - 1] != 0);
    assert(rt[rt.len() - 1] != '0');
    assert(rank_text_ok(rt));
    assert(forall|i: int| 0 <= i < rt.len() ==> char_symbol(#[trigger] rt[i]) == r[i]);
    assert(rank_text_symbols(rt) =~= r);
}

/// The key order never puts a key before itself.
pub proof fn lemma_key_order_irrefl(a: LexoRank)
    ensures
        !a.spec_lt(&a),
{
    crate::rank::lemma_symbols_lt_irrefl(a.spec_rank());
}

/// The key order chains: a key before a second one that is before a third
/// is before the third.
pub proof fn lemma_key_order_trans(a: LexoRank, b: LexoRank, c: LexoRank)
    requires
        a.spec_lt(&b),
        b.spec_lt(&c),
    ensures
        a.spec_lt(&c),
{
    if a.spec_bucket().spec_value() == b.spec_bucket().spec_value() && b.spec_bucket().spec_value()
        == c.spec_bucket().spec_value() {
        crate::rank::lemma_symbols_lt_trans(a.spec_rank(), b.spec_rank(), c.spec_rank());
    }
}

} // verus!
