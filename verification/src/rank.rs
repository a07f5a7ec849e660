//! The fractional-indexing rank primitive.
//!
//! A rank is a non-empty string over a 36-symbol alphabet (the digits followed
//! by the lowercase letters), compared lexicographically with a proper prefix
//! ordering before any longer string it starts: `"h"` sorts before `"ha"` and
//! after `"g"`. Internally a rank stores symbol values `0..36` rather than
//! characters, and it never ends in the lowest symbol, so that the order is
//! dense: between any two distinct ranks a third one can be computed. `next`
//! and `prev` move strictly up and down without renumbering anything else, and
//! `between` finds a rank strictly inside any non-empty gap.

use vstd::prelude::*;

verus! {

/// Number of symbols in the rank alphabet.
pub const SYMBOL_COUNT: u8 = 36;

/// The greatest symbol of the alphabet (the letter `z`).
pub const SYMBOL_MAX: u8 = 35;

/// The middle symbol of the alphabet (the letter `h`), used as the default
/// rank for empty containers so both directions stay open.
pub const SYMBOL_MID: u8 = 17;

/// Strict lexicographic order on symbol strings, with a proper prefix coming
/// before every longer string it starts.
pub open spec fn symbols_lt(a: Seq<u8>, b: Seq<u8>) -> bool
    decreases a.len(),
{
    if b.len() == 0 {
        false
    } else if a.len() == 0 {
        true
    } else if a[0] < b[0] {
        true
    } else if a[0] > b[0] {
        false
    } else {
        symbols_lt(a.skip(1), b.skip(1))
    }
}

/// A symbol string denotes a rank when it is non-empty, stays inside the
/// alphabet, and does not end in the lowest symbol; the last point keeps the
/// order dense (nothing can lie between `s` and `s` followed by the lowest
/// symbol, so such a neighbour must not exist).
pub open spec fn symbols_valid(s: Seq<u8>) -> bool {
    &&& s.len() > 0
    &&& forall|i: int| 0 <= i < s.len() ==> s[i] < SYMBOL_COUNT
    &&& s[s.len() - 1] != 0
}

/// A rank over the open, dense key space: the unit that keeps siblings
/// ordered without ever renumbering unrelated entries.
#[derive(Clone, Debug, PartialEq, Eq)]
pub struct Rank {
    symbols: Vec<u8>,
}

impl Rank {
    /// The symbol string of the rank.
    pub closed spec fn view(&self) -> Seq<u8> {
        self.symbols@
    }

    /// A rank is well formed when its symbol string is.
    pub open spec fn wf(&self) -> bool {
        symbols_valid(self@)
    }

    /// Builds a rank from raw symbol values; accepts exactly the well-formed
    /// strings.
    pub fn from_symbols(symbols: Vec<u8>) -> (result: Option<Rank>)
        ensures
            symbols_valid(symbols@) ==> (result matches Some(r) && r@ == symbols@),
            !symbols_valid(symbols@) ==> result is None,
    {
        if symbols.len() == 0 {
            return None;
        }
        if symbols[symbols.len() - 1] == 0 {
            return None;
        }
        let mut i: usize = 0;
        while i < symbols.len()
            invariant
                i <= symbols.len(),
                forall|j: int| 0 <= j < i ==> symbols@[j] < SYMBOL_COUNT,
            decreases symbols.len() - i,
        {
            if symbols[i] >= SYMBOL_COUNT {
                return None;
            }
            i += 1;
        }
        Some(Rank { symbols })
    }

    /// The symbol values of the rank, lowest position first.
    pub fn symbols(&self) -> (result: &Vec<u8>)
        ensures
            result@ == self@,
    {
        &self.symbols
    }

    /// The default rank for empty containers: the single middle symbol, so a
    /// lone entry can be moved in either direction without touching an edge.
    pub fn middle() -> (result: Rank)
        ensures
            result@ == seq![SYMBOL_MID],
            result.wf(),
    {
        let mut symbols: Vec<u8> = Vec::new();
        symbols.push(SYMBOL_MID);
        proof {
            assert(symbols@ =~= seq![SYMBOL_MID]);
        }
        Rank { symbols }
    }

    /// True when this rank sorts strictly before `other`.
    pub fn lt(&self, other: &Rank) -> (result: bool)
        ensures
            result == symbols_lt(self@, other@),
    {
        symbols_lt_exec(&self.symbols, &other.symbols)
    }
}

/// Compares two symbol strings in the lexicographic rank order.
fn symbols_lt_exec(a: &Vec<u8>, b: &Vec<u8>) -> (result: bool)
    ensures
        result == symbols_lt(a@, b@),
{
    let mut i: usize = 0;
    proof {
        assert(a@.skip(0) =~= a@);
        assert(b@.skip(0) =~= b@);
    }
    loop
        invariant
            i <= a.len(),
            i <= b.len(),
            symbols_lt(a@, b@) == symbols_lt(a@.skip(i as int), b@.skip(i as int)),
        decreases a.len() - i,
    {
        proof {
            lemma_symbols_lt_step(a@.skip(i as int), b@.skip(i as int));
        }
        if i == b.len() {
            return false;
        }
        if i == a.len() {
            return true;
        }
        if a[i] < b[i] {
            return true;
        }
        if a[i] > b[i] {
            return false;
        }
        proof {
            assert(a@.skip(i as int).skip(1) =~= a@.skip(i + 1));
            assert(b@.skip(i as int).skip(1) =~= b@.skip(i + 1));
        }
        i += 1;
    }
}

/// Unfolds one step of `symbols_lt` on the skipped tails, for loop reasoning.
proof fn lemma_symbols_lt_step(a: Seq<u8>, b: Seq<u8>)
    ensures
        b.len() == 0 ==> !symbols_lt(a, b),
        b.len() > 0 && a.len() == 0 ==> symbols_lt(a, b),
        b.len() > 0 && a.len() > 0 ==> symbols_lt(a, b) == (a[0] < b[0] || (a[0] == b[0]
            && symbols_lt(a.skip(1), b.skip(1)))),
{
}

/// The order is irreflexive.
pub proof fn lemma_symbols_lt_irrefl(a: Seq<u8>)
    ensures
        !symbols_lt(a, a),
    decreases a.len(),
{
    if a.len() > 0 {
        lemma_symbols_lt_irrefl(a.skip(1));
    }
}

/// The order is transitive.
pub proof fn lemma_symbols_lt_trans(a: Seq<u8>, b: Seq<u8>, c: Seq<u8>)
    requires
        symbols_lt(a, b),
        symbols_lt(b, c),
    ensures
        symbols_lt(a, c),
    decreases a.len(),
{
    if a.len() > 0 && b.len() > 0 && c.len() > 0 {
        if a[0] == b[0] && b[0] == c[0] {
            lemma_symbols_lt_trans(a.skip(1), b.skip(1), c.skip(1));
        }
    }
}

/// Any two distinct symbol strings are strictly ordered one way or the other.
pub proof fn lemma_symbols_lt_connex(a: Seq<u8>, b: Seq<u8>)
    ensures
        a == b || symbols_lt(a, b) || symbols_lt(b, a),
    decreases a.len(),
{
    if a.len() > 0 && b.len() > 0 && a[0] == b[0] {
        lemma_symbols_lt_connex(a.skip(1), b.skip(1));
        if a.skip(1) == b.skip(1) {
            assert forall|i: int| 0 <= i < a.len() implies a[i] == b[i] by {
                if i > 0 {
                    assert(a[i] == a.skip(1)[i - 1]);
                    assert(b[i] == b.skip(1)[i - 1]);
                }
            }
            assert(a =~= b);
        }
    }
}

/// Appending the same prefix on both sides leaves the order unchanged.
pub proof fn lemma_symbols_lt_congruence(x: Seq<u8>, s: Seq<u8>, t: Seq<u8>)
    ensures
        symbols_lt(x + s, x + t) == symbols_lt(s, t),
    decreases x.len(),
{
    if x.len() == 0 {
        assert(x + s =~= s);
        assert(x + t =~= t);
    } else {
        assert((x + s).len() > 0);
        assert((x + t).len() > 0);
        assert((x + s)[0] == x[0]);
        assert((x + t)[0] == x[0]);
        assert((x + s).skip(1) =~= x.skip(1) + s);
        assert((x + t).skip(1) =~= x.skip(1) + t);
        lemma_symbols_lt_congruence(x.skip(1), s, t);
    }
}

/// A string sorts strictly before itself extended by anything non-empty.
pub proof fn lemma_symbols_lt_prefix(a: Seq<u8>, t: Seq<u8>)
    requires
        t.len() > 0,
    ensures
        symbols_lt(a, a + t),
    decreases a.len(),
{
    if a.len() == 0 {
        assert((a + t).len() == t.len());
    } else {
        assert((a + t)[0] == a[0]);
        assert((a + t).skip(1) =~= a.skip(1) + t);
        lemma_symbols_lt_prefix(a.skip(1), t);
    }
}

/// Every string splits into its first `i` symbols and the rest.
proof fn lemma_take_skip(a: Seq<u8>, i: int)
    requires
        0 <= i <= a.len(),
    ensures
        a == a.take(i) + a.skip(i),
{
    assert(a =~= a.take(i) + a.skip(i));
}

/// When two ordered strings agree on their first `i` symbols and both go on,
/// the symbols at position `i` decide: the smaller string's is strictly less.
proof fn lemma_first_difference(a: Seq<u8>, b: Seq<u8>, i: int)
    requires
        symbols_lt(a, b),
        0 <= i < a.len(),
        i < b.len(),
        a.take(i) == b.take(i),
        a[i] != b[i],
    ensures
        a[i] < b[i],
{
    lemma_take_skip(a, i);
    lemma_take_skip(b, i);
    lemma_symbols_lt_congruence(a.take(i), a.skip(i), b.skip(i));
    assert(symbols_lt(a.skip(i), b.skip(i)));
    assert(a.skip(i)[0] == a[i]);
    assert(b.skip(i)[0] == b[i]);
}

/// The successor of a symbol string: the last symbol is incremented when it
/// can be, and otherwise the second-lowest symbol is appended, so the result
/// is strictly greater either way and no other rank is disturbed.
pub open spec fn next_symbols(s: Seq<u8>) -> Seq<u8>
    recommends
        symbols_valid(s),
{
    if s[s.len() - 1] < SYMBOL_MAX {
        s.update(s.len() - 1, (s[s.len() - 1] + 1) as u8)
    } else {
        s.push(1)
    }
}

/// The predecessor of a symbol string: the mirror of `next_symbols`. The last
/// symbol is decremented when that leaves a well-formed string; a trailing `1`
/// whose removal leaves a well-formed string is dropped (undoing the append
/// of `next_symbols`); otherwise the trailing `1` becomes the lowest symbol
/// with the greatest symbol appended, which still moves strictly down.
pub open spec fn prev_symbols(s: Seq<u8>) -> Seq<u8>
    recommends
        symbols_valid(s),
{
    if s[s.len() - 1] >= 2 {
        s.update(s.len() - 1, (s[s.len() - 1] - 1) as u8)
    } else if s.len() >= 2 && s[s.len() - 2] != 0 {
        s.take(s.len() - 1)
    } else {
        s.update(s.len() - 1, 0).push(SYMBOL_MAX)
    }
}

/// `next` moves strictly up: for every rank `r`, `next(r) > r`, and the
/// result is again well formed.
pub proof fn lemma_next_above(s: Seq<u8>)
    requires
        symbols_valid(s),
    ensures
        symbols_lt(s, next_symbols(s)),
        symbols_valid(next_symbols(s)),
{
    let n = s.len() - 1;
    let c = s[n];
    if c < SYMBOL_MAX {
        let t = next_symbols(s);
        assert(s =~= s.take(n) + seq![c]);
        assert(t =~= s.take(n) + seq![(c + 1) as u8]);
        lemma_symbols_lt_congruence(s.take(n), seq![c], seq![(c + 1) as u8]);
        assert(symbols_lt(seq![c], seq![(c + 1) as u8]));
    } else {
        assert(next_symbols(s) =~= s + seq![1u8]);
        lemma_symbols_lt_prefix(s, seq![1u8]);
    }
}

/// `prev` moves strictly down: for every rank `r`, `prev(r) < r`, and the
/// result is again well formed.
pub proof fn lemma_prev_below(s: Seq<u8>)
    requires
        symbols_valid(s),
    ensures
        symbols_lt(prev_symbols(s), s),
        symbols_valid(prev_symbols(s)),
{
    let n = s.len() - 1;
    let c = s[n];
    let t = prev_symbols(s);
    if c >= 2 {
        assert(s =~= s.take(n) + seq![c]);
        assert(t =~= s.take(n) + seq![(c - 1) as u8]);
        lemma_symbols_lt_congruence(s.take(n), seq![(c - 1) as u8], seq![c]);
        assert(symbols_lt(seq![(c - 1) as u8], seq![c]));
    } else if s.len() >= 2 && s[n - 1] != 0 {
        assert(s =~= s.take(n) + seq![c]);
        lemma_symbols_lt_prefix(s.take(n), seq![c]);
        assert(t[t.len() - 1] == s[n - 1]);
    } else {
        assert(c == 1);
        assert(t =~= s.take(n) + seq![0u8, SYMBOL_MAX]);
        assert(s =~= s.take(n) + seq![c]);
        lemma_symbols_lt_congruence(s.take(n), seq![0u8, SYMBOL_MAX], seq![c]);
        assert(symbols_lt(seq![0u8, SYMBOL_MAX], seq![1u8]));
    }
}

/// `prev` undoes `next`: for every rank `r`, `prev(next(r)) == r`.
pub proof fn lemma_prev_next_identity(s: Seq<u8>)
    requires
        symbols_valid(s),
    ensures
        prev_symbols(next_symbols(s)) == s,
{
    let n = s.len() - 1;
    let c = s[n];
    if c < SYMBOL_MAX {
        let t = next_symbols(s);
        assert(t[t.len() - 1] == c + 1);
        assert(c + 1 >= 2);
        assert(prev_symbols(t) =~= s);
    } else {
        let t = s.push(1);
        assert(t[t.len() - 1] == 1);
        assert(t.len() >= 2);
        assert(t[t.len() - 2] == c);
        assert(prev_symbols(t) =~= s);
    }
}

/// Copies the symbol values of `v` between `from` and `to`.
fn copy_range(v: &Vec<u8>, from: usize, to: usize) -> (result: Vec<u8>)
    requires
        from <= to <= v@.len(),
    ensures
        result@ == v@.subrange(from as int, to as int),
{
    let mut result: Vec<u8> = Vec::new();
    let mut i: usize = from;
    while i < to
        invariant
            from <= i <= to <= v@.len(),
            result@ == v@.subrange(from as int, i as int),
        decreases to - i,
    {
        result.push(v[i]);
        proof {
            assert(result@ =~= v@.subrange(from as int, i + 1));
        }
        i += 1;
    }
    result
}

impl Rank {
    /// The rank immediately to use when appending after this one: strictly
    /// greater than `self`, leaving every other rank untouched.
    pub fn next(&self) -> (result: Rank)
        requires
            self.wf(),
        ensures
            result@ == next_symbols(self@),
            result.wf(),
            symbols_lt(self@, result@),
    {
        proof {
            lemma_next_above(self@);
        }
        let n = self.symbols.len() - 1;
        let c = self.symbols[n];
        let mut symbols = copy_range(&self.symbols, 0, self.symbols.len());
        proof {
            assert(symbols@ =~= self@);
        }
        if c < SYMBOL_MAX {
            symbols[n] = c + 1;
            proof {
                assert(symbols@ =~= next_symbols(self@));
            }
        } else {
            symbols.push(1);
            proof {
                assert(symbols@ =~= next_symbols(self@));
            }
        }
        Rank { symbols }
    }

    /// The rank immediately to use when prepending before this one: strictly
    /// less than `self`, leaving every other rank untouched.
    pub fn prev(&self) -> (result: Rank)
        requires
            self.wf(),
        ensures
            result@ == prev_symbols(self@),
            result.wf(),
            symbols_lt(result@, self@),
    {
        proof {
            lemma_prev_below(self@);
        }
        let n = self.symbols.len() - 1;
        let c = self.symbols[n];
        if c >= 2 {
            let mut symbols = copy_range(&self.symbols, 0, self.symbols.len());
            symbols[n] = c - 1;
            proof {
                assert(symbols@ =~= prev_symbols(self@));
            }
            Rank { symbols }
        } else if n >= 1 && self.symbols[n - 1] != 0 {
            let symbols = copy_range(&self.symbols, 0, n);
            proof {
                assert(symbols@ =~= prev_symbols(self@));
            }
            Rank { symbols }
        } else {
            let mut symbols = copy_range(&self.symbols, 0, self.symbols.len());
            symbols[n] = 0;
            symbols.push(SYMBOL_MAX);
            proof {
                assert(symbols@ =~= prev_symbols(self@));
            }
            Rank { symbols }
        }
    }

    /// A rank strictly between `self` and `other`, defined for every pair
    /// with `self < other`: the key property of the dense key space. `None`
    /// is returned exactly when the two inputs are equal or misordered, which
    /// callers must treat as a programming error, not as lack of room.
    #[verifier::rlimit(80)]
    pub fn between(&self, other: &Rank) -> (result: Option<Rank>)
        requires
            self.wf(),
            other.wf(),
        ensures
            result is Some <==> symbols_lt(self@, other@),
            result matches Some(c) ==> c.wf() && symbols_lt(self@, c@) && symbols_lt(
                c@,
                other@,
            ),
    {
        if !self.lt(other) {
            return None;
        }
        let a = &self.symbols;
        let b = &other.symbols;
        let ghost av = a@;
        let ghost bv = b@;
        let mut i: usize = 0;
        while i < a.len() && i < b.len() && a[i] == b[i]
            invariant
                av == a@,
                bv == b@,
                i <= av.len(),
                i <= bv.len(),
                av.take(i as int) == bv.take(i as int),
            decreases av.len() - i,
        {
            proof {
                assert(av.take(i + 1) =~= bv.take(i + 1));
            }
            i += 1;
        }
        if i < a.len() && i < b.len() {
            // The strings differ first at position `i`; the order makes the
            // left symbol the smaller one.
            proof {
                lemma_first_difference(av, bv, i as int);
            }
            let low = a[i];
            let high = b[i];
            if high - low >= 2 {
                // A whole symbol fits between the two: take the midpoint and
                // truncate.
                let mid = low + (high - low) / 2;
                let mut symbols = copy_range(a, 0, i);
                symbols.push(mid);
                proof {
                    lemma_take_skip(av, i as int);
                    lemma_take_skip(bv, i as int);
                    assert(symbols@ =~= av.take(i as int) + seq![mid]);
                    lemma_symbols_lt_congruence(av.take(i as int), av.skip(i as int), seq![mid]);
                    assert(av.skip(i as int)[0] == av[i as int]);
                    assert(symbols_lt(av.skip(i as int), seq![mid]));
                    assert(symbols@ =~= bv.take(i as int) + seq![mid]);
                    lemma_symbols_lt_congruence(bv.take(i as int), seq![mid], bv.skip(i as int));
                    assert(bv.skip(i as int)[0] == bv[i as int]);
                    assert(symbols_lt(seq![mid], bv.skip(i as int)));
                    assert(symbols@[symbols@.len() - 1] != 0);
                    assert forall|k: int| 0 <= k < symbols@.len() implies symbols@[k]
                        < SYMBOL_COUNT by {
                        if k < i {
                            assert(symbols@[k] == av[k]);
                        }
                    }
                    assert(symbols_valid(symbols@));
                }
                Some(Rank { symbols })
            } else {
                // Adjacent symbols: keep the left symbol and extend past the
                // rest of the left string.
                let mut symbols = copy_range(a, 0, i + 1);
                let tail = suffix_above(a, i + 1);
                let ghost p = symbols@;
                let ghost t = tail@;
                let mut tail = tail;
                symbols.append(&mut tail);
                proof {
                    assert(symbols@ == p + t);
                    lemma_take_skip(av, i + 1);
                    lemma_symbols_lt_congruence(av.take(i + 1), av.skip(i + 1), t);
                    assert(av.take(i + 1) =~= p);
                    assert(symbols_lt(av, symbols@));
                    // Below `other`: the strings still differ first at `i`.
                    lemma_take_skip(bv, i as int);
                    lemma_symbols_lt_congruence(
                        bv.take(i as int),
                        symbols@.skip(i as int),
                        bv.skip(i as int),
                    );
                    assert(symbols@.take(i as int) =~= av.take(i as int));
                    assert(symbols@ =~= symbols@.take(i as int) + symbols@.skip(i as int));
                    assert(symbols@.skip(i as int)[0] == av[i as int]);
                    assert(bv.skip(i as int)[0] == bv[i as int]);
                    assert(symbols_lt(symbols@.skip(i as int), bv.skip(i as int)));
                    assert(symbols@[symbols@.len() - 1] == t[t.len() - 1]);
                    assert forall|k: int| 0 <= k < symbols@.len() implies symbols@[k]
                        < SYMBOL_COUNT by {
                        if k < i + 1 {
                            assert(symbols@[k] == av[k]);
                        } else {
                            assert(symbols@[k] == t[k - (i + 1)]);
                        }
                    }
                    assert(symbols_valid(symbols@));
                }
                Some(Rank { symbols })
            }
        } else {
            // One string ran out: with `self < other` it can only be the left
            // one, so the left string is a proper prefix of the right.
            proof {
                if i == bv.len() && i < av.len() {
                    lemma_take_skip(av, i as int);
                    lemma_symbols_lt_congruence(bv, av.skip(i as int), Seq::<u8>::empty());
                    assert(bv + Seq::<u8>::empty() =~= bv);
                    assert(bv + av.skip(i as int) =~= av);
                    assert(!symbols_lt(av.skip(i as int), Seq::<u8>::empty()));
                    assert(false);
                }
                if i == av.len() && i == bv.len() {
                    assert(av.take(i as int) =~= av);
                    assert(bv.take(i as int) =~= bv);
                    assert(av =~= bv);
                    lemma_symbols_lt_irrefl(av);
                    assert(false);
                }
            }
            let mut symbols = copy_range(a, 0, a.len());
            let tail = suffix_below(b, i);
            let ghost t = tail@;
            let mut tail = tail;
            symbols.append(&mut tail);
            proof {
                assert(symbols@ == av + t);
                lemma_symbols_lt_prefix(av, t);
                lemma_take_skip(bv, i as int);
                lemma_symbols_lt_congruence(av, t, bv.skip(i as int));
                assert(bv.take(i as int) =~= av);
                assert(symbols_lt(symbols@, bv));
                assert(symbols@[symbols@.len() - 1] == t[t.len() - 1]);
                assert forall|k: int| 0 <= k < symbols@.len() implies symbols@[k]
                    < SYMBOL_COUNT by {
                    if k < av.len() {
                        assert(symbols@[k] == av[k]);
                    } else {
                        assert(symbols@[k] == t[k - av.len()]);
                    }
                }
                assert(symbols_valid(symbols@));
            }
            Some(Rank { symbols })
        }
    }
}

/// A string strictly above the suffix of `s` that starts at `from`: the first
/// symbol there that can grow is incremented and the rest dropped; a suffix
/// of greatest symbols (or an empty one) is extended by the middle symbol.
fn suffix_above(s: &Vec<u8>, from: usize) -> (result: Vec<u8>)
    requires
        from <= s@.len(),
        forall|i: int| 0 <= i < s@.len() ==> s@[i] < SYMBOL_COUNT,
    ensures
        symbols_lt(s@.skip(from as int), result@),
        symbols_valid(result@),
        forall|i: int| 0 <= i < result@.len() ==> result@[i] < SYMBOL_COUNT,
{
    let ghost tail = s@.skip(from as int);
    let mut j: usize = from;
    while j < s.len() && s[j] == SYMBOL_MAX
        invariant
            from <= j <= s@.len(),
            forall|k: int| from <= k < j ==> s@[k] == SYMBOL_MAX,
        decreases s@.len() - j,
    {
        j += 1;
    }
    if j < s.len() {
        let mut result = copy_range(s, from, j);
        result.push(s[j] + 1);
        proof {
            let p = s@.subrange(from as int, j as int);
            assert(result@ =~= p + seq![(s@[j as int] + 1) as u8]);
            assert(tail =~= p + tail.skip(j - from));
            lemma_symbols_lt_congruence(p, tail.skip(j - from), seq![(s@[j as int] + 1) as u8]);
            assert(tail.skip(j - from)[0] == s@[j as int]);
            assert(symbols_lt(tail.skip(j - from), seq![(s@[j as int] + 1) as u8]));
            assert(result@[result@.len() - 1] != 0);
        }
        result
    } else {
        let mut result = copy_range(s, from, s.len());
        result.push(SYMBOL_MID);
        proof {
            assert(result@ =~= tail + seq![SYMBOL_MID]);
            lemma_symbols_lt_prefix(tail, seq![SYMBOL_MID]);
            assert(result@[result@.len() - 1] == SYMBOL_MID);
        }
        result
    }
}

/// A non-empty string strictly below the suffix of `s` that starts at `from`,
/// provided that suffix is not a run of lowest symbols: the first symbol
/// there that can shrink is decremented — reaching the lowest symbol forces
/// the middle symbol to be appended so the result stays well formed.
fn suffix_below(s: &Vec<u8>, from: usize) -> (result: Vec<u8>)
    requires
        from < s@.len(),
        forall|i: int| 0 <= i < s@.len() ==> s@[i] < SYMBOL_COUNT,
        s@[s@.len() - 1] != 0,
    ensures
        symbols_lt(result@, s@.skip(from as int)),
        symbols_valid(result@),
{
    let ghost tail = s@.skip(from as int);
    let mut j: usize = from;
    while j < s.len() - 1 && s[j] == 0
        invariant
            from <= j <= s@.len() - 1,
            forall|k: int| from <= k < j ==> s@[k] == 0,
        decreases s@.len() - j,
    {
        j += 1;
    }
    // The scan stops at a non-zero symbol: the last one is never zero.
    let c = s[j];
    proof {
        assert(c != 0);
    }
    let mut result = copy_range(s, from, j);
    let ghost p = s@.subrange(from as int, j as int);
    if c >= 2 {
        result.push(c - 1);
        proof {
            assert(result@ =~= p + seq![(c - 1) as u8]);
            assert(tail =~= p + tail.skip(j - from));
            lemma_symbols_lt_congruence(p, seq![(c - 1) as u8], tail.skip(j - from));
            assert(tail.skip(j - from)[0] == c);
            assert(symbols_lt(seq![(c - 1) as u8], tail.skip(j - from)));
            assert(result@[result@.len() - 1] != 0);
        }
    } else {
        result.push(0);
        result.push(SYMBOL_MID);
        proof {
            assert(result@ =~= p + seq![0u8, SYMBOL_MID]);
            assert(tail =~= p + tail.skip(j - from));
            lemma_symbols_lt_congruence(p, seq![0u8, SYMBOL_MID], tail.skip(j - from));
            assert(tail.skip(j - from)[0] == c);
            assert(symbols_lt(seq![0u8, SYMBOL_MID], tail.skip(j - from)));
            assert(result@[result@.len() - 1] == SYMBOL_MID);
        }
    }
    result
}

} // verus!
