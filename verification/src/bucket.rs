//! The coarse namespace partition of the rank space.
//!
//! Three buckets exist so that a collection whose rank strings have grown long
//! can be rewritten with freshly spaced ranks in the next bucket; ordering
//! compares the bucket before the rank, which makes such a rewrite
//! order-preserving as a whole.

use vstd::prelude::*;

verus! {

/// Number of buckets in the rank space.
pub const BUCKET_COUNT: u8 = 3;

/// A small discrete namespace scoping a rank: an integer in `{0, 1, 2}`.
#[derive(Clone, Copy, Debug, PartialEq, Eq, Structural)]
pub struct Bucket {
    value: u8,
}

impl Bucket {
    /// The integer held by the bucket.
    pub closed spec fn spec_value(&self) -> u8 {
        self.value
    }

    /// A bucket is well formed when its integer lies below `BUCKET_COUNT`.
    pub open spec fn wf(&self) -> bool {
        self.spec_value() < BUCKET_COUNT
    }

    /// Accepts exactly the integers `0`, `1` and `2`.
    pub fn new(value: u8) -> (result: Option<Bucket>)
        ensures
            value < BUCKET_COUNT ==> (result matches Some(b) && b.spec_value() == value),
            value >= BUCKET_COUNT ==> result is None,
    {
        if value < BUCKET_COUNT {
            Some(Bucket { value })
        } else {
            None
        }
    }

    #[verifier::when_used_as_spec(spec_value)]
    pub fn value(&self) -> (result: u8)
        ensures
            result == self.spec_value(),
    {
        self.value
    }

    /// The bucket following this one, wrapping around after the last: the
    /// target namespace when a collection's ranks are redistributed.
    pub fn successor(&self) -> (result: Bucket)
        requires
            self.wf(),
        ensures
            result.wf(),
            result.spec_value() == (self.spec_value() + 1) % (BUCKET_COUNT as int),
    {
        if self.value + 1 < BUCKET_COUNT {
            Bucket { value: self.value + 1 }
        } else {
            Bucket { value: 0 }
        }
    }
}

} // verus!
