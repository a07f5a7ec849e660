//! The compiler registry, as far as the store needs it: a set of profile
//! keys against which workspace and group-project references are validated.
//!
//! The profiles themselves — versions, paths, build arguments — are
//! configuration storage outside this core; the surrounding application
//! loads and saves them and hands the key set in.

use vstd::prelude::*;

use crate::errors::StoreError;

verus! {

/// The known compiler profile keys.
#[derive(Clone, Debug, PartialEq, Eq)]
pub struct CompilerRegistry {
    /// The keys, each at most once.
    pub keys: Vec<String>,
}

impl CompilerRegistry {
    /// True when the registry knows the key.
    pub open spec fn spec_contains(&self, key: Seq<char>) -> bool {
        exists|i: int| 0 <= i < self.keys@.len() && self.keys@[i]@ == key
    }

    /// No key occurs twice.
    pub open spec fn wf(&self) -> bool {
        forall|i: int, j: int|
            0 <= i < j < self.keys@.len() ==> (#[trigger] self.keys@[i])@ != (
            #[trigger] self.keys@[j])@
    }

    /// An empty registry.
    pub fn new() -> (result: CompilerRegistry)
        ensures
            result.keys@ =~= Seq::<String>::empty(),
            result.wf(),
    {
        CompilerRegistry { keys: Vec::new() }
    }

    /// True when the registry knows the key.
    pub fn contains(&self, key: &String) -> (result: bool)
        ensures
            result == self.spec_contains(key@),
    {
        let mut i: usize = 0;
        while i < self.keys.len()
            invariant
                i <= self.keys@.len(),
                forall|j: int| 0 <= j < i ==> (#[trigger] self.keys@[j])@ != key@,
            decreases self.keys@.len() - i,
        {
            if self.keys[i] == *key {
                return true;
            }
            i += 1;
        }
        false
    }

    /// Registers a key; a key already present fails with `AlreadyExists`
    /// and changes nothing.
    pub fn add_key(&mut self, key: String) -> (result: Result<(), StoreError>)
        requires
            old(self).wf(),
        ensures
            final(self).wf(),
            result == Err::<(), StoreError>(StoreError::AlreadyExists) <==> old(
                self,
            ).spec_contains(key@),
            result is Ok <==> !old(self).spec_contains(key@),
            result is Err ==> *final(self) == *old(self),
            result is Ok ==> final(self).keys@ == old(self).keys@.push(key),
    {
        if self.contains(&key) {
            return Err(StoreError::AlreadyExists);
        }
        let ghost before = self.keys@;
        self.keys.push(key);
        proof {
            assert forall|i: int, j: int| 0 <= i < j < self.keys@.len() implies (
            #[trigger] self.keys@[i])@ != (#[trigger] self.keys@[j])@ by {
                if j < before.len() {
                    assert(self.keys@[i] == before[i]);
                    assert(self.keys@[j] == before[j]);
                } else {
                    assert(self.keys@[i] == before[i]);
                }
            }
        }
        Ok(())
    }

    /// Unregisters a key; a key not present fails with `NotFound` and
    /// changes nothing.
    pub fn remove_key(&mut self, key: &String) -> (result: Result<(), StoreError>)
        requires
            old(self).wf(),
        ensures
            final(self).wf(),
            result == Err::<(), StoreError>(StoreError::NotFound) <==> !old(self).spec_contains(
                key@,
            ),
            result is Ok <==> old(self).spec_contains(key@),
            result is Err ==> *final(self) == *old(self),
            result is Ok ==> {
                &&& final(self).keys@.len() == old(self).keys@.len() - 1
                &&& !final(self).spec_contains(key@)
                &&& forall|k: Seq<char>|
                    k != key@ ==> #[trigger] final(self).spec_contains(k) == old(
                        self,
                    ).spec_contains(k)
            },
    {
        let ghost before = self.keys@;
        let mut i: usize = 0;
        while i < self.keys.len()
            invariant
                before == old(self).keys@,
                *self == *old(self),
                i <= before.len(),
                forall|j: int| 0 <= j < i ==> (#[trigger] before[j])@ != key@,
                forall|a: int, b: int|
                    0 <= a < b < before.len() ==> (#[trigger] before[a])@ != (
                    #[trigger] before[b])@,
            decreases before.len() - i,
        {
            if self.keys[i] == *key {
                self.keys.remove(i);
                proof {
                    assert(self.keys@ =~= before.take(i as int) + before.skip(i + 1));
                    assert forall|a: int, b: int| 0 <= a < b < self.keys@.len() implies (
                    #[trigger] self.keys@[a])@ != (#[trigger] self.keys@[b])@ by {
                        let a1 = if a < i { a } else { a + 1 };
                        let b1 = if b < i { b } else { b + 1 };
                        assert(self.keys@[a] == before[a1]);
                        assert(self.keys@[b] == before[b1]);
                    }
                    assert forall|a: int| 0 <= a < self.keys@.len() implies (
                    #[trigger] self.keys@[a])@ != key@ by {
                        let a1 = if a < i { a } else { a + 1 };
                        assert(self.keys@[a] == before[a1]);
                        if a1 != i {
                            assert(before[a1]@ != before[i as int]@);
                        }
                    }
                    assert forall|k: Seq<char>| k != key@ implies #[trigger] self.spec_contains(k)
                        == (exists|j: int| 0 <= j < before.len() && before[j]@ == k) by {
                        if self.spec_contains(k) {
                            let a = choose|a: int|
                                0 <= a < self.keys@.len() && self.keys@[a]@ == k;
                            let a1 = if a < i { a } else { a + 1 };
                            assert(before[a1]@ == k);
                        }
                        if exists|j: int| 0 <= j < before.len() && before[j]@ == k {
                            let j = choose|j: int| 0 <= j < before.len() && before[j]@ == k;
                            assert(j != i);
                            let a = if j < i { j } else { j - 1 };
                            assert(self.keys@[a] == before[j]);
                            assert(self.spec_contains(k));
                        }
                    }
                }
                return Ok(());
            }
            i += 1;
        }
        proof {
            assert forall|j: int| 0 <= j < old(self).keys@.len() implies (#[trigger] old(
                self,
            ).keys@[j])@ != key@ by {
                assert(old(self).keys@[j] == before[j]);
            }
        }
        Err(StoreError::NotFound)
    }
}

/// True when the registry knows the given compiler profile key.
pub fn compiler_exists(registry: &CompilerRegistry, key: &String) -> (result: bool)
    ensures
        result == registry.spec_contains(key@),
{
    registry.contains(key)
}

} // verus!
