//! Index-addressed slot storage for leaf values: a growable vector of slots
//! plus a free list of reclaimed indices. Handles are stable until freed and
//! are reused after removal.

use crate::EMPTY_PTR;
use vstd::prelude::*;

verus! {

pub struct LeafArena<V> {
    slots: Vec<Option<V>>,
    spare: Vec<usize>,
    live: usize,
}

impl<V: Copy> LeafArena<V> {
    /// The live entries: which handles are in use, and the value each holds.
    pub closed spec fn entries(self) -> Map<usize, V> {
        Map::new(
            |k: usize| k < self.slots@.len() && self.slots@[k as int] is Some,
            |k: usize| self.slots@[k as int]->Some_0,
        )
    }

    /// The free list names distinct vacant slots, and `live` counts the
    /// entries in use.
    pub closed spec fn wf(self) -> bool {
        &&& forall|j: int|
            0 <= j < self.spare@.len() ==> (#[trigger] self.spare@[j]) < self.slots@.len()
                && self.slots@[self.spare@[j] as int] is None
        &&& forall|j1: int, j2: int|
            0 <= j1 < j2 < self.spare@.len() ==> self.spare@[j1] != self.spare@[j2]
        &&& self.live + self.spare@.len() <= self.slots@.len()
        &&& self.entries().dom().finite()
        &&& self.live == self.entries().dom().len()
    }

    /// A well-formed arena holds finitely many entries.
    pub proof fn lemma_entries_finite(self)
        requires
            self.wf(),
        ensures
            self.entries().dom().finite(),
    {
    }

    pub(crate) fn new() -> (a: Self)
        ensures
            a.wf(),
            a.entries() == Map::<usize, V>::empty(),
    {
        let a = LeafArena { slots: Vec::new(), spare: Vec::new(), live: 0 };
        proof {
            assert(a.entries().dom() =~= Set::<usize>::empty());
            assert(a.entries() =~= Map::<usize, V>::empty());
        }
        a
    }

    /// Store a value under a fresh handle, reusing a freed slot if one exists.
    pub(crate) fn acquire(&mut self, v: V) -> (k: usize)
        requires
            old(self).wf(),
        ensures
            final(self).wf(),
            !old(self).entries().dom().contains(k),
            k != EMPTY_PTR,
            final(self).entries() == old(self).entries().insert(k, v),
    {
        let cap = self.slots.len();
        let k: usize;
        match self.spare.pop() {
            Some(idx) => {
                k = idx;
                self.slots[k] = Some(v);
            }
            None => {
                self.slots.push(Some(v));
                let grown = self.slots.len();
                k = grown - 1;
            }
        }
        self.live = self.live + 1;
        proof {
            assert(!old(self).entries().dom().contains(k));
            assert(self.entries() =~= old(self).entries().insert(k, v));
            assert(self.entries().dom() =~= old(self).entries().dom().insert(k));
        }
        k
    }

    /// Free the slot under a live handle for reuse.
    pub(crate) fn release(&mut self, k: usize)
        requires
            old(self).wf(),
            old(self).entries().dom().contains(k),
        ensures
            final(self).wf(),
            final(self).entries() == old(self).entries().remove(k),
    {
        self.slots[k] = None;
        self.spare.push(k);
        self.live = self.live - 1;
        proof {
            assert(forall|j: int|
                0 <= j < old(self).spare@.len() ==> old(self).spare@[j] != k);
            assert(self.entries() =~= old(self).entries().remove(k));
            assert(self.entries().dom() =~= old(self).entries().dom().remove(k));
        }
    }

    /// The value stored under a live handle.
    pub(crate) fn read(&self, k: usize) -> (v: V)
        requires
            self.wf(),
            self.entries().dom().contains(k),
        ensures
            v == self.entries()[k],
    {
        self.slots[k].unwrap()
    }

    /// Overwrite the value stored under a live handle, in place.
    pub(crate) fn write(&mut self, k: usize, v: V)
        requires
            old(self).wf(),
            old(self).entries().dom().contains(k),
        ensures
            final(self).wf(),
            final(self).entries() == old(self).entries().insert(k, v),
    {
        self.slots[k] = Some(v);
        proof {
            assert(self.entries() =~= old(self).entries().insert(k, v));
            assert(self.entries().dom() =~= old(self).entries().dom().insert(k));
            assert(self.entries().dom() =~= old(self).entries().dom());
        }
    }

    /// How many handles are in use.
    pub(crate) fn count(&self) -> (n: usize)
        requires
            self.wf(),
        ensures
            n == self.entries().dom().len(),
    {
        self.live
    }
}

} // verus!
