//! The slot store: an array of fixed-size slots read and written by index.
//! Every index is computed internally by the placement engine, so an index
//! out of range is ruled out by contract, not recovered from.

use vstd::prelude::*;
use vstd::pervasive::VecAdditionalExecFns;

use crate::codec::Slot;

verus! {

/// The backing array of slots.
pub struct SlotStore {
    pub slots: Vec<Slot>,
}

impl SlotStore {
    /// A store of `n` empty slots.
    pub fn new_empty(n: usize) -> (st: Self)
        ensures
            st.slots@.len() == n,
            forall|i: int| 0 <= i < n ==> st.slots@[i] is Empty,
    {
        let mut slots: Vec<Slot> = Vec::new();
        let mut i: usize = 0;
        while i < n
            invariant
                i <= n,
                slots@.len() == i,
                forall|j: int| 0 <= j < i ==> slots@[j] is Empty,
            decreases n - i,
        {
            slots.push(Slot::Empty);
            i += 1;
        }
        SlotStore { slots }
    }

    /// Number of slots.
    pub fn capacity(&self) -> (n: usize)
        ensures
            n == self.slots@.len(),
    {
        self.slots.len()
    }

    /// Read the slot at `index`.
    pub fn read(&self, index: usize) -> (sl: &Slot)
        requires
            index < self.slots@.len(),
        ensures
            *sl == self.slots@[index as int],
    {
        &self.slots[index]
    }

    /// Overwrite the slot at `index`.
    pub fn write(&mut self, index: usize, sl: Slot)
        requires
            index < old(self).slots@.len(),
        ensures
            final(self).slots@ == old(self).slots@.update(index as int, sl),
    {
        self.slots.set(index, sl);
    }

    /// Extend the backing array by `count` empty slots.
    pub fn append_empty(&mut self, count: usize)
        requires
            old(self).slots@.len() + count <= usize::MAX,
        ensures
            final(self).slots@.len() == old(self).slots@.len() + count,
            forall|i: int|
                0 <= i < old(self).slots@.len() ==> final(self).slots@[i] == old(self).slots@[i],
            forall|i: int|
                old(self).slots@.len() <= i < final(self).slots@.len() ==> final(self).slots@[i] is Empty,
    {
        let mut i: usize = 0;
        while i < count
            invariant
                i <= count,
                self.slots@.len() == old(self).slots@.len() + i,
                forall|j: int|
                    0 <= j < old(self).slots@.len() ==> self.slots@[j] == old(self).slots@[j],
                forall|j: int|
                    old(self).slots@.len() <= j < self.slots@.len() ==> self.slots@[j] is Empty,
            decreases count - i,
        {
            self.slots.push(Slot::Empty);
            i += 1;
        }
    }
}

} // verus!
