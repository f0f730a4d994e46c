//! A fixed table with one slot per canonical letter.

use vstd::prelude::*;

use crate::normalized_word::NormalizedChar;

verus! {

use vstd::pervasive::VecAdditionalExecFns;

/// An associative container keyed by canonical letter: exactly one
/// slot for each of the 26 letters, read and written in O(1).
///
/// A well-formed table holds exactly 26 slots (`wf`); every
/// constructor establishes this and every method preserves it.
#[derive(Debug, PartialEq, Eq)]
pub struct CharMap<T> {
    slots: Vec<T>,
}

impl<T> View for CharMap<T> {
    type V = Seq<T>;

    closed spec fn view(&self) -> Seq<T> {
        self.slots@
    }
}

impl<T> CharMap<T> {
    /// Well-formedness: one slot per canonical letter.
    pub open spec fn wf(&self) -> bool {
        self@.len() == 26
    }

    /// Builds a table from its 26 slots, in canonical letter order.
    pub fn new(slots: Vec<T>) -> (r: CharMap<T>)
        requires
            slots@.len() == 26,
        ensures
            r@ == slots@,
            r.wf(),
    {
        CharMap { slots }
    }

    /// The slot of the given letter.
    pub fn get(&self, ch: NormalizedChar) -> (r: &T)
        requires
            self.wf(),
        ensures
            *r == self@[ch.idx()],
    {
        &self.slots[ch.as_index()]
    }

    /// Borrows the slot of the given letter mutably.
    pub fn get_mut(&mut self, ch: NormalizedChar) -> (r: &mut T)
        requires
            old(self).wf(),
        ensures
            *r == old(self)@[ch.idx()],
            final(self)@ == old(self)@.update(ch.idx(), *final(r)),
            final(self).wf(),
    {
        let i = ch.as_index();
        &mut self.slots[i]
    }

    /// Replaces the slot of the given letter.
    pub fn set(&mut self, ch: NormalizedChar, t: T)
        requires
            old(self).wf(),
        ensures
            final(self)@ == old(self)@.update(ch.idx(), t),
            final(self).wf(),
    {
        self.slots.set(ch.as_index(), t);
    }

    /// Exchanges the slot of the given letter with the given value.
    pub fn swap(&mut self, ch: NormalizedChar, t: &mut T)
        requires
            old(self).wf(),
        ensures
            final(self)@ == old(self)@.update(ch.idx(), *old(t)),
            *final(t) == old(self)@[ch.idx()],
            final(self).wf(),
    {
        self.slots.set_and_swap(ch.as_index(), t);
    }

    /// All 26 slots, in canonical letter order.
    pub fn iter_values(&self) -> (r: &Vec<T>)
        ensures
            r@ == self@,
    {
        &self.slots
    }
}

impl<T> CharMap<Option<T>> {
    /// A table with every slot empty.
    pub fn new_none() -> (r: CharMap<Option<T>>)
        ensures
            r.wf(),
            forall|i: int| 0 <= i < 26 ==> r@[i] is None,
    {
        let mut slots: Vec<Option<T>> = Vec::new();
        let mut i: usize = 0;
        while i < 26
            invariant
                i <= 26,
                slots@.len() == i,
                forall|j: int| 0 <= j < i ==> slots@[j] is None,
            decreases 26 - i,
        {
            slots.push(None);
            i += 1;
        }
        CharMap { slots }
    }
}

impl CharMap<u8> {
    /// A table with every count zero.
    pub fn new_zero() -> (r: CharMap<u8>)
        ensures
            r.wf(),
            forall|i: int| 0 <= i < 26 ==> r@[i] == 0u8,
    {
        let mut slots: Vec<u8> = Vec::new();
        let mut i: usize = 0;
        while i < 26
            invariant
                i <= 26,
                slots@.len() == i,
                forall|j: int| 0 <= j < i ==> slots@[j] == 0u8,
            decreases 26 - i,
        {
            slots.push(0);
            i += 1;
        }
        CharMap { slots }
    }
}

} // verus!
