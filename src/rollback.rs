use vstd::prelude::*;

use crate::frame::{index, slot_of};

verus! {

/// Fixed-capacity ring of `LEN` cells, one per frame slot; frame `f` lives in slot
/// `f % LEN`.
pub struct Rollback<T, const LEN: usize> {
    cells: Vec<T>,
}

impl<T, const LEN: usize> View for Rollback<T, LEN> {
    type V = Seq<T>;

    closed spec fn view(&self) -> Seq<T> {
        self.cells@
    }
}

impl<T, const LEN: usize> Rollback<T, LEN> {
    /// Exactly `LEN` cells, and at least one.
    pub open spec fn wf(&self) -> bool {
        &&& LEN > 0
        &&& self@.len() == LEN
    }

    /// The cell that holds `frame`.
    pub open spec fn at(&self, frame: int) -> T {
        self@[slot_of(frame, LEN as int)]
    }

    /// The ring after `frame`'s cell is replaced by `value`.
    pub open spec fn with(&self, frame: int, value: T) -> Seq<T> {
        self@.update(slot_of(frame, LEN as int), value)
    }

    /// A ring whose every cell holds `init`.
    pub fn new(init: T) -> (r: Self)
        where
            T: Copy,
        requires
            LEN > 0,
        ensures
            r.wf(),
            forall|i: int| 0 <= i < LEN ==> #[trigger] r@[i] == init,
    {
        let mut cells: Vec<T> = Vec::new();
        let mut i: usize = 0;
        while i < LEN
            invariant
                i <= LEN,
                cells@.len() == i,
                forall|j: int| 0 <= j < i ==> #[trigger] cells@[j] == init,
            decreases LEN - i,
        {
            cells.push(init);
            i = i + 1;
        }
        Rollback { cells }
    }

    /// The cell of `frame`.
    pub fn get(&self, frame: u64) -> (r: &T)
        requires
            self.wf(),
        ensures
            *r == self.at(frame as int),
    {
        &self.cells[index::<LEN>(frame)]
    }

    /// Mutable access to the cell of `frame`; the other cells stay as they are.
    pub fn get_mut(&mut self, frame: u64) -> (r: &mut T)
        requires
            old(self).wf(),
        ensures
            *r == old(self).at(frame as int),
            final(self)@ == old(self).with(frame as int, *final(r)),
    {
        let i = index::<LEN>(frame);
        &mut self.cells[i]
    }

    /// Replace the cell of `frame` with `value`.
    pub fn set(&mut self, frame: u64, value: T)
        requires
            old(self).wf(),
        ensures
            final(self)@ == old(self).with(frame as int, value),
            final(self).wf(),
    {
        let i = index::<LEN>(frame);
        self.cells.set(i, value);
    }
}

} // verus!
