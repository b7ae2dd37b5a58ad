//! The cells that a ring buffer is made of.
use vstd::prelude::*;

verus! {

/// A cell whose content is only reached through a closure.
#[derive(Debug)]
pub struct UnsafeCell<T>(T);

impl<T> UnsafeCell<T> {
    /// The content of the cell.
    pub closed spec fn view(&self) -> T {
        self.0
    }

    /// Creates a cell that holds `data`.
    pub fn new(data: T) -> (cell: UnsafeCell<T>)
        ensures
            cell@ == data,
    {
        UnsafeCell(data)
    }

    /// Calls `f` with the content of the cell and returns what it returns.
    pub fn with<R, F: FnOnce(&T) -> R>(&self, f: F) -> (r: R)
        requires
            f.requires((&self@,)),
        ensures
            f.ensures((&self@,), r),
    {
        f(&self.0)
    }

    /// Calls `f` with mutable access to the content of the cell and returns
    /// what it returns. The content afterwards is what `f` left there.
    pub fn with_mut<R, F: FnOnce(&mut T) -> R>(&mut self, f: F) -> (r: R)
        requires
            forall|slot: &mut T| *slot == old(self)@ ==> f.requires((slot,)),
        ensures
            exists|slot: &mut T|
                *slot == old(self)@ && *final(slot) == final(self)@ && #[trigger] f.ensures(
                    (slot,),
                    r,
                ),
    {
        f(&mut self.0)
    }
}

} // verus!
