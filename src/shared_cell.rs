use vstd::prelude::*;

verus! {

/// A cell whose value is reached only inside a closure.
///
/// The value moves into the closure and comes back out of it, so the access
/// window is exactly the closure's run and nothing can outlive it.
pub struct SharedCell<T> {
    slot: Option<T>,
}

impl<T> SharedCell<T> {
    /// The cell holds its value (it is empty only while a closure runs).
    pub closed spec fn inv(&self) -> bool {
        self.slot is Some
    }

    /// The value held by the cell.
    pub closed spec fn value(&self) -> T {
        self.slot->0
    }

    /// Creates a cell that owns `value`.
    pub fn new(value: T) -> (r: Self)
        ensures
            r.inv(),
            r.value() == value,
    {
        SharedCell { slot: Some(value) }
    }

    /// Runs `f` with exclusive access to the value; `f` hands back the new
    /// value together with its result.
    pub fn with<R, F: FnOnce(T) -> (T, R)>(&mut self, f: F) -> (r: R)
        requires
            old(self).inv(),
            f.requires((old(self).value(),)),
        ensures
            final(self).inv(),
            f.ensures((old(self).value(),), (final(self).value(), r)),
    {
        let v = self.slot.take().unwrap();
        let (next, r) = f(v);
        self.slot = Some(next);
        r
    }

    /// Gives the value back to its owner.
    pub fn into_inner(self) -> (r: T)
        requires
            self.inv(),
        ensures
            r == self.value(),
    {
        self.slot.unwrap()
    }
}

/// Closure-scoped access to the value of a cell.
pub trait CellExt<T> {
    /// The cell can be entered.
    spec fn ready(&self) -> bool;

    /// The value currently held.
    spec fn current(&self) -> T;

    /// Runs `f` on the value and stores what `f` hands back.
    fn with<R, F: FnOnce(T) -> (T, R)>(&mut self, f: F) -> (r: R)
        requires
            old(self).ready(),
            f.requires((old(self).current(),)),
        ensures
            final(self).ready(),
            f.ensures((old(self).current(),), (final(self).current(), r)),
    ;
}

impl<T> CellExt<T> for SharedCell<T> {
    open spec fn ready(&self) -> bool {
        self.inv()
    }

    open spec fn current(&self) -> T {
        self.value()
    }

    fn with<R, F: FnOnce(T) -> (T, R)>(&mut self, f: F) -> (r: R) {
        SharedCell::with(self, f)
    }
}

} // verus!
