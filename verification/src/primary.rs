//! A value that only the primary core writes, before the secondary cores boot.
use vstd::prelude::*;

verus! {

/// A value that may be written only before the secondary cores have booted, and read always.
pub struct PrimaryCell<T> {
    value: T,
}

impl<T> PrimaryCell<T> {
    /// The value held.
    pub closed spec fn view(&self) -> T {
        self.value
    }

    /// A cell holding `value`.
    pub fn new(value: T) -> (r: Self)
        ensures
            r@ == value,
    {
        Self { value }
    }

    /// Write access to the value; `booted_all` tells whether the secondary cores have booted,
    /// which must not be the case.
    pub fn get_mut(&mut self, booted_all: bool) -> (r: &mut T)
        requires
            !booted_all,
        ensures
            *r == old(self)@,
            final(self)@ == *final(r),
    {
        &mut self.value
    }

    /// Read access to the value.
    pub fn get(&self) -> (r: &T)
        ensures
            *r == self@,
    {
        &self.value
    }
}

} // verus!
