//! The slot that owns the shared application state.
//!
//! Tasks receive read access to the value while the runtime alone mutates
//! it between phases; the slot makes that discipline a type.

use vstd::prelude::*;

verus! {

/// An owned slot holding the shared state.
pub struct Container<T> {
    data: T,
}

impl<T> Container<T> {
    /// The value held.
    pub closed spec fn value(self) -> T {
        self.data
    }

    /// Wrap `data` in a slot.
    pub fn new(data: T) -> (r: Self)
        ensures
            r.value() == data,
    {
        Self { data }
    }

    /// Read the held value.
    pub fn read(&self) -> (r: &T)
        ensures
            *r == self.value(),
    {
        &self.data
    }

    /// Replace the held value, returning the previous one.
    pub fn write(&mut self, data: T) -> (prev: T)
        ensures
            final(self).value() == data,
            prev == old(self).value(),
    {
        let mut data = data;
        core::mem::swap(&mut self.data, &mut data);
        data
    }

    /// Give the held value back.
    pub fn into_inner(self) -> (r: T)
        ensures
            r == self.value(),
    {
        self.data
    }
}

} // verus!
