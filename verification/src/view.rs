//! Borrowed access to one component, as handed to a system.
use vstd::prelude::*;

verus! {

/// Shared access to a component.
pub struct View<'a, T> {
    pub data: &'a T,
}

impl<'a, T> View<'a, T> {
    pub fn new(data: &'a T) -> (r: View<'a, T>)
        ensures
            r.data == data,
    {
        View { data }
    }
}

impl<'a, T> core::ops::Deref for View<'a, T> {
    type Target = T;

    fn deref(&self) -> (r: &T)
        ensures
            r == self.data,
    {
        self.data
    }
}

/// Exclusive access to a component.
pub struct ViewMut<'a, T> {
    pub data: &'a mut T,
}

impl<'a, T> ViewMut<'a, T> {
    pub fn new(data: &'a mut T) -> (r: ViewMut<'a, T>)
        ensures
            *r.data == *old(data),
            *final(data) == *final(r.data),
    {
        ViewMut { data }
    }
}

} // verus!
