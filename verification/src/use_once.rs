//! A holder that hands its value over exactly once.

use vstd::prelude::*;

verus! {

/// Holds one value until it is taken; after that it stays empty.
#[derive(Debug)]
pub struct UseOnce<T> {
    val: Option<T>,
}

impl<T> View for UseOnce<T> {
    type V = Option<T>;

    closed spec fn view(&self) -> Option<T> {
        self.val
    }
}

impl<T> UseOnce<T> {
    /// Wraps a value to be taken once.
    pub fn new(val: T) -> (r: Self)
        ensures
            r@ == Some(val),
    {
        UseOnce { val: Some(val) }
    }

    /// Hands the value over: the first call yields it, every later call
    /// yields nothing.
    pub fn take(&mut self) -> (r: Option<T>)
        ensures
            r == old(self)@,
            final(self)@ == None::<T>,
    {
        let mut tmp: Option<T> = None;
        core::mem::swap(&mut tmp, &mut self.val);
        tmp
    }
}

} // verus!
