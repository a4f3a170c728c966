//! Equality that holds only between values that are there.

use vstd::prelude::*;
use vstd::std_specs::cmp::PartialEqSpec;

verus! {

/// A value that may be missing. A missing value equals nothing, not even another
/// missing value.
#[derive(Debug, Clone, Copy)]
pub struct PartialEq<T>(pub Option<T>);

impl<T: core::cmp::PartialEq> PartialEq<T> {
    /// Both values are there, and they are equal.
    pub open spec fn same(self, other: Self) -> bool {
        self.0 is Some && other.0 is Some && self.0.unwrap().eq_spec(&other.0.unwrap())
    }

    /// Tells whether both values are there and equal. Where either is missing
    /// they are not. What two values that are there come to depends on their
    /// own equality.
    pub fn eq(&self, other: &Self) -> (equal: bool)
        ensures
            self.0 is None || other.0 is None ==> !equal,
            T::obeys_eq_spec() ==> equal == self.same(*other),
    {
        if let Some(a) = &self.0 {
            if let Some(b) = &other.0 {
                return a == b;
            }
        }
        false
    }
}

} // verus!
