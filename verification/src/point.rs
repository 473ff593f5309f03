//! The sample point shared by the grid sampler and the escape evaluator.

use vstd::prelude::*;

verus! {

/// A point of the complex plane, held as its real and imaginary coordinate.
///
/// The library never looks inside a coordinate: it copies coordinates around
/// and hands them to the caller's arithmetic.
#[derive(Debug, PartialEq)]
pub struct ComplexPoint<T> {
    pub re: T,
    pub im: T,
}

impl<T: Copy> Clone for ComplexPoint<T> {
    fn clone(&self) -> (copy: Self)
        ensures
            copy == *self,
    {
        *self
    }
}

impl<T: Copy> Copy for ComplexPoint<T> {

}

} // verus!
