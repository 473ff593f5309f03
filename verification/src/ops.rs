//! Caller-supplied operations, seen as relations between operands and results.
//!
//! A function value is known to the library only through its specification,
//! which may allow several results for the same operands. The predicates here
//! single out the operations whose specification allows at most one.

use vstd::prelude::*;

verus! {

/// The one-operand operation `f` is specified to return at most one result
/// for each operand.
pub open spec fn single_valued_unary<X, R, F: Fn(X) -> R>(f: F) -> bool {
    forall|x: X, r1: R, r2: R|
        #![trigger call_ensures(f, (x,), r1), call_ensures(f, (x,), r2)]
        call_ensures(f, (x,), r1) && call_ensures(f, (x,), r2) ==> r1 == r2
}

/// The two-operand operation `f` is specified to return at most one result
/// for each pair of operands.
pub open spec fn single_valued_binary<X, Y, R, F: Fn(X, Y) -> R>(f: F) -> bool {
    forall|x: X, y: Y, r1: R, r2: R|
        #![trigger call_ensures(f, (x, y), r1), call_ensures(f, (x, y), r2)]
        call_ensures(f, (x, y), r1) && call_ensures(f, (x, y), r2) ==> r1 == r2
}

} // verus!
