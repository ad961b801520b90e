//! Rounded arithmetic on doubles, supplied from outside and held to nothing.
//!
//! The library computes with whatever [`Arithmetic`] its caller brings.  Contracts that
//! fix a computed number speak of an arithmetic whose operations are functions of their
//! operands, see [`functional`]: then `sum_of`, `product_of` and the rest are those
//! functions, and a contract says which of them are applied to what, and in which order.

use crate::double::Real;
use vstd::prelude::*;

verus! {

/// The rounded operations on doubles.
pub trait Arithmetic: Sized {
    /// `a + b`.
    fn plus(&self, a: Real, b: Real) -> Real;

    /// `a - b`.
    fn minus(&self, a: Real, b: Real) -> Real;

    /// `a * b`.
    fn times(&self, a: Real, b: Real) -> Real;

    /// `a / b`.
    fn over(&self, a: Real, b: Real) -> Real;

    /// The square root of `a`.
    fn sqrt(&self, a: Real) -> Real;

    /// The length of the hypotenuse over the sides `a` and `b`.
    fn hypot(&self, a: Real, b: Real) -> Real;

    /// The cosine of `a` radians.
    fn cos(&self, a: Real) -> Real;

    /// The sine of `a` radians.
    fn sin(&self, a: Real) -> Real;

    /// The four-quadrant arctangent of `a` and `b`.
    fn atan2(&self, a: Real, b: Real) -> Real;

    /// The natural logarithm of `a`.
    fn ln(&self, a: Real) -> Real;

    /// The integer nearest to `a`, halves away from zero.
    fn round(&self, a: Real) -> Real;

    /// The double nearest to the integer `a`.
    fn count(&self, a: u64) -> Real;
}

/// `a + b`, in an arithmetic whose operations are functions.
pub open spec fn sum_of<A: Arithmetic>(ar: A, a: Real, b: Real) -> Real {
    choose|r: Real| call_ensures(A::plus, (&ar, a, b), r)
}

/// `a - b`, in an arithmetic whose operations are functions.
pub open spec fn difference_of<A: Arithmetic>(ar: A, a: Real, b: Real) -> Real {
    choose|r: Real| call_ensures(A::minus, (&ar, a, b), r)
}

/// `a * b`, in an arithmetic whose operations are functions.
pub open spec fn product_of<A: Arithmetic>(ar: A, a: Real, b: Real) -> Real {
    choose|r: Real| call_ensures(A::times, (&ar, a, b), r)
}

/// `a / b`, in an arithmetic whose operations are functions.
pub open spec fn quotient_of<A: Arithmetic>(ar: A, a: Real, b: Real) -> Real {
    choose|r: Real| call_ensures(A::over, (&ar, a, b), r)
}

/// The square root of `a`, in an arithmetic whose operations are functions.
pub open spec fn root_of<A: Arithmetic>(ar: A, a: Real) -> Real {
    choose|r: Real| call_ensures(A::sqrt, (&ar, a), r)
}

/// The length of the hypotenuse over the sides `a` and `b`, in an arithmetic whose operations are functions.
pub open spec fn hypotenuse_of<A: Arithmetic>(ar: A, a: Real, b: Real) -> Real {
    choose|r: Real| call_ensures(A::hypot, (&ar, a, b), r)
}

/// The cosine of `a` radians, in an arithmetic whose operations are functions.
pub open spec fn cosine_of<A: Arithmetic>(ar: A, a: Real) -> Real {
    choose|r: Real| call_ensures(A::cos, (&ar, a), r)
}

/// The sine of `a` radians, in an arithmetic whose operations are functions.
pub open spec fn sine_of<A: Arithmetic>(ar: A, a: Real) -> Real {
    choose|r: Real| call_ensures(A::sin, (&ar, a), r)
}

/// The four-quadrant arctangent of `a` and `b`, in an arithmetic whose operations are functions.
pub open spec fn angle_of<A: Arithmetic>(ar: A, a: Real, b: Real) -> Real {
    choose|r: Real| call_ensures(A::atan2, (&ar, a, b), r)
}

/// The natural logarithm of `a`, in an arithmetic whose operations are functions.
pub open spec fn logarithm_of<A: Arithmetic>(ar: A, a: Real) -> Real {
    choose|r: Real| call_ensures(A::ln, (&ar, a), r)
}

/// The integer nearest to `a`, halves away from zero, in an arithmetic whose operations are functions.
pub open spec fn nearest_of<A: Arithmetic>(ar: A, a: Real) -> Real {
    choose|r: Real| call_ensures(A::round, (&ar, a), r)
}

/// The double nearest to the integer `a`, in an arithmetic whose operations are functions.
pub open spec fn count_of<A: Arithmetic>(ar: A, a: u64) -> Real {
    choose|r: Real| call_ensures(A::count, (&ar, a), r)
}

/// Whether every operation is a function of its operands, as those of the processor are.
#[verifier::opaque]
pub open spec fn functional<A: Arithmetic>(ar: A) -> bool {
    &&& forall|a: Real, b: Real, r: Real|
        #[trigger] call_ensures(A::plus, (&ar, a, b), r) ==> r == sum_of(ar, a, b)
    &&& forall|a: Real, b: Real, r: Real|
        #[trigger] call_ensures(A::minus, (&ar, a, b), r) ==> r == difference_of(ar, a, b)
    &&& forall|a: Real, b: Real, r: Real|
        #[trigger] call_ensures(A::times, (&ar, a, b), r) ==> r == product_of(ar, a, b)
    &&& forall|a: Real, b: Real, r: Real|
        #[trigger] call_ensures(A::over, (&ar, a, b), r) ==> r == quotient_of(ar, a, b)
    &&& forall|a: Real, r: Real|
        #[trigger] call_ensures(A::sqrt, (&ar, a), r) ==> r == root_of(ar, a)
    &&& forall|a: Real, b: Real, r: Real|
        #[trigger] call_ensures(A::hypot, (&ar, a, b), r) ==> r == hypotenuse_of(ar, a, b)
    &&& forall|a: Real, r: Real|
        #[trigger] call_ensures(A::cos, (&ar, a), r) ==> r == cosine_of(ar, a)
    &&& forall|a: Real, r: Real|
        #[trigger] call_ensures(A::sin, (&ar, a), r) ==> r == sine_of(ar, a)
    &&& forall|a: Real, b: Real, r: Real|
        #[trigger] call_ensures(A::atan2, (&ar, a, b), r) ==> r == angle_of(ar, a, b)
    &&& forall|a: Real, r: Real|
        #[trigger] call_ensures(A::ln, (&ar, a), r) ==> r == logarithm_of(ar, a)
    &&& forall|a: Real, r: Real|
        #[trigger] call_ensures(A::round, (&ar, a), r) ==> r == nearest_of(ar, a)
    &&& forall|a: u64, r: Real|
        #[trigger] call_ensures(A::count, (&ar, a), r) ==> r == count_of(ar, a)
}

/// `a + b`.
pub fn plus<A: Arithmetic>(ar: &A, a: Real, b: Real) -> (r: Real)
    ensures
        functional(*ar) ==> r == sum_of(*ar, a, b),
{
    let r = ar.plus(a, b);
    proof {
        reveal(functional);
    }
    r
}

/// `a - b`.
pub fn minus<A: Arithmetic>(ar: &A, a: Real, b: Real) -> (r: Real)
    ensures
        functional(*ar) ==> r == difference_of(*ar, a, b),
{
    let r = ar.minus(a, b);
    proof {
        reveal(functional);
    }
    r
}

/// `a * b`.
pub fn times<A: Arithmetic>(ar: &A, a: Real, b: Real) -> (r: Real)
    ensures
        functional(*ar) ==> r == product_of(*ar, a, b),
{
    let r = ar.times(a, b);
    proof {
        reveal(functional);
    }
    r
}

/// `a / b`.
pub fn over<A: Arithmetic>(ar: &A, a: Real, b: Real) -> (r: Real)
    ensures
        functional(*ar) ==> r == quotient_of(*ar, a, b),
{
    let r = ar.over(a, b);
    proof {
        reveal(functional);
    }
    r
}

/// The square root of `a`.
pub fn sqrt<A: Arithmetic>(ar: &A, a: Real) -> (r: Real)
    ensures
        functional(*ar) ==> r == root_of(*ar, a),
{
    let r = ar.sqrt(a);
    proof {
        reveal(functional);
    }
    r
}

/// The length of the hypotenuse over the sides `a` and `b`.
pub fn hypot<A: Arithmetic>(ar: &A, a: Real, b: Real) -> (r: Real)
    ensures
        functional(*ar) ==> r == hypotenuse_of(*ar, a, b),
{
    let r = ar.hypot(a, b);
    proof {
        reveal(functional);
    }
    r
}

/// The cosine of `a` radians.
pub fn cos<A: Arithmetic>(ar: &A, a: Real) -> (r: Real)
    ensures
        functional(*ar) ==> r == cosine_of(*ar, a),
{
    let r = ar.cos(a);
    proof {
        reveal(functional);
    }
    r
}

/// The sine of `a` radians.
pub fn sin<A: Arithmetic>(ar: &A, a: Real) -> (r: Real)
    ensures
        functional(*ar) ==> r == sine_of(*ar, a),
{
    let r = ar.sin(a);
    proof {
        reveal(functional);
    }
    r
}

/// The four-quadrant arctangent of `a` and `b`.
pub fn atan2<A: Arithmetic>(ar: &A, a: Real, b: Real) -> (r: Real)
    ensures
        functional(*ar) ==> r == angle_of(*ar, a, b),
{
    let r = ar.atan2(a, b);
    proof {
        reveal(functional);
    }
    r
}

/// The natural logarithm of `a`.
pub fn ln<A: Arithmetic>(ar: &A, a: Real) -> (r: Real)
    ensures
        functional(*ar) ==> r == logarithm_of(*ar, a),
{
    let r = ar.ln(a);
    proof {
        reveal(functional);
    }
    r
}

/// The integer nearest to `a`, halves away from zero.
pub fn round<A: Arithmetic>(ar: &A, a: Real) -> (r: Real)
    ensures
        functional(*ar) ==> r == nearest_of(*ar, a),
{
    let r = ar.round(a);
    proof {
        reveal(functional);
    }
    r
}

/// The double nearest to the integer `a`.
pub fn count<A: Arithmetic>(ar: &A, a: u64) -> (r: Real)
    ensures
        functional(*ar) ==> r == count_of(*ar, a),
{
    let r = ar.count(a);
    proof {
        reveal(functional);
    }
    r
}

} // verus!
