//! Arithmetic on [`Real`] numbers, supplied by the caller.
//!
//! The library orders numbers, converts them to integers and back, and
//! decides what to add, multiply and compare; the arithmetic itself is the
//! machine's. An implementation of [`Arith`] hands it in. Contracts name
//! what an operation returned (`sum`, `product`, ...) and hold for every
//! arithmetic that is [`repeatable`]: one that answers the same question the
//! same way.

use crate::number::{num, Real, ZERO};
use vstd::prelude::*;

verus! {

/// The arithmetic operations that rendering needs.
pub trait Arith {
    /// `a + b`.
    fn plus(&self, a: Real, b: Real) -> Real;

    /// `a - b`.
    fn minus(&self, a: Real, b: Real) -> Real;

    /// `a * b`.
    fn times(&self, a: Real, b: Real) -> Real;

    /// `a / b`.
    fn over(&self, a: Real, b: Real) -> Real;

    /// `a` to the power `b`.
    fn powf(&self, a: Real, b: Real) -> Real;

    /// Length of the hypotenuse of a right triangle with legs `a` and `b`.
    fn hypot(&self, a: Real, b: Real) -> Real;

    /// Square root.
    fn sqrt(&self, a: Real) -> Real;

    /// Sine of an angle in radians.
    fn sin(&self, a: Real) -> Real;

    /// Cosine of an angle in radians.
    fn cos(&self, a: Real) -> Real;

    /// Tangent of an angle in radians.
    fn tan(&self, a: Real) -> Real;

    /// An angle in degrees, in radians.
    fn radians(&self, a: Real) -> Real;

    /// `a` to the integer power `n`.
    fn powi(&self, a: Real, n: i32) -> Real;
}

/// Writing numbers out, for messages.
pub trait Notation {
    /// The text of a number.
    fn written(&self, a: Real) -> String;
}

/// What [`Arith::plus`] returns.
pub open spec fn sum<K: Arith>(k: &K, a: Real, b: Real) -> Real {
    choose|r: Real| call_ensures(K::plus, (k, a, b), r)
}

/// What [`Arith::minus`] returns.
pub open spec fn difference<K: Arith>(k: &K, a: Real, b: Real) -> Real {
    choose|r: Real| call_ensures(K::minus, (k, a, b), r)
}

/// What [`Arith::times`] returns.
pub open spec fn product<K: Arith>(k: &K, a: Real, b: Real) -> Real {
    choose|r: Real| call_ensures(K::times, (k, a, b), r)
}

/// What [`Arith::over`] returns.
pub open spec fn quotient<K: Arith>(k: &K, a: Real, b: Real) -> Real {
    choose|r: Real| call_ensures(K::over, (k, a, b), r)
}

/// What [`Arith::powf`] returns.
pub open spec fn power<K: Arith>(k: &K, a: Real, b: Real) -> Real {
    choose|r: Real| call_ensures(K::powf, (k, a, b), r)
}

/// What [`Arith::hypot`] returns.
pub open spec fn hypotenuse<K: Arith>(k: &K, a: Real, b: Real) -> Real {
    choose|r: Real| call_ensures(K::hypot, (k, a, b), r)
}

/// What [`Arith::sqrt`] returns.
pub open spec fn root<K: Arith>(k: &K, a: Real) -> Real {
    choose|r: Real| call_ensures(K::sqrt, (k, a), r)
}

/// What [`Arith::sin`] returns.
pub open spec fn sine<K: Arith>(k: &K, a: Real) -> Real {
    choose|r: Real| call_ensures(K::sin, (k, a), r)
}

/// What [`Arith::cos`] returns.
pub open spec fn cosine<K: Arith>(k: &K, a: Real) -> Real {
    choose|r: Real| call_ensures(K::cos, (k, a), r)
}

/// What [`Arith::tan`] returns.
pub open spec fn tangent<K: Arith>(k: &K, a: Real) -> Real {
    choose|r: Real| call_ensures(K::tan, (k, a), r)
}

/// What [`Arith::radians`] returns.
pub open spec fn in_radians<K: Arith>(k: &K, a: Real) -> Real {
    choose|r: Real| call_ensures(K::radians, (k, a), r)
}

/// What [`Arith::powi`] returns.
pub open spec fn whole_power<K: Arith>(k: &K, a: Real, n: i32) -> Real {
    choose|r: Real| call_ensures(K::powi, (k, a, n), r)
}

/// The operations are functions of their operands.
pub open spec fn repeatable<K: Arith>(k: &K) -> bool {
    &&& forall|a: Real, b: Real, r: Real| #[trigger]
        call_ensures(K::plus, (k, a, b), r) ==> r == sum(k, a, b)
    &&& forall|a: Real, b: Real, r: Real| #[trigger]
        call_ensures(K::minus, (k, a, b), r) ==> r == difference(k, a, b)
    &&& forall|a: Real, b: Real, r: Real| #[trigger]
        call_ensures(K::times, (k, a, b), r) ==> r == product(k, a, b)
    &&& forall|a: Real, b: Real, r: Real| #[trigger]
        call_ensures(K::over, (k, a, b), r) ==> r == quotient(k, a, b)
    &&& forall|a: Real, b: Real, r: Real| #[trigger]
        call_ensures(K::powf, (k, a, b), r) ==> r == power(k, a, b)
    &&& forall|a: Real, b: Real, r: Real| #[trigger]
        call_ensures(K::hypot, (k, a, b), r) ==> r == hypotenuse(k, a, b)
    &&& forall|a: Real, r: Real| #[trigger]
        call_ensures(K::sqrt, (k, a), r) ==> r == root(k, a)
    &&& forall|a: Real, r: Real| #[trigger]
        call_ensures(K::sin, (k, a), r) ==> r == sine(k, a)
    &&& forall|a: Real, r: Real| #[trigger]
        call_ensures(K::cos, (k, a), r) ==> r == cosine(k, a)
    &&& forall|a: Real, r: Real| #[trigger]
        call_ensures(K::tan, (k, a), r) ==> r == tangent(k, a)
    &&& forall|a: Real, r: Real| #[trigger]
        call_ensures(K::radians, (k, a), r) ==> r == in_radians(k, a)
    &&& forall|a: Real, n: i32, r: Real| #[trigger]
        call_ensures(K::powi, (k, a, n), r) ==> r == whole_power(k, a, n)
}

/// The operations keep order, as rounding does: with finite operands no result
/// is a NaN, a larger operand gives no smaller sum and no smaller product with
/// what is not negative, and taking more away leaves no more.
pub open spec fn orderly<K: Arith>(k: &K) -> bool {
    &&& forall|a: Real, b: Real, c: Real|
        #![trigger sum(k, a, c), sum(k, b, c)]
        a.finite() && c.finite() && b.finite() && a.at_most(b) ==> sum(k, a, c).at_most(
            sum(k, b, c),
        )
    &&& forall|a: Real, b: Real, c: Real|
        #![trigger difference(k, c, a), difference(k, c, b)]
        a.finite() && b.finite() && c.finite() && a.at_most(b) ==> difference(k, c, b).at_most(
            difference(k, c, a),
        )
    &&& forall|a: Real, b: Real, c: Real|
        #![trigger product(k, a, c), product(k, b, c)]
        a.finite() && b.finite() && c.finite() && a.at_most(b) && num(ZERO).at_most(c)
            ==> product(k, a, c).at_most(product(k, b, c))
}

} // verus!
