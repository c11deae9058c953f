//! Arithmetic on [`Single`] numbers.
//!
//! How a rounding operation rounds is a matter of the machine, so the library
//! asks an [`Arith`] for every result. A contract names the operations, their
//! operands and their order: `plus_of::<A>(a, b, r)` says that `r` is what `A`
//! may answer to `a + b`.

use vstd::prelude::*;
use crate::single::Single;

verus! {

/// The rounding operations of a machine.
pub trait Arith {
    /// `a + b`
    fn plus(a: Single, b: Single) -> Single;

    /// `a - b`
    fn minus(a: Single, b: Single) -> Single;

    /// `a * b`
    fn times(a: Single, b: Single) -> Single;

    /// `a / b`
    fn over(a: Single, b: Single) -> Single;

    /// `a` multiplied by itself
    fn square(a: Single) -> Single;

    /// The square root of `a`
    fn sqrt(a: Single) -> Single;

    /// `e` to the power `a`
    fn exp(a: Single) -> Single;

    /// The natural logarithm of `a`
    fn ln(a: Single) -> Single;

    /// The logarithm of `a` to base 2
    fn log2(a: Single) -> Single;

    /// The logarithm of `a` to base 10
    fn log10(a: Single) -> Single;

    /// `a` to the power `b`
    fn pow(a: Single, b: Single) -> Single;

    /// The sine of `a`
    fn sin(a: Single) -> Single;

    /// The cosine of `a`
    fn cos(a: Single) -> Single;

    /// The length of a vector with the parts `a` and `b`
    fn hypot(a: Single, b: Single) -> Single;

    /// The number nearest to the integer `n`
    fn of_count(n: usize) -> Single;

    /// Whether the machine already treats subnormal numbers as zero
    fn flushes() -> bool;
}

/// `r` is what the machine makes of `a + b`.
#[verifier::inline]
pub open spec fn plus_of<A: Arith>(a: Single, b: Single, r: Single) -> bool {
    call_ensures(A::plus, (a, b), r)
}

/// `r` is what the machine makes of `a - b`.
#[verifier::inline]
pub open spec fn minus_of<A: Arith>(a: Single, b: Single, r: Single) -> bool {
    call_ensures(A::minus, (a, b), r)
}

/// `r` is what the machine makes of `a * b`.
#[verifier::inline]
pub open spec fn times_of<A: Arith>(a: Single, b: Single, r: Single) -> bool {
    call_ensures(A::times, (a, b), r)
}

/// `r` is what the machine makes of `a / b`.
#[verifier::inline]
pub open spec fn over_of<A: Arith>(a: Single, b: Single, r: Single) -> bool {
    call_ensures(A::over, (a, b), r)
}

/// `r` is what the machine makes of the square of `a`.
#[verifier::inline]
pub open spec fn square_of<A: Arith>(a: Single, r: Single) -> bool {
    call_ensures(A::square, (a,), r)
}

/// `r` is what the machine makes of the square root of `a`.
#[verifier::inline]
pub open spec fn sqrt_of<A: Arith>(a: Single, r: Single) -> bool {
    call_ensures(A::sqrt, (a,), r)
}

/// `r` is what the machine makes of `e` to the power `a`.
#[verifier::inline]
pub open spec fn exp_of<A: Arith>(a: Single, r: Single) -> bool {
    call_ensures(A::exp, (a,), r)
}

/// `r` is what the machine makes of the natural logarithm of `a`.
#[verifier::inline]
pub open spec fn ln_of<A: Arith>(a: Single, r: Single) -> bool {
    call_ensures(A::ln, (a,), r)
}

/// `r` is what the machine makes of the logarithm of `a` to base 2.
#[verifier::inline]
pub open spec fn log2_of<A: Arith>(a: Single, r: Single) -> bool {
    call_ensures(A::log2, (a,), r)
}

/// `r` is what the machine makes of the logarithm of `a` to base 10.
#[verifier::inline]
pub open spec fn log10_of<A: Arith>(a: Single, r: Single) -> bool {
    call_ensures(A::log10, (a,), r)
}

/// `r` is what the machine makes of `a` to the power `b`.
#[verifier::inline]
pub open spec fn pow_of<A: Arith>(a: Single, b: Single, r: Single) -> bool {
    call_ensures(A::pow, (a, b), r)
}

/// `r` is what the machine makes of the sine of `a`.
#[verifier::inline]
pub open spec fn sin_of<A: Arith>(a: Single, r: Single) -> bool {
    call_ensures(A::sin, (a,), r)
}

/// `r` is what the machine makes of the cosine of `a`.
#[verifier::inline]
pub open spec fn cos_of<A: Arith>(a: Single, r: Single) -> bool {
    call_ensures(A::cos, (a,), r)
}

/// `r` is what the machine makes of the length of a vector with the parts `a` and `b`.
#[verifier::inline]
pub open spec fn hypot_of<A: Arith>(a: Single, b: Single, r: Single) -> bool {
    call_ensures(A::hypot, (a, b), r)
}

/// `r` is what the machine makes of the integer `n`.
#[verifier::inline]
pub open spec fn count_of<A: Arith>(n: usize, r: Single) -> bool {
    call_ensures(A::of_count, (n,), r)
}

/// `r` is whether the machine treats subnormal numbers as zero.
#[verifier::inline]
pub open spec fn flushes_of<A: Arith>(r: bool) -> bool {
    call_ensures(A::flushes, (), r)
}

} // verus!
