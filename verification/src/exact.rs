//! Numbers as the values they stand for.
//!
//! How close results come to exact values is what the laws here are measured by. They
//! hold for every arithmetic that is [`accurate`]: each operation errs by a small share of
//! its exact result.

use vstd::prelude::*;
use vstd::arithmetic::div_mod::lemma_fundamental_div_mod_converse;
use vstd::arithmetic::power2::{lemma2_to64, lemma_pow2_adds, lemma_pow2_pos, pow2};
use crate::arith::{count_of, minus_of, over_of, plus_of, sqrt_of, square_of, times_of, Arith};
use crate::dsp::rounding::{lemma_sizes, unity};
use crate::numbers::{
    FIVE, FORTY, HALF, MINUS_HALF, MINUS_ONE, MINUS_TWO, ONE, ONE_BILLIONTH, ONE_MILLIONTH, ONE_TEN_THOUSANDTH,
    ONE_THOUSANDTH, SIX, TEN, TENTH, THIRTY_SIX, THOUSAND, THREE_TENTHS, TWELVE, TWENTY, TWENTY_THOUSAND, TWO, TWO_PI,
    ZERO,
};
use crate::single::{lemma_opposite, Single, FRACTION_SPAN};

verus! {

/// The value of a number.
pub open spec fn value(x: Single) -> real {
    x.steps() as real / unity() as real
}

/// A value without its sign.
pub open spec fn size(x: real) -> real {
    if x < 0real {
        -x
    } else {
        x
    }
}

/// A number of no more than a thousand million.
pub open spec fn usual(x: Single) -> bool {
    x.finite() && size(value(x)) <= 1_000_000_000real
}

/// The number `r` is `x`, but for a share of an eight-millionth and a trifle, and lies on
/// no other side of zero.
pub open spec fn close(r: Single, x: real) -> bool {
    &&& r.finite()
    &&& 8_000_000real * size(value(r) - x) <= size(x) + 1real / 1_000_000_000_000real
    &&& x >= 0real ==> value(r) >= 0real
    &&& x <= 0real ==> value(r) <= 0real
}

/// Sums, differences, products, quotients, squares and roots of `A` are close to the exact
/// ones, and counts are exact. A machine may take subnormal numbers as zero.
#[verifier::opaque]
pub open spec fn accurate<A: Arith>() -> bool {
    &&& forall|a: Single, b: Single, r: Single|
        usual(a) && usual(b) && #[trigger] plus_of::<A>(a, b, r) ==> close(r, value(a) + value(b))
    &&& forall|a: Single, b: Single, r: Single|
        usual(a) && usual(b) && #[trigger] minus_of::<A>(a, b, r) ==> close(r, value(a) - value(b))
    &&& forall|a: Single, b: Single, r: Single|
        usual(a) && usual(b) && #[trigger] times_of::<A>(a, b, r) ==> close(r, value(a) * value(b))
    &&& forall|a: Single, b: Single, r: Single|
        usual(a) && usual(b) && 1_000_000_000real * size(value(b)) >= 1real && #[trigger] over_of::<A>(a, b, r)
            ==> close(r, value(a) / value(b))
    &&& forall|a: Single, r: Single|
        usual(a) && #[trigger] square_of::<A>(a, r) ==> close(r, value(a) * value(a))
    &&& forall|a: Single, r: Single|
        usual(a) && value(a) >= 0real && #[trigger] sqrt_of::<A>(a, r) ==> r.finite() && value(r) >= 0real
            && 2_000_000real * size(value(r) * value(r) - value(a)) <= value(a) + 1real / 1_000_000_000_000real
    &&& forall|n: usize, r: Single|
        n <= 0x100_0000 && #[trigger] count_of::<A>(n, r) ==> r.finite() && value(r) == n as real
}

// ----- Values -----------------------------------------------------------------

/// Values are ordered as numbers are.
pub proof fn lemma_value_orders(a: Single, b: Single)
    ensures
        a.steps() <= b.steps() <==> value(a) <= value(b),
        a.steps() == 0 <==> value(a) == 0real,
{
    lemma_sizes();
    let u = unity() as real;
    let (x, y) = (a.steps() as real, b.steps() as real);
    assert(u > 0real);
    assert((x <= y) == (a.steps() <= b.steps()));
    assert((x / u <= y / u) == (x <= y)) by (nonlinear_arith)
        requires
            u > 0real,
    ;
    assert((x / u == 0real) == (x == 0real)) by (nonlinear_arith)
        requires
            u > 0real,
    ;
}

/// The opposite of a number has the opposite value.
pub proof fn lemma_opposite_value(a: Single)
    ensures
        value(a.opposite()) == -value(a),
{
    lemma_sizes();
    lemma_opposite(a);
    let u = unity() as real;
    let (x, y) = (a.steps() as real, a.opposite().steps() as real);
    assert(y == -x);
    assert(y / u == -(x / u)) by (nonlinear_arith)
        requires
            u > 0real,
            y == -x,
    ;
}

/// A product of integers is the product of their values.
proof fn lemma_product_as_real(a: int, b: int)
    ensures
        (a * b) as real == a as real * b as real,
{
    assert((a * b) as real == a as real * b as real) by (nonlinear_arith);
}

/// The value of a number from one up.
proof fn lemma_large_value(x: Single, fraction: nat, j: nat, v: int)
    requires
        v == (fraction + 8_388_608) * pow2(j),
        x.unsigned() == FRACTION_SPAN * (127 + j) + fraction,
        fraction < FRACTION_SPAN,
        !x.negative(),
    ensures
        value(x) * 8_388_608real == v as real,
{
    lemma_sizes();
    lemma_fundamental_div_mod_converse(x.unsigned() as int, FRACTION_SPAN as int, (127 + j) as int, fraction as int);
    lemma_pow2_adds(126, j);
    lemma_pow2_pos(126);
    let (p, q) = (pow2(126) as int, pow2(j) as int);
    let m: int = fraction + FRACTION_SPAN;
    let s = x.steps();
    assert(s == m * (p * q));
    assert(s * 8_388_608 == (m * q) * unity()) by (nonlinear_arith)
        requires
            s == m * (p * q),
            unity() == 8_388_608 * p,
    ;
    let (t, u, k) = (s as real, unity() as real, (m * q) as real);
    assert(t * 8_388_608real == k * u) by {
        assert((s * 8_388_608) as real == t * 8_388_608real);
        lemma_product_as_real(m * q, unity());
    }
    assert(t / u * 8_388_608real == k) by (nonlinear_arith)
        requires
            u > 0real,
            t * 8_388_608real == k * u,
    ;
}

/// The value of a number below one.
proof fn lemma_little_value(x: Single, fraction: nat, j: nat, d: int)
    requires
        d == 8_388_608 * pow2(j),
        x.unsigned() == FRACTION_SPAN * (127 - j) + fraction,
        j < 100,
        fraction < FRACTION_SPAN,
        !x.negative(),
    ensures
        value(x) * d as real == (fraction + 8_388_608) as real,
{
    lemma_sizes();
    lemma_fundamental_div_mod_converse(x.unsigned() as int, FRACTION_SPAN as int, 127 - j, fraction as int);
    lemma_pow2_adds((126 - j) as nat, j);
    lemma_pow2_pos((126 - j) as nat);
    lemma_pow2_pos(j);
    let (p, q) = (pow2((126 - j) as nat) as int, pow2(j) as int);
    let m: int = fraction + FRACTION_SPAN;
    let s = x.steps();
    assert(s == m * p);
    assert((s * q) * 8_388_608 == m * unity()) by (nonlinear_arith)
        requires
            s == m * p,
            unity() == 8_388_608 * (p * q),
    ;
    let (t, u, k, w) = (s as real, unity() as real, m as real, q as real);
    assert(t * w * 8_388_608real == k * u) by {
        lemma_product_as_real(s, q);
        assert(((s * q) * 8_388_608) as real == (s * q) as real * 8_388_608real);
        lemma_product_as_real(m, unity());
    }
    let e = d as real;
    assert(e == 8_388_608real * w) by {
        assert((8_388_608 * q) as real == 8_388_608real * w);
    }
    assert(t / u * e == k) by (nonlinear_arith)
        requires
            u > 0real,
            t * w * 8_388_608real == k * u,
            e == 8_388_608real * w,
    ;
}

/// The values of the constants.
pub proof fn lemma_values()
    ensures
        value(Single(ZERO)) == 0real,
        value(Single(ONE)) == 1real,
        value(Single(TWO)) == 2real,
        value(Single(FIVE)) == 5real,
        value(Single(SIX)) == 6real,
        value(Single(TEN)) == 10real,
        value(Single(TWELVE)) == 12real,
        value(Single(TWENTY)) == 20real,
        value(Single(THIRTY_SIX)) == 36real,
        value(Single(FORTY)) == 40real,
        value(Single(THOUSAND)) == 1000real,
        value(Single(TWENTY_THOUSAND)) == 20_000real,
        2real * value(Single(HALF)) == 1real,
        value(Single(MINUS_ONE)) == -1real,
        value(Single(MINUS_TWO)) == -2real,
        2real * value(Single(MINUS_HALF)) == -1real,
        6_283_185real < 1_000_000real * value(Single(TWO_PI)) < 6_283_186real,
        99_999_990real < 1_000_000_000real * value(Single(TENTH)) < 100_000_010real,
        299_999_990real < 1_000_000_000real * value(Single(THREE_TENTHS)) < 300_000_020real,
        99_999real < 1_000_000_000real * value(Single(ONE_TEN_THOUSANDTH)) < 100_001real,
        999_999real < 1_000_000_000real * value(Single(ONE_THOUSANDTH)) < 1_000_001real,
        999real < 1_000_000_000real * value(Single(ONE_MILLIONTH)) < 1001real,
        9_999real < 10_000_000_000_000real * value(Single(ONE_BILLIONTH)) < 10_001real,
{
    lemma2_to64();
    lemma_value_orders(Single(ZERO), Single(ZERO));
    lemma_large_value(Single(ONE), 0, 0, 0x800000);
    lemma_large_value(Single(TWO), 0, 1, 0x1000000);
    lemma_large_value(Single(FIVE), 0x20_0000, 2, 0x2800000);
    lemma_large_value(Single(SIX), 0x40_0000, 2, 0x3000000);
    lemma_large_value(Single(TEN), 0x20_0000, 3, 0x5000000);
    lemma_large_value(Single(TWELVE), 0x40_0000, 3, 0x6000000);
    lemma_large_value(Single(TWENTY), 0x20_0000, 4, 0xa000000);
    lemma_large_value(Single(THIRTY_SIX), 0x10_0000, 5, 0x12000000);
    lemma_large_value(Single(FORTY), 0x20_0000, 5, 0x14000000);
    lemma_large_value(Single(THOUSAND), 0x7a_0000, 9, 0x1f4000000);
    lemma_large_value(Single(TWENTY_THOUSAND), 0x1c_4000, 14, 0x2710000000);
    lemma_large_value(Single(TWO_PI), 0x49_0fdb, 2, 0x3243f6c);
    lemma_little_value(Single(HALF), 0, 1, 0x1000000);
    lemma_little_value(Single(TENTH), 0x4c_cccd, 4, 0x8000000);
    lemma_little_value(Single(THREE_TENTHS), 0x19_999a, 2, 0x2000000);
    lemma_little_value(Single(ONE_TEN_THOUSANDTH), 0x51_b717, 14, 0x2000000000);
    lemma_little_value(Single(ONE_THOUSANDTH), 0x03_126f, 10, 0x200000000);
    lemma_little_value(Single(ONE_MILLIONTH), 0x06_37bd, 20, 0x80000000000);
    lemma_little_value(Single(ONE_BILLIONTH), 0x09_705f, 30, 0x20000000000000);
    lemma_opposite_value(Single(ONE));
    lemma_opposite_value(Single(TWO));
    lemma_opposite_value(Single(HALF));
    assert(Single(ONE).opposite() == Single(MINUS_ONE));
    assert(Single(TWO).opposite() == Single(MINUS_TWO));
    assert(Single(HALF).opposite() == Single(MINUS_HALF));
}

// ----- Errors -----------------------------------------------------------------

/// An error of a factor is scaled by the other factor.
pub proof fn lemma_error_scales(a: real, x: real, y: real, e: real)
    requires
        size(x - y) <= e,
    ensures
        size(a * x - a * y) <= size(a) * e,
        size(x * a - y * a) <= size(a) * e,
{
    assert(a * x - a * y == a * (x - y) && x * a - y * a == a * (x - y)) by (nonlinear_arith);
    let d = x - y;
    assert(size(a * d) == size(a) * size(d)) by (nonlinear_arith);
    assert(size(a) * size(d) <= size(a) * e) by (nonlinear_arith)
        requires
            size(a) >= 0real,
            size(d) <= e,
    ;
}

/// A product is no larger than the bounds of its factors allow.
pub proof fn lemma_product_size(a: real, b: real, p: real, q: real)
    requires
        size(a) <= p,
        size(b) <= q,
    ensures
        size(a * b) <= p * q,
        size(a * b) == size(a) * size(b),
{
    assert(size(a * b) == size(a) * size(b)) by (nonlinear_arith);
    assert(size(a) * size(b) <= p * q) by (nonlinear_arith)
        requires
            0real <= size(a) <= p,
            0real <= size(b) <= q,
    ;
}

/// A quotient times its divisor is what was divided.
pub proof fn lemma_quotient(a: real, b: real)
    requires
        b != 0real,
    ensures
        a / b * b == a,
        size(a / b) * size(b) == size(a),
{
    assert(a / b * b == a) by (nonlinear_arith)
        requires
            b != 0real,
    ;
    lemma_product_size(a / b, b, size(a / b), size(b));
}

/// A computed sum is close to the exact one.
pub proof fn lemma_sum_is_close<A: Arith>(a: Single, b: Single, r: Single)
    requires
        accurate::<A>(),
        usual(a),
        usual(b),
        plus_of::<A>(a, b, r),
    ensures
        close(r, value(a) + value(b)),
{
    reveal(accurate);
}

/// A computed difference is close to the exact one.
pub proof fn lemma_difference_is_close<A: Arith>(a: Single, b: Single, r: Single)
    requires
        accurate::<A>(),
        usual(a),
        usual(b),
        minus_of::<A>(a, b, r),
    ensures
        close(r, value(a) - value(b)),
{
    reveal(accurate);
}

/// A computed product is close to the exact one.
pub proof fn lemma_product_is_close<A: Arith>(a: Single, b: Single, r: Single)
    requires
        accurate::<A>(),
        usual(a),
        usual(b),
        times_of::<A>(a, b, r),
    ensures
        close(r, value(a) * value(b)),
{
    reveal(accurate);
}

/// A computed quotient is close to the exact one.
pub proof fn lemma_quotient_is_close<A: Arith>(a: Single, b: Single, r: Single)
    requires
        accurate::<A>(),
        usual(a),
        usual(b),
        1_000_000_000real * size(value(b)) >= 1real,
        over_of::<A>(a, b, r),
    ensures
        close(r, value(a) / value(b)),
{
    reveal(accurate);
}

/// The square of a computed root is close to what the root was taken of.
pub proof fn lemma_root_is_close<A: Arith>(a: Single, r: Single)
    requires
        accurate::<A>(),
        usual(a),
        value(a) >= 0real,
        sqrt_of::<A>(a, r),
    ensures
        r.finite(),
        value(r) >= 0real,
        2_000_000real * size(value(r) * value(r) - value(a)) <= value(a) + 1real / 1_000_000_000_000real,
{
    reveal(accurate);
}

/// Counts are exact.
pub proof fn lemma_count_is_exact<A: Arith>(n: usize, r: Single)
    requires
        accurate::<A>(),
        n <= 0x100_0000,
        count_of::<A>(n, r),
    ensures
        r.finite(),
        value(r) == n as real,
{
    reveal(accurate);
}

/// A computed quotient times its divisor is close to what was divided.
pub proof fn lemma_over<A: Arith>(a: Single, b: Single, r: Single)
    requires
        accurate::<A>(),
        usual(a),
        usual(b),
        1_000_000_000real * size(value(b)) >= 1real,
        over_of::<A>(a, b, r),
    ensures
        r.finite(),
        8_000_000real * size(value(r) * value(b) - value(a)) <= size(value(a)) + size(value(b)) / 1_000_000_000_000real,
{
    let (x, y, z) = (value(a), value(b), value(r));
    lemma_quotient_is_close::<A>(a, b, r);
    lemma_quotient(x, y);
    let d = z - x / y;
    assert(z * y - x == d * y) by (nonlinear_arith)
        requires
            d == z - x / y,
            x / y * y == x,
    ;
    lemma_product_size(d, y, size(d), size(y));
    let e = size(x / y) + 1real / 1_000_000_000_000real;
    assert(8_000_000real * size(d) <= e);
    assert(8_000_000real * (size(d) * size(y)) <= e * size(y)) by (nonlinear_arith)
        requires
            8_000_000real * size(d) <= e,
            size(y) >= 0real,
    ;
    assert(e * size(y) == size(x) + size(y) / 1_000_000_000_000real) by (nonlinear_arith)
        requires
            e == size(x / y) + 1real / 1_000_000_000_000real,
            size(x / y) * size(y) == size(x),
    ;
}

/// What is bounded after a product with a positive value is bounded before.
pub proof fn lemma_divided(x: real, d: real, k: real)
    requires
        d > 0real,
        size(x * d) <= k * d,
    ensures
        size(x) <= k,
{
    assert(size(x) <= k) by (nonlinear_arith)
        requires
            d > 0real,
            size(x * d) <= k * d,
    ;
}

/// Products by one factor are ordered as the other factors are.
pub proof fn lemma_product_rises(a: real, b: real, c: real)
    requires
        a <= b,
        c >= 0real,
    ensures
        a * c <= b * c,
        c * a <= c * b,
{
    let d = b - a;
    assert(d * c >= 0real) by (nonlinear_arith)
        requires
            d >= 0real,
            c >= 0real,
    ;
    assert(b * c - a * c == d * c && c * b - c * a == d * c) by (nonlinear_arith)
        requires
            d == b - a,
    ;
}

/// A product of positive values is positive.
pub proof fn lemma_product_is_positive(a: real, b: real)
    requires
        a > 0real,
        b > 0real,
    ensures
        a * b > 0real,
{
    assert(a * b > 0real) by (nonlinear_arith)
        requires
            a > 0real,
            b > 0real,
    ;
}

/// Products may be grouped in any way.
pub proof fn lemma_product_groups(a: real, b: real, c: real)
    ensures
        a * b * c == a * (b * c),
        a * b == b * a,
        a * c + b * c == (a + b) * c,
        a * c - b * c == (a - b) * c,
        c * a + c * b == c * (a + b),
        c * a - c * b == c * (a - b),
{
    assert(a * b * c == a * (b * c)) by (nonlinear_arith);
    assert(a * b == b * a) by (nonlinear_arith);
    assert(a * c + b * c == (a + b) * c) by (nonlinear_arith);
    assert(a * c - b * c == (a - b) * c) by (nonlinear_arith);
    assert(c * a + c * b == c * (a + b)) by (nonlinear_arith);
    assert(c * a - c * b == c * (a - b)) by (nonlinear_arith);
}

/// How products go over sums.
pub proof fn lemma_spread(k: real, x: real, y: real, z: real)
    ensures
        k * (x + y) == k * x + k * y,
        k * (x - y) == k * x - k * y,
        (x + y) * k == k * x + k * y,
        (x + y + z) * k == x * k + y * k + z * k,
        (-x) * k == -(x * k),
        k * (2real * x) == 2real * (k * x),
        k * (x / 2real) == k * x / 2real,
        k * x == x * k,
{
    assert(k * (x + y) == k * x + k * y) by (nonlinear_arith);
    assert(k * (x - y) == k * x - k * y) by (nonlinear_arith);
    assert((x + y) * k == k * x + k * y) by (nonlinear_arith);
    assert((x + y + z) * k == x * k + y * k + z * k) by (nonlinear_arith);
    assert((-x) * k == -(x * k)) by (nonlinear_arith);
    assert(k * (2real * x) == 2real * (k * x)) by (nonlinear_arith);
    assert(k * (x / 2real) == k * x / 2real) by (nonlinear_arith);
    assert(k * x == x * k) by (nonlinear_arith);
}

} // verus!
