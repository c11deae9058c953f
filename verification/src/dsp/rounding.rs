//! What rounding does to a result.
//!
//! Values are counted in steps of the finest spacing, so sums are exact integers
//! here. A machine rounds each of them to a number next to it.

use vstd::prelude::*;
use vstd::arithmetic::div_mod::{lemma_fundamental_div_mod, lemma_fundamental_div_mod_converse};
use vstd::arithmetic::power2::{
    lemma2_to64, lemma_pow2_adds, lemma_pow2_pos, lemma_pow2_strictly_increases, lemma_pow2_unfold, pow2,
};
use crate::arith::{minus_of, over_of, plus_of, square_of, times_of, Arith};
use crate::numbers::{
    HALF, ONE, ONE_MILLIONTH, ONE_TEN_THOUSANDTH, QUARTER, THIRTY_SIX, THOUSAND, THREE_QUARTERS, TWELVE, TWENTY, TWO,
    ZERO,
};
use crate::single::{lemma_is_a_number, lemma_magnitude_orders, lemma_opposite, Single, FRACTION_SPAN};

verus! {

/// How far two values lie apart.
pub open spec fn apart(a: int, b: int) -> int {
    if a < b {
        b - a
    } else {
        a - b
    }
}

/// How large the values are that the laws on rounding speak of, `4096`.
pub const ROUNDING_LIMIT: u32 = 0x4580_0000;

/// A value no larger than [`ROUNDING_LIMIT`].
pub open spec fn small(exact: int) -> bool {
    -Single(ROUNDING_LIMIT).steps() <= exact <= Single(ROUNDING_LIMIT).steps()
}

/// A number too small for full precision.
pub open spec fn subnormal(x: Single) -> bool {
    x.exponent() == 0 && x.fraction() != 0
}

/// What `x` counts for on a machine that takes subnormal numbers as zero where
/// `flushed` says so.
pub open spec fn counts(x: Single, flushed: bool) -> int {
    if flushed && subnormal(x) {
        0
    } else {
        x.steps()
    }
}

/// `r` is what the value `exact` is rounded to: no number lies nearer. What is
/// smaller than every number of full precision may go to zero.
pub open spec fn rounds_to(exact: int, r: Single) -> bool {
    &&& r.finite()
    &&& {
        ||| forall|m: Single|
            m.finite() ==> apart(r.steps(), exact) <= apart(#[trigger] m.steps(), exact)
        ||| apart(exact, 0) < FRACTION_SPAN && r.steps() == 0
    }
}

/// The value 1 in steps.
pub open spec fn unity() -> int {
    Single(ONE).steps()
}

/// `r` is what the quotient of `num` and `den` is rounded to.
pub open spec fn rounds_ratio(num: int, den: int, r: Single) -> bool {
    &&& r.finite()
    &&& {
        ||| forall|m: Single|
            m.finite() ==> apart(r.steps() * den, num) <= apart(#[trigger] m.steps() * den, num)
        ||| apart(num, 0) < FRACTION_SPAN * den && r.steps() == 0
    }
}

/// `r` is what the value `exact`, counted in steps of steps, is rounded to.
pub open spec fn rounds_product(exact: int, r: Single) -> bool {
    rounds_ratio(exact, unity(), r)
}

/// A product no larger than [`ROUNDING_LIMIT`].
pub open spec fn small_product(exact: int) -> bool {
    apart(exact, 0) <= Single(ROUNDING_LIMIT).steps() * unity()
}

/// A quotient no larger than [`ROUNDING_LIMIT`].
pub open spec fn small_ratio(num: int, den: int) -> bool {
    apart(num, 0) <= Single(ROUNDING_LIMIT).steps() * den
}

/// `A` rounds sums, differences, products, squares and quotients of moderate size.
pub open spec fn rounds<A: Arith>(flushed: bool) -> bool {
    &&& forall|a: Single, b: Single, r: Single|
        a.finite() && b.finite() && small(counts(a, flushed) + counts(b, flushed)) && #[trigger] plus_of::<A>(
            a,
            b,
            r,
        ) ==> rounds_to(counts(a, flushed) + counts(b, flushed), r)
    &&& forall|a: Single, b: Single, r: Single|
        a.finite() && b.finite() && small(counts(a, flushed) - counts(b, flushed)) && #[trigger] minus_of::<A>(
            a,
            b,
            r,
        ) ==> rounds_to(counts(a, flushed) - counts(b, flushed), r)
    &&& forall|a: Single, b: Single, r: Single|
        a.finite() && b.finite() && small_product(counts(a, flushed) * counts(b, flushed))
            && #[trigger] times_of::<A>(a, b, r) ==> rounds_product(counts(a, flushed) * counts(b, flushed), r)
    &&& forall|a: Single, r: Single|
        a.finite() && small_product(counts(a, flushed) * counts(a, flushed)) && #[trigger] square_of::<A>(a, r)
            ==> rounds_product(counts(a, flushed) * counts(a, flushed), r)
    &&& forall|a: Single, b: Single, r: Single|
        a.finite() && b.finite() && Single(ZERO).below(b) && !subnormal(b) && small_ratio(
            counts(a, flushed) * unity(),
            b.steps(),
        ) && #[trigger] over_of::<A>(a, b, r) ==> rounds_ratio(counts(a, flushed) * unity(), b.steps(), r)
}

// ----- The constants ----------------------------------------------------------

/// A number of full precision is at least as large as the smallest of them.
pub proof fn lemma_full_precision(x: Single)
    requires
        !subnormal(x),
        x.steps() != 0,
    ensures
        x.magnitude() >= FRACTION_SPAN,
{
    let span = FRACTION_SPAN as nat;
    if x.exponent() > 0 {
        let p = pow2((x.exponent() - 1) as nat);
        lemma_pow2_pos((x.exponent() - 1) as nat);
        assert((x.fraction() + span) * p >= span) by (nonlinear_arith)
            requires
                p >= 1,
                x.fraction() >= 0,
                span >= 0,
        ;
    }
}

/// No number at least as large as a millionth is subnormal.
pub proof fn lemma_not_subnormal(x: Single)
    requires
        !x.nan(),
        x.steps() >= Single(ONE_MILLIONTH).steps() || x.steps() <= -Single(ONE_MILLIONTH).steps(),
    ensures
        !subnormal(x),
        forall|flushed: bool| #[trigger] counts(x, flushed) == x.steps(),
{
    lemma_magnitude_orders(x, Single(ONE_MILLIONTH));
    lemma_magnitude_orders(Single(ZERO), Single(ONE_MILLIONTH));
    if subnormal(x) {
        lemma_fundamental_div_mod(x.unsigned() as int, FRACTION_SPAN as int);
        assert(x.unsigned() < FRACTION_SPAN);
    }
}

/// What a number counts for lies between zero and the number.
pub proof fn lemma_counts(x: Single, flushed: bool)
    ensures
        x.steps() >= 0 ==> 0 <= counts(x, flushed) <= x.steps(),
        x.steps() <= 0 ==> x.steps() <= counts(x, flushed) <= 0,
        apart(counts(x, flushed), x.steps()) < FRACTION_SPAN,
{
}

/// How the constants that proofs go by lie to each other.
pub proof fn lemma_sizes()
    ensures
        4 * Single(THOUSAND).steps() <= Single(ROUNDING_LIMIT).steps(),
        Single(ROUNDING_LIMIT).steps() == FRACTION_SPAN * pow2(138),
        Single(ROUNDING_LIMIT).finite(),
        512 * unity() <= Single(THOUSAND).steps(),
        0 < unity(),
        unity() == FRACTION_SPAN * pow2(126),
        2 * Single(HALF).steps() == unity(),
        2 * Single(QUARTER).steps() == Single(HALF).steps(),
        4 * Single(THREE_QUARTERS).steps() == 3 * unity(),
        Single(TWO).steps() == 2 * unity(),
        Single(TWELVE).steps() == 12 * unity(),
        Single(ZERO).steps() == 0,
        0 < Single(ONE_MILLIONTH).steps() < Single(ONE_TEN_THOUSANDTH).steps() < Single(QUARTER).steps(),
        64 * (FRACTION_SPAN * FRACTION_SPAN) < Single(ONE_MILLIONTH).steps(),
        Single(ONE).steps() <= Single(TWELVE).steps() <= Single(THIRTY_SIX).steps() <= Single(THOUSAND).steps(),
        Single(ONE).steps() <= Single(TWENTY).steps() <= Single(THOUSAND).steps(),
{
    let span = FRACTION_SPAN as int;
    let p = pow2(135) as int;
    lemma_pow2_pos(135);
    lemma_fundamental_div_mod_converse(THOUSAND as int, span, 136, 0x7a_0000);
    lemma_fundamental_div_mod_converse(ROUNDING_LIMIT as int, span, 139, 0);
    lemma_pow2_adds(9, 126);
    lemma2_to64();
    lemma_pow2_pos(126);
    assert((0x7a_0000 + span) * p >= 512 * (span * pow2(126))) by (nonlinear_arith)
        requires
            span == 0x80_0000,
            p == 512 * pow2(126),
            pow2(126) > 0,
    ;
    lemma_pow2_unfold(136);
    lemma_pow2_unfold(137);
    lemma_pow2_unfold(138);
    assert(4 * ((0x7a_0000 + span) * p) <= span * (8 * p)) by (nonlinear_arith)
        requires
            span == 0x80_0000,
            p > 0,
    ;
    lemma_pow2_unfold(129);
    lemma_pow2_unfold(128);
    lemma_pow2_unfold(127);
    lemma_pow2_unfold(126);
    lemma_pow2_unfold(125);
    let q = pow2(124) as int;
    lemma_pow2_pos(124);
    lemma_fundamental_div_mod_converse(QUARTER as int, span, 125, 0);
    lemma_fundamental_div_mod_converse(HALF as int, span, 126, 0);
    lemma_fundamental_div_mod_converse(THREE_QUARTERS as int, span, 126, 0x40_0000);
    lemma_fundamental_div_mod_converse(ONE as int, span, 127, 0);
    lemma_fundamental_div_mod_converse(TWO as int, span, 128, 0);
    lemma_fundamental_div_mod_converse(TWELVE as int, span, 130, 0x40_0000);
    assert(span * (2 * q) == 2 * (span * q) && span * (4 * q) == 4 * (span * q) && span * (8 * q) == 8 * (span
        * q) && 4 * ((0x40_0000 + span) * (2 * q)) == 3 * (span * (4 * q)) && (0x40_0000 + span) * (32 * q) == 12 * (
    span * (4 * q))) by (nonlinear_arith)
        requires
            span == 0x80_0000,
    ;
    lemma_magnitude_orders(Single(ZERO), Single(HALF));
    lemma_magnitude_orders(Single(ONE), Single(THOUSAND));
    lemma_magnitude_orders(Single(ZERO), Single(ONE));
    lemma_magnitude_orders(Single(ZERO), Single(ONE_MILLIONTH));
    lemma_magnitude_orders(Single(ONE_MILLIONTH), Single(ONE_TEN_THOUSANDTH));
    lemma_magnitude_orders(Single(ONE_TEN_THOUSANDTH), Single(QUARTER));
    lemma_magnitude_orders(Single(ONE), Single(TWELVE));
    lemma_magnitude_orders(Single(TWELVE), Single(THIRTY_SIX));
    lemma_magnitude_orders(Single(THIRTY_SIX), Single(THOUSAND));
    lemma_magnitude_orders(Single(ONE), Single(TWENTY));
    lemma_magnitude_orders(Single(TWENTY), Single(THOUSAND));
    lemma_fundamental_div_mod_converse(ONE_MILLIONTH as int, span, 107, 0x06_37bd);
    lemma_pow2_strictly_increases(30, 106);
    lemma2_to64();
    assert((0x06_37bd + span) * pow2(106) > 64 * (span * span)) by (nonlinear_arith)
        requires
            span == 0x80_0000,
            pow2(106) > 0x4000_0000,
    ;
}

// ----- What rounding does -----------------------------------------------------

/// Rounding goes past no number on its way up.
pub proof fn lemma_no_jump_up(exact: int, r: Single, m: Single)
    requires
        rounds_to(exact, r),
        m.finite(),
        exact <= m.steps(),
        m.steps() >= 0 || m.steps() <= -(FRACTION_SPAN as int),
    ensures
        r.steps() <= m.steps(),
{
}

/// Rounding goes past no number on its way down.
pub proof fn lemma_no_jump_down(exact: int, r: Single, m: Single)
    requires
        rounds_to(exact, r),
        m.finite(),
        exact >= m.steps(),
        m.steps() <= 0 || m.steps() >= FRACTION_SPAN,
    ensures
        r.steps() >= m.steps(),
{
}

/// Rounding keeps the sign of a value, and goes past no number.
pub proof fn lemma_rounding_stays(exact: int, r: Single, bound: Single)
    requires
        rounds_to(exact, r),
        bound.finite(),
        -bound.steps() <= exact <= bound.steps(),
    ensures
        -bound.steps() <= r.steps() <= bound.steps(),
        exact >= 0 ==> r.steps() >= 0,
        exact <= 0 ==> r.steps() <= 0,
{
    lemma_opposite(bound);
    assert(bound.opposite().finite());
    assert(apart(bound.steps(), exact) >= 0);
    assert(apart(bound.opposite().steps(), exact) >= 0);
    assert(Single(ZERO).finite() && Single(ZERO).steps() == 0);
}

/// The leading 24 bits of a value.
proof fn lemma_leading_bits(x: nat) -> (bits: (nat, nat))
    ensures
        bits.0 < 2 * FRACTION_SPAN,
        bits.0 * pow2(bits.1) <= x < (bits.0 + 1) * pow2(bits.1),
        bits.1 > 0 ==> bits.0 >= FRACTION_SPAN,
    decreases x,
{
    if x < 2 * FRACTION_SPAN {
        lemma2_to64();
        assert(x * pow2(0) == x && (x + 1) * pow2(0) == x + 1) by (nonlinear_arith)
            requires
                pow2(0) == 1,
        ;
        (x, 0)
    } else {
        let (k, j) = lemma_leading_bits(x / 2);
        lemma_pow2_unfold(j + 1);
        let p = pow2(j);
        assert(k * (2 * p) <= x < (k + 1) * (2 * p)) by (nonlinear_arith)
            requires
                k * p <= x / 2,
                x / 2 < (k + 1) * p,
        ;
        if j == 0 {
            lemma2_to64();
            assert(k >= FRACTION_SPAN) by (nonlinear_arith)
                requires
                    x / 2 < (k + 1) * p,
                    p == 1,
                    x >= 2 * FRACTION_SPAN,
            ;
        }
        (k, j + 1)
    }
}

/// The number next to a value, towards zero.
pub proof fn lemma_truncated(x: nat) -> (m: Single)
    requires
        x < FRACTION_SPAN * pow2(190),
    ensures
        m.finite(),
        0 <= m.steps() <= x,
        FRACTION_SPAN * (x - m.steps()) <= x,
{
    let (k, j) = lemma_leading_bits(x);
    let span = FRACTION_SPAN as nat;
    let p = pow2(j);
    lemma_pow2_pos(j);
    if j >= 190 {
        if j > 190 {
            lemma_pow2_strictly_increases(190, j);
        }
        assert(k * p >= span * pow2(190)) by (nonlinear_arith)
            requires
                k >= span,
                p >= pow2(190),
        ;
    }
    let m = lemma_is_a_number(k, j);
    assert(0 <= k * p) by (nonlinear_arith);
    if j == 0 {
        lemma2_to64();
        assert(k * p == x) by (nonlinear_arith)
            requires
                k * p <= x,
                x < (k + 1) * p,
                p == 1,
        ;
    } else {
        assert(span * (x - k * p) <= x) by (nonlinear_arith)
            requires
                k >= span,
                k * p <= x,
                x < (k + 1) * p,
                p > 0,
        ;
    }
    m
}

/// Rounding moves a value by little: by no more than a small share of it, and a
/// trifle.
pub proof fn lemma_rounding_error(exact: int, r: Single)
    requires
        rounds_to(exact, r),
        small(exact),
    ensures
        FRACTION_SPAN * apart(r.steps(), exact) <= apart(exact, 0) + FRACTION_SPAN * FRACTION_SPAN,
{
    lemma_sizes();
    lemma_pow2_strictly_increases(138, 190);
    let span = FRACTION_SPAN as int;
    let size = apart(exact, 0) as nat;
    assert(size < span * pow2(190)) by (nonlinear_arith)
        requires
            size <= span * pow2(138),
            pow2(138) < pow2(190),
            span > 0,
    ;
    let m = lemma_truncated(size);
    lemma_opposite(m);
    assert(m.opposite().finite());
    if exact >= 0 {
        assert(apart(m.steps(), exact) == exact - m.steps());
    } else {
        assert(apart(m.opposite().steps(), exact) == -exact - m.steps());
    }
    assert(span * apart(r.steps(), exact) <= size + span * span) by (nonlinear_arith)
        requires
            span * (size - m.steps()) <= size,
            apart(r.steps(), exact) <= size - m.steps() || apart(r.steps(), exact) < span,
            span > 0,
            size >= 0,
    ;
}

/// Rounding moves a product by as little.
pub proof fn lemma_product_error(exact: int, r: Single)
    requires
        rounds_product(exact, r),
        small_product(exact),
    ensures
        FRACTION_SPAN * apart(r.steps() * unity(), exact) <= apart(exact, 0) + FRACTION_SPAN * FRACTION_SPAN
            * unity(),
{
    lemma_sizes();
    lemma_ratio_error(exact, unity(), r);
}

/// Rounding moves a quotient by as little.
pub proof fn lemma_ratio_error(exact: int, u: int, r: Single)
    requires
        rounds_ratio(exact, u, r),
        small_ratio(exact, u),
        u > 0,
    ensures
        FRACTION_SPAN * apart(r.steps() * u, exact) <= apart(exact, 0) + FRACTION_SPAN * FRACTION_SPAN * u,
{
    lemma_sizes();
    lemma_pow2_strictly_increases(138, 190);
    let span = FRACTION_SPAN as int;
    let size = apart(exact, 0);
    let y = size / u;
    lemma_fundamental_div_mod(size, u);
    let limit = Single(ROUNDING_LIMIT).steps();
    assert(0 <= y <= limit) by (nonlinear_arith)
        requires
            size == u * y + size % u,
            0 <= size % u < u,
            0 <= size <= limit * u,
            u > 0,
    ;
    assert(y < span * pow2(190)) by (nonlinear_arith)
        requires
            y <= span * pow2(138),
            pow2(138) < pow2(190),
            span > 0,
    ;
    let m = lemma_truncated(y as nat);
    lemma_opposite(m);
    assert(m.opposite().finite());
    let s = m.steps();
    assert(m.opposite().steps() * u == -(s * u)) by (nonlinear_arith)
        requires
            m.opposite().steps() == -s,
    ;
    assert(s * u <= size && span * (size - s * u) <= size + span * u) by (nonlinear_arith)
        requires
            size == u * y + size % u,
            0 <= size % u < u,
            0 <= s <= y,
            span * (y - s) <= y,
            span > 0,
            u > 0,
    ;
    if exact >= 0 {
        assert(apart(m.steps() * u, exact) == size - s * u);
    } else {
        assert(apart(m.opposite().steps() * u, exact) == size - s * u);
    }
    let e = apart(r.steps() * u, exact);
    assert(span * u <= span * span * u) by (nonlinear_arith)
        requires
            span >= 1,
            u > 0,
    ;
    if r.steps() == 0 && size < span * u {
        assert(0 * u == 0) by (nonlinear_arith);
        assert(e == size);
        assert(span * e <= span * span * u) by (nonlinear_arith)
            requires
                e < span * u,
                span > 0,
        ;
    } else {
        assert(e <= size - s * u);
        assert(span * e <= span * (size - s * u)) by (nonlinear_arith)
            requires
                e <= size - s * u,
                span > 0,
        ;
    }
}

/// Rounding a product goes past no number.
pub proof fn lemma_product_stays(exact: int, r: Single, bound: Single)
    requires
        rounds_product(exact, r),
        bound.finite(),
        -bound.steps() * unity() <= exact <= bound.steps() * unity(),
    ensures
        -bound.steps() <= r.steps() <= bound.steps(),
        exact >= 0 ==> r.steps() >= 0,
        exact <= 0 ==> r.steps() <= 0,
{
    lemma_sizes();
    let u = unity();
    let (x, b) = (r.steps(), bound.steps());
    lemma_opposite(bound);
    assert(bound.opposite().finite());
    assert(Single(ZERO).finite() && Single(ZERO).steps() * u == 0) by (nonlinear_arith)
        requires
            Single(ZERO).steps() == 0,
            Single(ZERO).finite(),
    ;
    assert(bound.opposite().steps() * u == -b * u) by (nonlinear_arith)
        requires
            bound.opposite().steps() == -b,
    ;
    assert(-b * u == -(b * u)) by (nonlinear_arith);
    assert(b >= 0) by (nonlinear_arith)
        requires
            -b * u <= b * u,
            u > 0,
    ;
    if r.steps() == 0 {
    } else {
        assert(apart(x * u, exact) <= apart(b * u, exact));
        assert(apart(x * u, exact) <= apart(-b * u, exact));
        assert(apart(x * u, exact) <= apart(0, exact));
        assert(-b <= x <= b && (exact >= 0 ==> x >= 0) && (exact <= 0 ==> x <= 0)) by (nonlinear_arith)
            requires
                u > 0,
                b >= 0,
                -b * u <= exact <= b * u,
                x * u - exact <= b * u - exact || x * u <= exact,
                exact - x * u <= exact + b * u || x * u >= exact,
                exact >= 0 ==> (exact - x * u <= exact || x * u >= exact),
                exact <= 0 ==> (x * u - exact <= -exact || x * u <= exact),
        ;
    }
}

/// A product with zero is zero.
pub proof fn lemma_zero_product<A: Arith>(a: Single, b: Single, r: Single, flushed: bool)
    requires
        rounds::<A>(flushed),
        a.finite(),
        b.finite(),
        a.steps() == 0 || b.steps() == 0,
        times_of::<A>(a, b, r),
    ensures
        r.finite(),
        r.steps() == 0,
{
    lemma_sizes();
    lemma_counts(a, flushed);
    lemma_counts(b, flushed);
    let exact = counts(a, flushed) * counts(b, flushed);
    assert(exact == 0) by (nonlinear_arith)
        requires
            exact == counts(a, flushed) * counts(b, flushed),
            counts(a, flushed) == 0 || counts(b, flushed) == 0,
    ;
    assert(small_product(exact)) by {
        assert(0 <= Single(ROUNDING_LIMIT).steps() * unity()) by (nonlinear_arith)
            requires
                Single(ROUNDING_LIMIT).steps() >= 0,
                unity() > 0,
        ;
    }
    assert(0 * unity() == 0 && -0 * unity() == 0) by (nonlinear_arith);
    lemma_product_stays(exact, r, Single(ZERO));
}

} // verus!
