//! How the reduction goes by the selectivity.
//!
//! The laws here hold for every arithmetic that keeps the order of numbers, and
//! rounds to the nearest. The knee is compared with the curve that exact arithmetic
//! would draw.

use vstd::prelude::*;
use vstd::arithmetic::div_mod::lemma_fundamental_div_mod_converse;
use vstd::arithmetic::power2::{lemma2_to64, lemma_pow2_adds, lemma_pow2_unfold, pow2};
use crate::arith::{minus_of, over_of, plus_of, pow_of, square_of, times_of, Arith};
use crate::dsp::attenuation::{
    all_unit, downward, lemma_band_is_only_reduced, lemma_unit_is_finite, paced, unit, within,
};
use crate::dsp::determinism::{lemma_coef, lemma_glide, lemma_scale, lemma_step_parts, repeats, same};
use crate::dsp::detector::{
    attenuation_of, band_step_of, frame_terms_of, glide_of, knee_of, lemma_detector_is_whole, median, reduction_of,
    window, BandStep, DetectParams, Detector, FrameTerms, HARD_KNEE_DB, SOFT_KNEE_DB,
};
use crate::dsp::monotony::{
    amount, excess_of, lemma_counts_rise, lemma_half, lemma_knee_half, lemma_knees, lemma_reduction_parts,
    lemma_slope_rises, lemma_sum, lemma_thousand, moderate, monotone, parabola_of, slope_of, usual_knee,
};
use crate::dsp::response::{
    all_moderate, asks_for_no_less, lasting, lemma_baseline_stays_moderate, lemma_follow_parts,
    lemma_follows_lower, lemma_frame_of_band, lemma_glide_parts, lemma_median_is_moderate,
    lemma_threshold_is_moderate, lemma_unit_is_moderate,
};
use crate::dsp::rounding::{
    apart, counts, lemma_counts, lemma_no_jump_down, lemma_no_jump_up, lemma_not_subnormal, lemma_product_error,
    lemma_ratio_error, lemma_rounding_error, lemma_rounding_stays, lemma_sizes, rounds, rounds_product,
    rounds_ratio, rounds_to, subnormal, unity, ROUNDING_LIMIT,
};
use crate::dsp::shaping::{lemma_deeper_nodes_shape_no_less, lemma_node_shape_is_unit};
use crate::dsp::BANDS;
use crate::numbers::{FIVE, HALF, ONE, QUARTER, TEN, THIRTY_SIX, THOUSAND, TWELVE, TWENTY, TWO, ZERO};
use crate::single::{lemma_is_a_number, lemma_magnitude_orders, lemma_opposite, Single, FRACTION_SPAN};

verus! {

// ----- The exact curve --------------------------------------------------------

/// The reduction at `x` over the threshold on a knee of slope `k` that is `h` wide to
/// each side, times `4 * h` and the value of one.
spec fn curve(x: int, k: int, h: int) -> int {
    if x <= -h {
        0
    } else if h <= x {
        4 * h * (k * x)
    } else {
        k * ((x + h) * (x + h))
    }
}

/// The curve is no steeper than its line.
proof fn lemma_curve_is_gentle(x: int, y: int, k: int, h: int, d: int)
    requires
        0 <= k,
        0 < h,
        0 <= d,
        x <= y + d,
    ensures
        curve(x, k, h) <= curve(y, k, h) + 4 * h * (k * d),
{
    let kd = k * d;
    assert(0 <= kd) by (nonlinear_arith)
        requires
            kd == k * d,
            0 <= k,
            0 <= d,
    ;
    assert(0 <= h * kd) by (nonlinear_arith)
        requires
            0 <= kd,
            0 < h,
    ;
    assert(4 * h * kd == 4 * (h * kd)) by (nonlinear_arith);
    if x <= -h {
        if h <= y {
            assert(0 <= 4 * h * (k * y)) by (nonlinear_arith)
                requires
                    0 <= k,
                    0 < h <= y,
            ;
        } else if -h < y {
            assert(0 <= k * ((y + h) * (y + h))) by (nonlinear_arith)
                requires
                    0 <= k,
            ;
        }
    } else if h <= x {
        if h <= y {
            assert(4 * h * (k * x) <= 4 * h * (k * y) + 4 * h * (k * d)) by (nonlinear_arith)
                requires
                    0 <= k,
                    0 < h,
                    x <= y + d,
            {
                assert(k * x <= k * y + k * d) by (nonlinear_arith)
                    requires
                        0 <= k,
                        x <= y + d,
                ;
            }
        } else if -h < y {
            assert((y + h) * (y + h) >= 4 * (h * y)) by (nonlinear_arith);
            assert(4 * h * (k * x) <= k * ((y + h) * (y + h)) + 4 * h * (k * d)) by (nonlinear_arith)
                requires
                    0 <= k,
                    0 < h,
                    x <= y + d,
                    (y + h) * (y + h) >= 4 * (h * y),
            {
                let s = (y + h) * (y + h);
                assert(k * s >= k * (4 * (h * y))) by (nonlinear_arith)
                    requires
                        0 <= k,
                        s >= 4 * (h * y),
                ;
                assert(k * (4 * (h * y)) == 4 * h * (k * y)) by (nonlinear_arith);
                assert(k * x <= k * y + k * d) by (nonlinear_arith)
                    requires
                        0 <= k,
                        x <= y + d,
                ;
                assert(h * (k * x) <= h * (k * y + k * d)) by (nonlinear_arith)
                    requires
                        0 < h,
                        k * x <= k * y + k * d,
                ;
            }
        } else {
            assert(k * x <= k * d) by (nonlinear_arith)
                requires
                    0 <= k,
                    x <= d,
            ;
            assert(4 * h * (k * x) <= 4 * h * (k * d)) by (nonlinear_arith)
                requires
                    0 < h,
                    k * x <= k * d,
            ;
        }
    } else {
        let a = x + h;
        assert(0 < a < 2 * h);
        if h <= y {
            assert(k * (a * a) <= 4 * h * (k * y)) by (nonlinear_arith)
                requires
                    0 <= k,
                    0 < a < 2 * h,
                    h <= y,
            {
                assert(a * a <= 4 * (h * h)) by (nonlinear_arith)
                    requires
                        0 < a < 2 * h,
                ;
                assert(h * h <= h * y) by (nonlinear_arith)
                    requires
                        0 < h <= y,
                ;
                assert(k * (a * a) <= k * (4 * (h * y))) by (nonlinear_arith)
                    requires
                        0 <= k,
                        a * a <= 4 * (h * y),
                ;
                assert(k * (4 * (h * y)) == 4 * h * (k * y)) by (nonlinear_arith);
            }
        } else if -h < y {
            let b = y + h;
            assert(0 < b < 2 * h);
            assert(a * a <= b * b + 4 * (h * d)) by (nonlinear_arith)
                requires
                    0 < a < 2 * h,
                    0 < b < 2 * h,
                    a <= b + d,
                    0 <= d,
            {
                if a <= b {
                    assert(a * a <= b * b) by (nonlinear_arith)
                        requires
                            0 < a <= b,
                    ;
                    assert(0 <= h * d) by (nonlinear_arith)
                        requires
                            0 < h,
                            0 <= d,
                    ;
                } else {
                    assert(a * a - b * b == (a - b) * (a + b)) by (nonlinear_arith);
                    assert((a - b) * (a + b) <= d * (4 * h)) by (nonlinear_arith)
                        requires
                            0 < a - b <= d,
                            0 < a + b <= 4 * h,
                    ;
                    assert(d * (4 * h) == 4 * (h * d)) by (nonlinear_arith);
                }
            }
            assert(k * (a * a) <= k * (b * b + 4 * (h * d))) by (nonlinear_arith)
                requires
                    0 <= k,
                    a * a <= b * b + 4 * (h * d),
            ;
            assert(k * (b * b + 4 * (h * d)) == k * (b * b) + 4 * h * (k * d)) by (nonlinear_arith);
        } else {
            assert(a * a <= 2 * (h * d)) by (nonlinear_arith)
                requires
                    0 < a < 2 * h,
                    a <= d,
            ;
            assert(k * (a * a) <= k * (4 * (h * d))) by (nonlinear_arith)
                requires
                    0 <= k,
                    a * a <= 2 * (h * d),
                    0 < h,
                    0 <= d,
            ;
            assert(k * (4 * (h * d)) == 4 * h * (k * d)) by (nonlinear_arith);
        }
    }
}

/// A steeper curve lies no lower.
proof fn lemma_curve_rises_with_slope(x: int, k: int, l: int, h: int)
    requires
        0 <= k <= l,
        0 < h,
    ensures
        curve(x, k, h) <= curve(x, l, h),
{
    if -h < x && x < h {
        let a = (x + h) * (x + h);
        assert(0 <= a) by (nonlinear_arith)
            requires
                a == (x + h) * (x + h),
        ;
        assert(k * a <= l * a) by (nonlinear_arith)
            requires
                0 <= a,
                k <= l,
        ;
    } else if h <= x {
        assert(k * x <= l * x) by (nonlinear_arith)
            requires
                0 <= x,
                k <= l,
        ;
        assert(4 * h * (k * x) <= 4 * h * (l * x)) by (nonlinear_arith)
            requires
                0 < h,
                k * x <= l * x,
        ;
    }
}

/// Errors that multiply out.
proof fn lemma_error_scales(x: int, y: int, k: int, top: int, e: int)
    requires
        0 <= k <= top,
        FRACTION_SPAN * apart(x, y) <= e,
        0 <= e,
    ensures
        FRACTION_SPAN * apart(k * x, k * y) <= top * e,
{
    let g = apart(x, y);
    assert(apart(k * x, k * y) == k * g) by (nonlinear_arith)
        requires
            0 <= k,
            g == apart(x, y),
    ;
    let span = FRACTION_SPAN as int;
    assert(span * (k * g) == k * (span * g)) by (nonlinear_arith);
    assert(k * (span * g) <= top * e) by (nonlinear_arith)
        requires
            0 <= k <= top,
            0 <= span * g <= e,
    ;
    assert(0 <= span * g);
}

/// How far a computed square lies from the exact one.
proof fn lemma_square_error(x: int, y: int, u: int)
    requires
        0 <= y <= 9 * u,
        0 <= x,
        0 < u,
        FRACTION_SPAN * apart(x, y) <= 10 * u,
    ensures
        FRACTION_SPAN * apart(x * x, y * y) <= 200 * (u * u),
        x <= 10 * u,
{
    let g = apart(x, y);
    let span = FRACTION_SPAN as int;
    assert(g <= u);
    let s = x + y;
    assert(apart(x * x, y * y) == g * s) by (nonlinear_arith)
        requires
            g == apart(x, y),
            s == x + y,
            0 <= x,
            0 <= y,
    ;
    assert(span * (g * s) == (span * g) * s) by (nonlinear_arith);
    assert((span * g) * s <= (10 * u) * (20 * u)) by (nonlinear_arith)
        requires
            0 <= span * g <= 10 * u,
            0 <= s <= 20 * u,
    ;
    assert(0 <= span * g);
    assert((10 * u) * (20 * u) == 200 * (u * u)) by (nonlinear_arith);
}

/// How far the computed parabola lies from the exact one: `above`, `sq`, `top` and `r`
/// are what each step gives, and `held_*` what it counts for in the next.
proof fn lemma_parabola_error(
    exact: int,
    above: int,
    held_above: int,
    sq: int,
    held_sq: int,
    k: int,
    top: int,
    held_top: int,
    width: int,
    r: int,
)
    requires
        0 <= exact <= 9 * unity(),
        0 <= k <= 2 * unity(),
        unity() <= width <= 18 * unity(),
        FRACTION_SPAN * apart(above, exact) <= exact + FRACTION_SPAN * FRACTION_SPAN,
        0 <= held_above <= above < held_above + FRACTION_SPAN,
        FRACTION_SPAN * apart(sq * unity(), held_above * held_above) <= held_above * held_above + FRACTION_SPAN
            * FRACTION_SPAN * unity(),
        0 <= held_sq <= sq < held_sq + FRACTION_SPAN,
        FRACTION_SPAN * apart(top * unity(), k * held_sq) <= k * held_sq + FRACTION_SPAN * FRACTION_SPAN * unity(),
        0 <= held_top <= top < held_top + FRACTION_SPAN,
        FRACTION_SPAN * apart(r * width, held_top * unity()) <= held_top * unity() + FRACTION_SPAN * FRACTION_SPAN
            * width,
    ensures
        FRACTION_SPAN * apart(r * width * unity(), k * (exact * exact)) <= 1000 * (unity() * unity() * unity()),
{
    lemma_sizes();
    let u = unity();
    let span = FRACTION_SPAN as int;
    let tiny = span * span;
    assert(tiny == 0x4000_0000_0000) by (nonlinear_arith)
        requires
            tiny == span * span,
            span == 0x80_0000,
    ;
    assert(64 * tiny <= u);
    let uu = u * u;
    let uuu = uu * u;
    assert(span * apart(held_above, exact) <= 10 * u);
    lemma_square_error(held_above, exact, u);
    let y = exact * exact;
    let x = held_above * held_above;
    assert(0 <= y <= 81 * uu && 0 <= x <= 100 * uu && 64 * (tiny * u) <= uu) by (nonlinear_arith)
        requires
            y == exact * exact,
            x == held_above * held_above,
            uu == u * u,
            0 <= exact <= 9 * u,
            0 <= held_above <= 10 * u,
            64 * tiny <= u,
            u > 0,
    ;
    // The square.
    let s = held_sq * u;
    assert(sq * u - s <= span * u && s <= sq * u) by (nonlinear_arith)
        requires
            s == held_sq * u,
            0 <= held_sq <= sq,
            sq < held_sq + span,
            u > 0,
    ;
    assert(span * (span * u) == tiny * u) by (nonlinear_arith)
        requires
            tiny == span * span,
    ;
    assert(span * apart(s, x) <= x + 2 * (tiny * u)) by {
        assert(apart(s, x) <= apart(sq * u, x) + span * u);
    }
    assert(span * apart(s, y) <= 310 * uu) by {
        assert(apart(s, y) <= apart(s, x) + apart(x, y));
    }
    assert(s <= 82 * uu);
    assert(held_sq <= 82 * u) by (nonlinear_arith)
        requires
            held_sq * u <= 82 * uu,
            uu == u * u,
            u > 0,
    ;
    // The product with the slope.
    let ks = k * held_sq;
    assert(0 <= ks <= 164 * uu) by (nonlinear_arith)
        requires
            ks == k * held_sq,
            0 <= k <= 2 * u,
            0 <= held_sq <= 82 * u,
            uu == u * u,
    ;
    let t = held_top * u;
    assert(top * u - t <= span * u && t <= top * u) by (nonlinear_arith)
        requires
            t == held_top * u,
            0 <= held_top <= top,
            top < held_top + span,
            u > 0,
    ;
    assert(span * apart(t, ks) <= 166 * uu) by {
        assert(apart(t, ks) <= apart(top * u, ks) + span * u);
    }
    assert(0 <= t <= 165 * uu) by {
        assert(0 <= t) by (nonlinear_arith)
            requires
                t == held_top * u,
                held_top >= 0,
                u > 0,
        ;
    }
    // The quotient.
    assert(tiny * width <= uu) by (nonlinear_arith)
        requires
            width <= 18 * u,
            64 * tiny <= u,
            tiny >= 0,
            uu == u * u,
            u > 0,
    ;
    assert(span * apart(r * width, t) <= 166 * uu);
    // All together, times the value of one.
    lemma_error_scales(r * width, t, u, u, 166 * uu);
    lemma_error_scales(t, ks, u, u, 166 * uu);
    lemma_error_scales(s, y, k, 2 * u, 310 * uu);
    assert(u * (166 * uu) == 166 * uuu && (2 * u) * (310 * uu) == 620 * uuu) by (nonlinear_arith)
        requires
            uuu == uu * u,
    ;
    assert(u * (r * width) == r * width * u) by (nonlinear_arith);
    assert(u * ks == k * s) by (nonlinear_arith)
        requires
            ks == k * held_sq,
            s == held_sq * u,
    ;
    assert(apart(r * width * u, k * y) <= apart(u * (r * width), u * t) + apart(u * t, u * ks) + apart(k * s, k * y));
}

// ----- The knee ---------------------------------------------------------------

/// How wide the knees are.
proof fn lemma_knee_widths()
    ensures
        2 * Single(HARD_KNEE_DB).steps() == unity(),
        Single(SOFT_KNEE_DB).steps() == 9 * unity(),
        unity() == pow2(149),
{
    lemma_sizes();
    let span = FRACTION_SPAN as int;
    lemma_fundamental_div_mod_converse(SOFT_KNEE_DB as int, span, 130, 0x10_0000);
    lemma_pow2_adds(23, 126);
    lemma_pow2_adds(3, 126);
    lemma2_to64();
    assert((0x10_0000 + span) * (8 * pow2(126)) == 9 * (span * pow2(126))) by (nonlinear_arith)
        requires
            span == 0x80_0000,
    ;
}

/// Half a knee is exactly that.
proof fn lemma_half_is_exact<A: Arith>(knee: Single, half: Single, flushed: bool)
    requires
        rounds::<A>(flushed),
        usual_knee(knee),
        over_of::<A>(knee, Single(TWO), half),
    ensures
        2 * half.steps() == knee.steps(),
{
    lemma_sizes();
    lemma_knees();
    lemma_knee_widths();
    let u = unity();
    let limit = Single(ROUNDING_LIMIT).steps();
    lemma_not_subnormal(knee);
    lemma_not_subnormal(Single(TWO));
    let m = if knee == Single(HARD_KNEE_DB) {
        Single(QUARTER)
    } else {
        lemma_is_a_number(9, 148)
    };
    lemma_pow2_unfold(149);
    assert(2 * m.steps() == knee.steps());
    let n = knee.steps();
    assert(0 <= n * u <= limit * (2 * u)) by (nonlinear_arith)
        requires
            0 <= n <= limit,
            u > 0,
    ;
    assert(rounds_ratio(n * u, 2 * u, half));
    assert(m.steps() * (2 * u) == n * u) by (nonlinear_arith)
        requires
            2 * m.steps() == n,
    ;
    assert(m.finite());
    let h = half.steps();
    assert(FRACTION_SPAN * (2 * u) <= n * u) by (nonlinear_arith)
        requires
            2 * FRACTION_SPAN <= n,
            u > 0,
    ;
    assert(apart(h * (2 * u), n * u) <= apart(m.steps() * (2 * u), n * u));
    assert(2 * h == n) by (nonlinear_arith)
        requires
            h * (2 * u) == n * u,
            u > 0,
    ;
}

/// Twice a knee is exactly that.
proof fn lemma_width_is_exact<A: Arith>(knee: Single, width: Single, flushed: bool)
    requires
        rounds::<A>(flushed),
        usual_knee(knee),
        times_of::<A>(Single(TWO), knee, width),
    ensures
        width.finite(),
        width.steps() == 2 * knee.steps(),
{
    lemma_sizes();
    lemma_knees();
    lemma_knee_widths();
    let u = unity();
    let limit = Single(ROUNDING_LIMIT).steps();
    lemma_not_subnormal(knee);
    lemma_not_subnormal(Single(TWO));
    let m = if knee == Single(HARD_KNEE_DB) {
        Single(ONE)
    } else {
        lemma_is_a_number(9, 150)
    };
    lemma_pow2_unfold(150);
    assert(m.steps() == 2 * knee.steps());
    assert(m.finite());
    let n = knee.steps();
    let exact = Single(TWO).steps() * n;
    assert(0 <= exact <= limit * u && exact == m.steps() * u) by (nonlinear_arith)
        requires
            exact == Single(TWO).steps() * n,
            Single(TWO).steps() == 2 * u,
            m.steps() == 2 * n,
            0 <= 2 * n <= limit,
            u > 0,
    ;
    assert(rounds_product(exact, width));
    let w = width.steps();
    assert(FRACTION_SPAN * u <= exact) by (nonlinear_arith)
        requires
            exact == m.steps() * u,
            FRACTION_SPAN <= m.steps(),
            u > 0,
    ;
    assert(apart(w * u, exact) <= apart(m.steps() * u, exact));
    assert(w == m.steps()) by (nonlinear_arith)
        requires
            w * u == m.steps() * u,
            u > 0,
    ;
}

/// The computed parabola lies close to the exact one.
proof fn lemma_parabola_is_close<A: Arith>(
    excess: Single,
    k: Single,
    knee: Single,
    half: Single,
    r: Single,
    flushed: bool,
)
    requires
        monotone::<A>(),
        rounds::<A>(flushed),
        usual_knee(knee),
        over_of::<A>(knee, Single(TWO), half),
        amount(k),
        k.steps() <= 2 * unity(),
        excess.finite(),
        -half.steps() < excess.steps() < half.steps(),
        parabola_of::<A>(excess, k, knee, half, r),
    ensures
        r.finite(),
        FRACTION_SPAN * apart(
            r.steps() * (4 * half.steps()) * unity(),
            curve(counts(excess, flushed), counts(k, flushed), half.steps()),
        ) <= 1000 * (unity() * unity() * unity()),
{
    lemma_sizes();
    lemma_knees();
    lemma_knee_widths();
    lemma_half_is_exact::<A>(knee, half, flushed);
    lemma_half::<A>(knee, half, half);
    let u = unity();
    let span = FRACTION_SPAN as int;
    let limit = Single(ROUNDING_LIMIT).steps();
    let (above, sq, top, width) = choose|above: Single, sq: Single, top: Single, width: Single|
        {
            &&& #[trigger] plus_of::<A>(excess, half, above)
            &&& #[trigger] square_of::<A>(above, sq)
            &&& #[trigger] times_of::<A>(k, sq, top)
            &&& #[trigger] times_of::<A>(Single(TWO), knee, width)
            &&& over_of::<A>(top, width, r)
        };
    lemma_width_is_exact::<A>(knee, width, flushed);
    lemma_counts(excess, flushed);
    lemma_counts(k, flushed);
    let x = counts(excess, flushed) + half.steps();
    assert(counts(half, flushed) == half.steps());
    assert(0 <= x <= 9 * u);
    assert(rounds_to(x, above));
    lemma_rounding_error(x, above);
    lemma_rounding_stays(x, above, Single(ROUNDING_LIMIT));
    assert(span * span == 0x4000_0000_0000) by (nonlinear_arith)
        requires
            span == 0x80_0000,
    ;
    lemma_counts(above, flushed);
    let a = counts(above, flushed);
    assert(a <= 10 * u);
    assert(0 <= a * a <= 100 * (u * u)) by (nonlinear_arith)
        requires
            0 <= a <= 10 * u,
    ;
    assert(512 * (u * u) <= limit * u) by (nonlinear_arith)
        requires
            512 * u <= limit,
            u > 0,
    ;
    assert(0 <= u * u) by (nonlinear_arith);
    assert(64 * (span * span * u) <= u * u) by (nonlinear_arith)
        requires
            64 * (span * span) <= u,
            u > 0,
    ;
    assert(rounds_product(a * a, sq));
    lemma_product_error(a * a, sq);
    assert(Single(ZERO).at_most(sq));
    lemma_counts(sq, flushed);
    let b = counts(sq, flushed);
    assert(sq.steps() * u <= 102 * (u * u));
    assert(sq.steps() <= 102 * u) by (nonlinear_arith)
        requires
            sq.steps() * u <= 102 * (u * u),
            u > 0,
    ;
    let c = counts(k, flushed);
    assert(0 <= c * b <= 204 * (u * u)) by (nonlinear_arith)
        requires
            0 <= c <= 2 * u,
            0 <= b <= 102 * u,
    ;
    assert(rounds_product(c * b, top));
    lemma_product_error(c * b, top);
    assert(Single(ZERO).at_most(top));
    lemma_counts(top, flushed);
    let d = counts(top, flushed);
    assert(top.steps() * u <= 206 * (u * u));
    assert(top.steps() <= 206 * u) by (nonlinear_arith)
        requires
            top.steps() * u <= 206 * (u * u),
            u > 0,
    ;
    let w = width.steps();
    assert(u <= w <= 18 * u);
    lemma_not_subnormal(width);
    assert(0 <= d * u <= 206 * (u * u)) by (nonlinear_arith)
        requires
            0 <= d <= 206 * u,
            u > 0,
    ;
    assert(limit * u <= limit * w) by (nonlinear_arith)
        requires
            u <= w,
            limit >= 0,
    ;
    assert(rounds_ratio(d * u, w, r));
    lemma_ratio_error(d * u, w, r);
    lemma_parabola_error(x, above.steps(), a, sq.steps(), b, c, top.steps(), d, w, r.steps());
}

/// A reduction of `40` dB times `4 * h` and the square of one.
spec fn forty(h: int) -> int {
    4 * h * (40 * (unity() * unity()))
}

/// The computed line lies close to the exact one, and where that is far up, it is far
/// up too.
proof fn lemma_line_is_close<A: Arith>(excess: Single, k: Single, h: int, line: Single, flushed: bool)
    requires
        monotone::<A>(),
        rounds::<A>(flushed),
        amount(k),
        k.steps() <= 2 * unity(),
        excess.finite(),
        0 < h <= 5 * unity(),
        h <= excess.steps() <= 2 * Single(THOUSAND).steps(),
        !subnormal(excess),
        times_of::<A>(k, excess, line),
    ensures
        line.finite(),
        line.steps() >= 0,
        curve(excess.steps(), counts(k, flushed), h) <= 2 * forty(h) ==> FRACTION_SPAN * apart(
            line.steps() * (4 * h) * unity(),
            curve(excess.steps(), counts(k, flushed), h),
        ) <= 2000 * (unity() * unity() * unity()),
        curve(excess.steps(), counts(k, flushed), h) > forty(h) ==> line.steps() > 36 * unity(),
{
    lemma_sizes();
    lemma_counts(k, flushed);
    let u = unity();
    let uu = u * u;
    let span = FRACTION_SPAN as int;
    let limit = Single(ROUNDING_LIMIT).steps();
    let c = counts(k, flushed);
    let x = excess.steps();
    let exact = c * x;
    assert(0 <= exact <= limit * u) by (nonlinear_arith)
        requires
            exact == c * x,
            0 <= c <= 2 * u,
            0 <= 2 * x <= limit,
    ;
    assert(rounds_product(exact, line));
    lemma_product_error(exact, line);
    assert(Single(ZERO).at_most(line));
    let l = line.steps();
    let tiny = span * span;
    assert(tiny == 0x4000_0000_0000) by (nonlinear_arith)
        requires
            tiny == span * span,
            span == 0x80_0000,
    ;
    assert(64 * (tiny * u) <= uu) by (nonlinear_arith)
        requires
            64 * tiny <= u,
            uu == u * u,
            u > 0,
    ;
    let q = curve(x, c, h);
    assert(q == 4 * h * exact);
    if q <= 2 * forty(h) {
        assert(exact <= 80 * uu) by (nonlinear_arith)
            requires
                4 * h * exact <= 2 * (4 * h * (40 * uu)),
                h > 0,
        ;
        let g = apart(l * u, exact);
        assert(span * g <= 81 * uu);
        assert(apart(l * (4 * h) * u, q) == (4 * h) * g) by (nonlinear_arith)
            requires
                q == 4 * h * exact,
                g == apart(l * u, exact),
                h > 0,
        ;
        assert(span * ((4 * h) * g) <= 2000 * (uu * u)) by (nonlinear_arith)
            requires
                span * g <= 81 * uu,
                0 <= g,
                0 < h <= 5 * u,
                span > 0,
                uu >= 0,
        {
            assert(span * ((4 * h) * g) == (4 * h) * (span * g)) by (nonlinear_arith);
            assert((4 * h) * (span * g) <= (20 * u) * (81 * uu)) by (nonlinear_arith)
                requires
                    0 < 4 * h <= 20 * u,
                    0 <= span * g <= 81 * uu,
            ;
            assert((20 * u) * (81 * uu) == 1620 * (uu * u)) by (nonlinear_arith);
            assert(0 <= uu * u) by (nonlinear_arith)
                requires
                    uu >= 0,
                    u > 0,
            ;
            assert(0 <= span * g) by (nonlinear_arith)
                requires
                    0 <= g,
                    span > 0,
            ;
        }
    }
    if q > forty(h) {
        assert(exact > 40 * uu) by (nonlinear_arith)
            requires
                4 * h * exact > 4 * h * (40 * uu),
                h > 0,
        ;
        assert(l * u > 36 * uu);
        assert(l > 36 * u) by (nonlinear_arith)
            requires
                l * u > 36 * uu,
                uu == u * u,
                u > 0,
        ;
    }
}

/// The computed knee lies close to the exact curve, and where that is far up, it is far
/// up too.
proof fn lemma_knee_is_close<A: Arith>(excess: Single, k: Single, knee: Single, r: Single, h: int, flushed: bool)
    requires
        monotone::<A>(),
        rounds::<A>(flushed),
        usual_knee(knee),
        2 * h == knee.steps(),
        amount(k),
        k.steps() <= 2 * unity(),
        excess.finite(),
        excess.steps() <= 2 * Single(THOUSAND).steps(),
        knee_of::<A>(excess, k, knee, r),
    ensures
        r.finite(),
        curve(counts(excess, flushed), counts(k, flushed), h) <= 2 * forty(h) ==> FRACTION_SPAN * apart(
            r.steps() * (4 * h) * unity(),
            curve(counts(excess, flushed), counts(k, flushed), h),
        ) <= 2000 * (unity() * unity() * unity()),
        curve(counts(excess, flushed), counts(k, flushed), h) > forty(h) ==> r.steps() > 36 * unity(),
{
    lemma_sizes();
    lemma_knees();
    lemma_knee_widths();
    let u = unity();
    let half = lemma_knee_half::<A>(excess, k, knee, r);
    lemma_half_is_exact::<A>(knee, half, flushed);
    lemma_half::<A>(knee, half, half);
    lemma_opposite(half);
    assert(half.opposite().finite());
    lemma_counts(excess, flushed);
    lemma_counts(k, flushed);
    let x = counts(excess, flushed);
    let c = counts(k, flushed);
    let uuu = u * u * u;
    assert(0 <= uuu) by (nonlinear_arith)
        requires
            uuu == u * u * u,
            u > 0,
    ;
    assert(0 <= forty(h)) by (nonlinear_arith)
        requires
            forty(h) == 4 * h * (40 * (u * u)),
            h > 0,
            u > 0,
    ;
    if excess.at_most(half.opposite()) {
        lemma_not_subnormal(excess);
        assert(0 * (4 * h) * u == 0) by (nonlinear_arith);
    } else if half.at_most(excess) {
        lemma_not_subnormal(excess);
        let line = choose|line: Single| #[trigger]
            times_of::<A>(k, excess, line) && r == line.larger(Single(ZERO));
        lemma_line_is_close::<A>(excess, k, h, line, flushed);
    } else {
        lemma_parabola_is_close::<A>(excess, k, knee, half, r, flushed);
        let a = x + h;
        assert(c * (a * a) <= 4 * h * (40 * (u * u))) by (nonlinear_arith)
            requires
                0 <= c <= 2 * u,
                0 <= a <= 2 * h,
                0 < h <= 5 * u,
        {
            assert(a * a <= 4 * (h * h)) by (nonlinear_arith)
                requires
                    0 <= a <= 2 * h,
            ;
            assert(0 <= a * a) by (nonlinear_arith);
            assert(c * (a * a) <= (2 * u) * (4 * (h * h))) by (nonlinear_arith)
                requires
                    0 <= c <= 2 * u,
                    0 <= a * a <= 4 * (h * h),
            ;
            assert(h * u <= 5 * (u * u)) by (nonlinear_arith)
                requires
                    0 < h <= 5 * u,
            ;
            assert((2 * u) * (4 * (h * h)) == 4 * h * (2 * (h * u))) by (nonlinear_arith);
            assert(4 * h * (2 * (h * u)) <= 4 * h * (40 * (u * u))) by (nonlinear_arith)
                requires
                    h > 0,
                    0 <= h * u <= 5 * (u * u),
            ;
            assert(0 <= h * u) by (nonlinear_arith)
                requires
                    h > 0,
                    u >= 0,
            ;
        }
        assert(u * u * u == unity() * unity() * unity());
    }
}

// ----- The threshold ----------------------------------------------------------

/// An error in units of `u`.
proof fn lemma_error_divides(x: int, y: int, u: int, e: int)
    requires
        u > 0,
        FRACTION_SPAN * apart(x * u, y * u) <= e * u + FRACTION_SPAN * FRACTION_SPAN * u,
    ensures
        FRACTION_SPAN * apart(x, y) <= e + FRACTION_SPAN * FRACTION_SPAN,
{
    let g = apart(x, y);
    let span = FRACTION_SPAN as int;
    let top = e + span * span;
    assert(apart(x * u, y * u) == g * u) by (nonlinear_arith)
        requires
            g == apart(x, y),
            u > 0,
    ;
    assert(span * (g * u) == (span * g) * u) by (nonlinear_arith);
    assert(e * u + span * span * u == top * u) by (nonlinear_arith)
        requires
            top == e + span * span,
    ;
    assert(span * g <= top) by (nonlinear_arith)
        requires
            (span * g) * u <= top * u,
            u > 0,
    ;
}

/// What the steps to the threshold come to.
proof fn lemma_threshold_error(
    sel: int,
    rest: int,
    held_rest: int,
    wide: int,
    held_wide: int,
    narrow: int,
    held_narrow: int,
    t: int,
)
    requires
        0 <= sel <= unity(),
        FRACTION_SPAN * apart(rest, unity() - sel) <= unity() + FRACTION_SPAN * FRACTION_SPAN,
        apart(held_rest, rest) < FRACTION_SPAN,
        FRACTION_SPAN * apart(wide, 12 * held_rest) <= 12 * unity() + FRACTION_SPAN * FRACTION_SPAN,
        apart(held_wide, wide) < FRACTION_SPAN,
        FRACTION_SPAN * apart(narrow, sel) <= unity() + FRACTION_SPAN * FRACTION_SPAN,
        apart(held_narrow, narrow) < FRACTION_SPAN,
        FRACTION_SPAN * apart(t, held_wide + held_narrow) <= 13 * unity() + FRACTION_SPAN * FRACTION_SPAN,
    ensures
        FRACTION_SPAN * apart(t, 12 * unity() - 11 * sel) <= 40 * unity(),
{
    lemma_sizes();
    let span = FRACTION_SPAN as int;
    assert(span * span == 0x4000_0000_0000) by (nonlinear_arith)
        requires
            span == 0x80_0000,
    ;
}

/// The threshold of a frame lies close to where exact arithmetic would put it.
proof fn lemma_threshold_is_close<A: Arith>(hop: Single, rate: Single, p: DetectParams, t: FrameTerms, flushed: bool)
    requires
        monotone::<A>(),
        rounds::<A>(flushed),
        unit(p.selectivity),
        frame_terms_of::<A>(hop, rate, p, t),
    ensures
        FRACTION_SPAN * apart(t.threshold.steps(), 12 * unity() - 11 * counts(p.selectivity, flushed)) <= 40
            * unity(),
{
    lemma_sizes();
    let u = unity();
    let span = FRACTION_SPAN as int;
    let tiny = span * span;
    assert(tiny == 0x4000_0000_0000) by (nonlinear_arith)
        requires
            tiny == span * span,
            span == 0x80_0000,
    ;
    let limit = Single(ROUNDING_LIMIT).steps();
    let (rest, wide, narrow) = choose|rest: Single, wide: Single, narrow: Single|
        {
            &&& #[trigger] minus_of::<A>(Single(ONE), p.selectivity, rest)
            &&& #[trigger] times_of::<A>(rest, Single(TWELVE), wide)
            &&& #[trigger] times_of::<A>(p.selectivity, Single(ONE), narrow)
            &&& plus_of::<A>(wide, narrow, t.threshold)
        };
    lemma_unit_is_finite(p.selectivity);
    lemma_unit_is_finite(rest);
    lemma_not_subnormal(Single(ONE));
    lemma_not_subnormal(Single(TWELVE));
    assert(within(narrow, p.selectivity));
    assert(within(wide, Single(TWELVE)));
    lemma_counts(p.selectivity, flushed);
    lemma_counts(rest, flushed);
    lemma_counts(wide, flushed);
    lemma_counts(narrow, flushed);
    let s = counts(p.selectivity, flushed);
    let c = counts(rest, flushed);
    assert(rounds_to(u - s, rest));
    lemma_rounding_error(u - s, rest);
    let twelve = Single(TWELVE).steps();
    assert(0 <= c * twelve <= limit * u && c * twelve == (12 * c) * u && c * twelve <= 12 * (u * u)) by (
    nonlinear_arith)
        requires
            0 <= c <= u,
            twelve == 12 * u,
            512 * u <= limit,
            u > 0,
    ;
    assert(rounds_product(c * twelve, wide));
    lemma_product_error(c * twelve, wide);
    let w = wide.steps();
    assert((12 * u) * u == 12 * (u * u)) by (nonlinear_arith);
    lemma_error_divides(w, 12 * c, u, 12 * u);
    assert(0 <= s * u <= limit * u && s * u <= u * u) by (nonlinear_arith)
        requires
            0 <= s <= u,
            u <= limit,
    ;
    assert(rounds_product(s * u, narrow));
    lemma_product_error(s * u, narrow);
    let n = narrow.steps();
    lemma_error_divides(n, s, u, u);
    let z = counts(wide, flushed) + counts(narrow, flushed);
    assert(rounds_to(z, t.threshold));
    lemma_rounding_error(z, t.threshold);
    lemma_threshold_error(
        s,
        rest.steps(),
        c,
        w,
        counts(wide, flushed),
        n,
        counts(narrow, flushed),
        t.threshold.steps(),
    );
}

/// More selectivity lowers the threshold, but for rounding: it never rises by more than
/// a hundred-thousandth of a dB.
pub proof fn lemma_more_selectivity_lowers_threshold<A: Arith>(
    hop: Single,
    rate: Single,
    p: DetectParams,
    q: DetectParams,
    t_a: FrameTerms,
    t_b: FrameTerms,
)
    requires
        monotone::<A>(),
        unit(p.selectivity),
        unit(q.selectivity),
        p.selectivity.at_most(q.selectivity),
        frame_terms_of::<A>(hop, rate, p, t_a),
        frame_terms_of::<A>(hop, rate, q, t_b),
    ensures
        100_000 * (t_b.threshold.steps() - t_a.threshold.steps()) <= unity(),
{
    lemma_sizes();
    let flushed = choose|flushed: bool| #[trigger] rounds::<A>(flushed);
    lemma_unit_is_finite(p.selectivity);
    lemma_unit_is_finite(q.selectivity);
    lemma_threshold_is_close::<A>(hop, rate, p, t_a, flushed);
    lemma_threshold_is_close::<A>(hop, rate, q, t_b, flushed);
    lemma_counts_rise(p.selectivity, q.selectivity, flushed);
}

// ----- The reduction ----------------------------------------------------------

/// What the steps to the excess come to.
proof fn lemma_excess_error(
    level: int,
    baseline: int,
    t: int,
    held_t: int,
    reference: int,
    held_reference: int,
    excess: int,
    held_excess: int,
    most: int,
)
    requires
        0 <= t <= 13 * unity(),
        apart(level, 0) <= most,
        apart(baseline, 0) <= most,
        apart(held_t, t) < FRACTION_SPAN,
        FRACTION_SPAN * apart(reference, baseline + held_t) <= apart(baseline + held_t, 0) + FRACTION_SPAN
            * FRACTION_SPAN,
        apart(held_reference, reference) < FRACTION_SPAN,
        FRACTION_SPAN * apart(excess, level - held_reference) <= apart(level - held_reference, 0) + FRACTION_SPAN
            * FRACTION_SPAN,
        apart(held_excess, excess) < FRACTION_SPAN,
        most <= 1024 * unity(),
    ensures
        FRACTION_SPAN * apart(held_excess, level - baseline - t) <= 3 * most + 60 * unity(),
{
    lemma_sizes();
    let span = FRACTION_SPAN as int;
    assert(span * span == 0x4000_0000_0000) by (nonlinear_arith)
        requires
            span == 0x80_0000,
    ;
    let u = unity();
    assert(apart(baseline + held_t, 0) <= most + 14 * u);
    assert(apart(reference, 0) <= most + 15 * u);
    assert(apart(level - held_reference, 0) <= 2 * most + 16 * u);
}

/// How far a level lies over the threshold, but for rounding.
proof fn lemma_excess_is_close<A: Arith>(t: FrameTerms, level: Single, baseline: Single, excess: Single, flushed: bool)
    requires
        monotone::<A>(),
        rounds::<A>(flushed),
        moderate(level),
        moderate(baseline),
        t.threshold.finite(),
        0 <= t.threshold.steps() <= 13 * unity(),
        excess_of::<A>(t, level, baseline, excess),
    ensures
        excess.finite(),
        excess.steps() <= 2 * Single(THOUSAND).steps(),
        FRACTION_SPAN * apart(
            counts(excess, flushed),
            counts(level, flushed) - counts(baseline, flushed) - t.threshold.steps(),
        ) <= 3 * Single(THOUSAND).steps() + 60 * unity(),
{
    lemma_sizes();
    let u = unity();
    let span = FRACTION_SPAN as int;
    assert(span * span == 0x4000_0000_0000) by (nonlinear_arith)
        requires
            span == 0x80_0000,
    ;
    let most = Single(THOUSAND);
    let reference = choose|reference: Single| #[trigger]
        plus_of::<A>(baseline, t.threshold, reference) && minus_of::<A>(level, reference, excess);
    lemma_counts(level, flushed);
    lemma_counts(baseline, flushed);
    lemma_counts(t.threshold, flushed);
    let x = counts(baseline, flushed) + counts(t.threshold, flushed);
    assert(rounds_to(x, reference));
    lemma_rounding_error(x, reference);
    lemma_opposite(most);
    assert(most.opposite().finite());
    lemma_no_jump_down(x, reference, most.opposite());
    lemma_counts(reference, flushed);
    let y = counts(level, flushed) - counts(reference, flushed);
    assert(rounds_to(y, excess));
    lemma_rounding_error(y, excess);
    lemma_thousand();
    let two = lemma_is_a_number(0xfa_0000, 136);
    lemma_no_jump_up(y, excess, two);
    lemma_counts(excess, flushed);
    lemma_limit();
    lemma_excess_error(
        counts(level, flushed),
        counts(baseline, flushed),
        t.threshold.steps(),
        counts(t.threshold, flushed),
        reference.steps(),
        counts(reference, flushed),
        excess.steps(),
        counts(excess, flushed),
        most.steps(),
    );
}

/// Two selectivities put a level nearly as far over the threshold, or the larger one
/// puts it further.
proof fn lemma_excesses_are_close<A: Arith>(
    hop: Single,
    rate: Single,
    p: DetectParams,
    q: DetectParams,
    t_a: FrameTerms,
    t_b: FrameTerms,
    level: Single,
    baseline: Single,
    excess_a: Single,
    excess_b: Single,
    flushed: bool,
)
    requires
        monotone::<A>(),
        rounds::<A>(flushed),
        unit(p.selectivity),
        unit(q.selectivity),
        p.selectivity.at_most(q.selectivity),
        moderate(level),
        moderate(baseline),
        frame_terms_of::<A>(hop, rate, p, t_a),
        frame_terms_of::<A>(hop, rate, q, t_b),
        excess_of::<A>(t_a, level, baseline, excess_a),
        excess_of::<A>(t_b, level, baseline, excess_b),
    ensures
        excess_a.finite(),
        excess_b.finite(),
        excess_a.steps() <= 2 * Single(THOUSAND).steps(),
        excess_b.steps() <= 2 * Single(THOUSAND).steps(),
        FRACTION_SPAN * (counts(excess_a, flushed) - counts(excess_b, flushed)) <= 6400 * unity(),
{
    lemma_sizes();
    lemma_unit_is_finite(p.selectivity);
    lemma_unit_is_finite(q.selectivity);
    lemma_threshold_is_moderate::<A>(hop, rate, p, t_a);
    lemma_threshold_is_moderate::<A>(hop, rate, q, t_b);
    lemma_threshold_is_close::<A>(hop, rate, p, t_a, flushed);
    lemma_threshold_is_close::<A>(hop, rate, q, t_b, flushed);
    lemma_counts_rise(p.selectivity, q.selectivity, flushed);
    lemma_excess_is_close::<A>(t_a, level, baseline, excess_a, flushed);
    lemma_excess_is_close::<A>(t_b, level, baseline, excess_b, flushed);
    lemma_limit();
    lemma_way_error(
        counts(excess_a, flushed),
        counts(excess_b, flushed),
        counts(level, flushed) - counts(baseline, flushed),
        t_a.threshold.steps(),
        t_b.threshold.steps(),
        counts(p.selectivity, flushed),
        counts(q.selectivity, flushed),
        unity(),
        Single(THOUSAND).steps(),
    );
}

/// How the largest value of ordinary size lies to one.
proof fn lemma_limit()
    ensures
        Single(THOUSAND).steps() <= 1024 * unity(),
{
    lemma_sizes();
    lemma_pow2_adds(12, 126);
    lemma2_to64();
    assert(FRACTION_SPAN * (4096 * pow2(126)) == 4096 * (FRACTION_SPAN * pow2(126))) by (nonlinear_arith);
}

/// What the steps to two excesses come to.
proof fn lemma_way_error(
    x: int,
    y: int,
    from: int,
    t_a: int,
    t_b: int,
    s_a: int,
    s_b: int,
    u: int,
    most: int,
)
    requires
        0 < u,
        most <= 1024 * u,
        s_a <= s_b,
        FRACTION_SPAN * apart(t_a, 12 * u - 11 * s_a) <= 40 * u,
        FRACTION_SPAN * apart(t_b, 12 * u - 11 * s_b) <= 40 * u,
        FRACTION_SPAN * apart(x, from - t_a) <= 3 * most + 60 * u,
        FRACTION_SPAN * apart(y, from - t_b) <= 3 * most + 60 * u,
    ensures
        FRACTION_SPAN * (x - y) <= 6400 * u,
{
}

/// The slope of a knee is at most two.
proof fn lemma_slope_is_gentle<A: Arith>(sharpness: Single, depth: Single, k: Single)
    requires
        monotone::<A>(),
        unit(sharpness),
        unit(depth),
        slope_of::<A>(sharpness, depth, k),
    ensures
        k.steps() <= 2 * unity(),
{
    lemma_sizes();
    lemma_unit_is_finite(sharpness);
    lemma_unit_is_finite(depth);
    let slope = choose|slope: Single| #[trigger]
        plus_of::<A>(Single(HALF), sharpness, slope) && times_of::<A>(depth, slope, k);
    assert(Single(TWO).finite());
    lemma_sum::<A>(Single(HALF), sharpness, slope, Single(TWO));
    assert(within(k, slope));
}

/// The value 36 in steps.
proof fn lemma_thirty_six()
    ensures
        Single(THIRTY_SIX).steps() == 36 * unity(),
{
    lemma_sizes();
    let span = FRACTION_SPAN as int;
    lemma_fundamental_div_mod_converse(THIRTY_SIX as int, span, 132, 0x10_0000);
    lemma_pow2_adds(5, 126);
    lemma2_to64();
    assert((0x10_0000 + span) * (32 * pow2(126)) == 36 * (span * pow2(126))) by (nonlinear_arith)
        requires
            span == 0x80_0000,
    ;
}

/// Reductions off a curve that is no steeper than its line lie no further apart.
proof fn lemma_reductions_are_close(a: int, b: int, p: int, q: int, h: int, k: int, d: int)
    requires
        0 <= k <= 2 * unity(),
        unity() <= 4 * h,
        0 <= d,
        FRACTION_SPAN * d <= 6400 * unity(),
        p <= q + 4 * h * (k * d),
        FRACTION_SPAN * apart(a * (4 * h) * unity(), p) <= 2000 * (unity() * unity() * unity()),
        FRACTION_SPAN * apart(b * (4 * h) * unity(), q) <= 2000 * (unity() * unity() * unity()),
    ensures
        400 * (a - b) <= unity(),
{
    lemma_sizes();
    let u = unity();
    let span = FRACTION_SPAN as int;
    let m = 4 * h * u;
    let uuu = u * u * u;
    assert(a * (4 * h) * u == a * m && b * (4 * h) * u == b * m) by (nonlinear_arith)
        requires
            m == 4 * h * u,
    ;
    assert(uuu <= u * m) by (nonlinear_arith)
        requires
            uuu == u * u * u,
            m == 4 * h * u,
            0 < u <= 4 * h,
    ;
    let kd = k * d;
    assert(span * kd <= 12800 * (u * u)) by (nonlinear_arith)
        requires
            kd == k * d,
            0 <= k <= 2 * u,
            0 <= span * d <= 6400 * u,
            span > 0,
    ;
    assert(span * (4 * h * kd) <= 12800 * (u * m)) by (nonlinear_arith)
        requires
            span * kd <= 12800 * (u * u),
            m == 4 * h * u,
            h > 0,
    ;
    assert(span * (a * m - b * m) <= 16800 * (u * m)) by {
        assert(a * m - b * m <= 4 * h * kd + apart(a * m, p) + apart(b * m, q));
    }
    assert(m > 0) by (nonlinear_arith)
        requires
            m == 4 * h * u,
            0 < u <= 4 * h,
    ;
    assert(span * (a - b) <= 16800 * u) by (nonlinear_arith)
        requires
            span * (a * m - b * m) <= 16800 * (u * m),
            m > 0,
    ;
}

/// Of two levels nearly as far over the threshold, the higher is reduced no less, but
/// for rounding.
proof fn lemma_knees_are_close<A: Arith>(
    excess_a: Single,
    excess_b: Single,
    k_a: Single,
    k_b: Single,
    knee: Single,
    raw_a: Single,
    raw_b: Single,
    flushed: bool,
)
    requires
        monotone::<A>(),
        rounds::<A>(flushed),
        usual_knee(knee),
        amount(k_a),
        amount(k_b),
        k_a.steps() <= k_b.steps() <= 2 * unity(),
        excess_a.finite(),
        excess_b.finite(),
        excess_a.steps() <= 2 * Single(THOUSAND).steps(),
        excess_b.steps() <= 2 * Single(THOUSAND).steps(),
        FRACTION_SPAN * (counts(excess_a, flushed) - counts(excess_b, flushed)) <= 6400 * unity(),
        knee_of::<A>(excess_a, k_a, knee, raw_a),
        knee_of::<A>(excess_b, k_b, knee, raw_b),
    ensures
        raw_a.finite(),
        raw_b.finite(),
        raw_b.steps() > 36 * unity() || 400 * (raw_a.steps() - raw_b.steps()) <= unity(),
{
    lemma_sizes();
    lemma_knees();
    lemma_knee_widths();
    let u = unity();
    let span = FRACTION_SPAN as int;
    lemma_counts_rise(k_a, k_b, flushed);
    lemma_counts(k_a, flushed);
    lemma_counts(k_b, flushed);
    let h = knee.steps() / 2;
    assert(2 * h == knee.steps()) by {
        lemma_pow2_unfold(149);
        lemma_pow2_unfold(148);
    }
    let x = counts(excess_a, flushed);
    let y = counts(excess_b, flushed);
    let flat = counts(k_a, flushed);
    let k = counts(k_b, flushed);
    let d = if x > y {
        x - y
    } else {
        0
    };
    assert(span * d <= 6400 * u);
    lemma_knee_is_close::<A>(excess_a, k_a, knee, raw_a, h, flushed);
    lemma_knee_is_close::<A>(excess_b, k_b, knee, raw_b, h, flushed);
    lemma_curve_rises_with_slope(x, flat, k, h);
    lemma_curve_is_gentle(x, y, k, h, d);
    if curve(y, k, h) <= forty(h) {
        assert(d <= u);
        assert(4 * h * (k * d) <= forty(h) && forty(h) >= 0) by (nonlinear_arith)
            requires
                forty(h) == 4 * h * (40 * (u * u)),
                0 <= k <= 2 * u,
                0 <= d <= u,
                h > 0,
        {
            assert(k * d <= 2 * (u * u)) by (nonlinear_arith)
                requires
                    0 <= k <= 2 * u,
                    0 <= d <= u,
            ;
            assert(0 <= u * u) by (nonlinear_arith);
            assert(4 * h * (k * d) <= 4 * h * (40 * (u * u))) by (nonlinear_arith)
                requires
                    k * d <= 40 * (u * u),
                    h > 0,
            ;
            assert(0 <= 4 * h * (40 * (u * u))) by (nonlinear_arith)
                requires
                    0 <= u * u,
                    h > 0,
            ;
        }
        lemma_reductions_are_close(raw_a.steps(), raw_b.steps(), curve(x, flat, h), curve(y, k, h), h, k, d);
    }
}

/// The slopes of two knees, of which the second asks for no less.
proof fn lemma_slopes_rise<A: Arith>(
    sharp_a: Single,
    sharp_b: Single,
    depth_a: Single,
    depth_b: Single,
    k_a: Single,
    k_b: Single,
)
    requires
        monotone::<A>(),
        unit(sharp_a),
        unit(sharp_b),
        unit(depth_a),
        unit(depth_b),
        sharp_a.at_most(sharp_b),
        depth_a.at_most(depth_b),
        slope_of::<A>(sharp_a, depth_a, k_a),
        slope_of::<A>(sharp_b, depth_b, k_b),
    ensures
        amount(k_a),
        amount(k_b),
        k_a.steps() <= k_b.steps() <= 2 * unity(),
{
    lemma_unit_is_moderate(sharp_a);
    lemma_unit_is_moderate(sharp_b);
    lemma_unit_is_moderate(depth_a);
    lemma_unit_is_moderate(depth_b);
    lemma_sizes();
    lemma_slope_rises::<A>(sharp_a, sharp_b, depth_a, depth_b, k_a, k_b);
    lemma_slope_is_gentle::<A>(sharp_b, depth_b, k_b);
}

/// Reductions that are capped lie no further apart.
proof fn lemma_capped_are_close(raw_a: Single, raw_b: Single)
    requires
        raw_a.finite(),
        raw_b.finite(),
        raw_b.steps() > 36 * unity() || 400 * (raw_a.steps() - raw_b.steps()) <= unity(),
    ensures
        400 * (raw_a.smaller(Single(THIRTY_SIX)).steps() - raw_b.smaller(Single(THIRTY_SIX)).steps()) <= unity(),
{
    lemma_sizes();
    lemma_thirty_six();
}

/// More selectivity, sharpness or depth never reduces less, but for rounding: wherever
/// on the knee the level lies, what is lost is less than a four-hundredth of a dB.
pub proof fn lemma_more_selectivity_reduces_no_less<A: Arith>(
    hop: Single,
    rate: Single,
    p: DetectParams,
    q: DetectParams,
    t_a: FrameTerms,
    t_b: FrameTerms,
    level: Single,
    baseline: Single,
    depth_a: Single,
    depth_b: Single,
    r_a: Single,
    r_b: Single,
)
    requires
        monotone::<A>(),
        unit(p.selectivity),
        unit(q.selectivity),
        p.selectivity.at_most(q.selectivity),
        unit(p.sharpness),
        unit(q.sharpness),
        p.sharpness.at_most(q.sharpness),
        p.soft_mode == q.soft_mode,
        unit(depth_a),
        unit(depth_b),
        depth_a.at_most(depth_b),
        moderate(level),
        moderate(baseline),
        frame_terms_of::<A>(hop, rate, p, t_a),
        frame_terms_of::<A>(hop, rate, q, t_b),
        reduction_of::<A>(t_a, p.sharpness, level, baseline, depth_a, r_a),
        reduction_of::<A>(t_b, q.sharpness, level, baseline, depth_b, r_b),
    ensures
        400 * (r_a.steps() - r_b.steps()) <= unity(),
{
    let flushed = choose|flushed: bool| #[trigger] rounds::<A>(flushed);
    let (excess_a, k_a, raw_a) = lemma_reduction_parts::<A>(t_a, p.sharpness, level, baseline, depth_a, r_a);
    let (excess_b, k_b, raw_b) = lemma_reduction_parts::<A>(t_b, q.sharpness, level, baseline, depth_b, r_b);
    lemma_excesses_are_close::<A>(hop, rate, p, q, t_a, t_b, level, baseline, excess_a, excess_b, flushed);
    lemma_slopes_rise::<A>(p.sharpness, q.sharpness, depth_a, depth_b, k_a, k_b);
    lemma_knees_are_close::<A>(excess_a, excess_b, k_a, k_b, t_a.knee, raw_a, raw_b, flushed);
    lemma_capped_are_close(raw_a, raw_b);
}

/// In every frame, asking for more in any way never reduces a band less, but for
/// rounding: what is lost is less than a four-hundredth of a dB.
pub proof fn lemma_asking_for_more_reduces_bands_no_less<A: Arith>(
    before: Detector,
    after_a: Detector,
    after_b: Detector,
    levels: Seq<Single>,
    p: DetectParams,
    q: DetectParams,
    centers: Seq<Single>,
    i: int,
)
    requires
        monotone::<A>(),
        repeats::<A>(),
        paced::<A>(before),
        all_moderate(before.baselines()),
        levels.len() == BANDS,
        all_moderate(levels),
        0 <= i < BANDS,
        centers[i].finite(),
        asks_for_no_less(p, q),
        unit(p.selectivity),
        unit(q.selectivity),
        p.selectivity.at_most(q.selectivity),
        unit(q.sharpness),
        unit(q.depth),
        after_a.steps_from::<A>(before, levels, p, centers),
        after_b.steps_from::<A>(before, levels, q, centers),
    ensures
        400 * (after_a.reductions()[i].steps() - after_b.reductions()[i].steps()) <= unity(),
{
    lemma_detector_is_whole(before);
    lemma_sizes();
    let m = median(window(levels, i));
    let (baseline, gain) = (before.baselines()[i], before.gains()[i]);
    let (a, b) = (after_a.step_at(i), after_b.step_at(i));
    let t_a = lemma_frame_of_band::<A>(before, after_a, levels, p, centers, i);
    let t_b = lemma_frame_of_band::<A>(before, after_b, levels, q, centers, i);
    lemma_median_is_moderate(levels, i);
    assert(moderate(levels[i]) && moderate(baseline));
    lemma_baseline_stays_moderate::<A>(t_a, p, centers[i], levels[i], m, baseline, gain, a);
    lemma_effective_depths_rise::<A>(t_a, t_b, p, q, centers[i], levels[i], m, baseline, gain, a, b);
    lemma_more_selectivity_reduces_no_less::<A>(
        before.hop(),
        before.rate(),
        p,
        q,
        t_a,
        t_b,
        levels[i],
        a.baseline,
        a.effective_depth,
        b.effective_depth,
        a.reduction_db,
        b.reduction_db,
    );
}

/// What two steps of a band have in common where the second asks for no less.
proof fn lemma_effective_depths_rise<A: Arith>(
    t_a: FrameTerms,
    t_b: FrameTerms,
    p: DetectParams,
    q: DetectParams,
    center: Single,
    level: Single,
    median: Single,
    baseline: Single,
    gain: Single,
    a: BandStep,
    b: BandStep,
)
    requires
        monotone::<A>(),
        repeats::<A>(),
        same(t_a.frame_time, t_b.frame_time),
        center.finite(),
        !a.baseline.nan(),
        asks_for_no_less(p, q),
        unit(q.depth),
        band_step_of::<A>(t_a, p, center, level, median, baseline, gain, a),
        band_step_of::<A>(t_b, q, center, level, median, baseline, gain, b),
    ensures
        a.baseline == b.baseline,
        unit(a.effective_depth),
        unit(b.effective_depth),
        a.effective_depth.at_most(b.effective_depth),
        reduction_of::<A>(t_a, p.sharpness, level, a.baseline, a.effective_depth, a.reduction_db),
        reduction_of::<A>(t_b, q.sharpness, level, b.baseline, b.effective_depth, b.reduction_db),
{
    lemma_sizes();
    let (scale, region) = lemma_step_parts::<A>(t_a, p, center, level, median, baseline, gain, a);
    let (scale2, region2) = lemma_step_parts::<A>(t_b, q, center, level, median, baseline, gain, b);
    lemma_scale::<A>(center, center, scale, scale2);
    let track = if baseline.below(median) {
        p.attack_ms
    } else {
        p.release_ms
    };
    lemma_glide::<A>(
        baseline,
        median,
        baseline,
        median,
        track,
        track,
        scale,
        scale2,
        t_a.frame_time,
        t_b.frame_time,
        a.baseline,
        b.baseline,
    );
    lemma_node_shape_is_unit::<A>(
        center,
        p.node_freqs@,
        p.node_depths@,
        p.node_shapes@,
        p.node_enabled@,
        region,
    );
    lemma_node_shape_is_unit::<A>(
        center,
        p.node_freqs@,
        q.node_depths@,
        p.node_shapes@,
        p.node_enabled@,
        region2,
    );
    lemma_deeper_nodes_shape_no_less::<A>(
        center,
        p.node_freqs@,
        p.node_depths@,
        q.node_depths@,
        p.node_shapes@,
        p.node_enabled@,
        region,
        region2,
    );
    lemma_unit_is_finite(p.depth);
    lemma_unit_is_finite(q.depth);
    assert(within(a.effective_depth, p.depth));
    assert(within(b.effective_depth, q.depth));
    assert(a.effective_depth.at_most(b.effective_depth));
}

// ----- The gain ---------------------------------------------------------------

/// In `A`, ten to the powers of two numbers up to zero lie apart by at most three times
/// as much as the numbers, but for a millionth.
pub open spec fn gentle_powers<A: Arith>() -> bool {
    forall|e: Single, f: Single, r: Single, q: Single|
        e.finite() && f.finite() && e.at_most(Single(ZERO)) && f.at_most(Single(ZERO)) && #[trigger] pow_of::<A>(
            Single(TEN),
            e,
            r,
        ) && #[trigger] pow_of::<A>(Single(TEN), f, q) ==> 1_000_000 * (q.steps() - r.steps()) <= 3_000_000 * apart(
            f.steps(),
            e.steps(),
        ) + unity()
}

/// The value 20 in steps.
proof fn lemma_twenty()
    ensures
        Single(TWENTY).steps() == 20 * unity(),
{
    lemma_sizes();
    let span = FRACTION_SPAN as int;
    lemma_fundamental_div_mod_converse(TWENTY as int, span, 131, 0x20_0000);
    lemma_pow2_adds(4, 126);
    lemma2_to64();
    assert((0x20_0000 + span) * (16 * pow2(126)) == 20 * (span * pow2(126))) by (nonlinear_arith)
        requires
            span == 0x80_0000,
    ;
}

/// The exponent of a gain lies close to a twentieth of the reduction.
proof fn lemma_exponent_is_close<A: Arith>(reduction: Single, e: Single, flushed: bool)
    requires
        monotone::<A>(),
        rounds::<A>(flushed),
        reduction.finite(),
        0 <= reduction.steps() <= 36 * unity(),
        over_of::<A>(reduction.opposite(), Single(TWENTY), e),
    ensures
        e.finite(),
        e.at_most(Single(ZERO)),
        FRACTION_SPAN * apart(20 * e.steps(), -reduction.steps()) <= 40 * unity(),
{
    lemma_sizes();
    lemma_twenty();
    lemma_opposite(reduction);
    let back = reduction.opposite();
    assert(back.finite());
    lemma_counts(back, flushed);
    lemma_not_subnormal(Single(TWENTY));
    let u = unity();
    let span = FRACTION_SPAN as int;
    let limit = Single(ROUNDING_LIMIT).steps();
    let c = counts(back, flushed);
    let top = Single(TWENTY).steps();
    assert(-36 * (u * u) <= c * u <= 0 && 36 * (u * u) <= limit * top) by (nonlinear_arith)
        requires
            -36 * u <= c <= 0,
            top == 20 * u,
            512 * u <= limit,
            u > 0,
    ;
    assert(rounds_ratio(c * u, top, e));
    lemma_ratio_error(c * u, top, e);
    let x = e.steps();
    let tiny = span * span;
    assert(tiny == 0x4000_0000_0000) by (nonlinear_arith)
        requires
            tiny == span * span,
            span == 0x80_0000,
    ;
    assert(x * top == (20 * x) * u) by (nonlinear_arith)
        requires
            top == 20 * u,
    ;
    let size = 36 * u + 19 * tiny;
    assert(36 * (u * u) + tiny * top == size * u + tiny * u) by (nonlinear_arith)
        requires
            size == 36 * u + 19 * tiny,
            top == 20 * u,
    ;
    lemma_error_divides(20 * x, c, u, size);
}

/// Of nearly the same reductions, the larger aims at no more gain, but for rounding.
proof fn lemma_targets_are_close<A: Arith>(red_a: Single, red_b: Single, t_a: Single, t_b: Single)
    requires
        monotone::<A>(),
        gentle_powers::<A>(),
        red_a.finite(),
        red_b.finite(),
        0 <= red_a.steps() <= 36 * unity(),
        0 <= red_b.steps() <= 36 * unity(),
        400 * (red_a.steps() - red_b.steps()) <= unity(),
        attenuation_of::<A>(red_a, t_a),
        attenuation_of::<A>(red_b, t_b),
    ensures
        2000 * (t_b.steps() - t_a.steps()) <= unity(),
{
    lemma_sizes();
    let flushed = choose|flushed: bool| #[trigger] rounds::<A>(flushed);
    let e_a = choose|e: Single| #[trigger]
        over_of::<A>(red_a.opposite(), Single(TWENTY), e) && pow_of::<A>(Single(TEN), e, t_a);
    let e_b = choose|e: Single| #[trigger]
        over_of::<A>(red_b.opposite(), Single(TWENTY), e) && pow_of::<A>(Single(TEN), e, t_b);
    lemma_exponent_is_close::<A>(red_a, e_a, flushed);
    lemma_exponent_is_close::<A>(red_b, e_b, flushed);
    if e_b.at_most(e_a) {
        assert(t_b.at_most(t_a));
    } else {
        assert(1_000_000 * (t_b.steps() - t_a.steps()) <= 3_000_000 * apart(e_b.steps(), e_a.steps()) + unity());
    }
}

/// What two steps of a follower come to, from one gain at one pace.
proof fn lemma_steps_are_close(
    way_a: int,
    held_a: int,
    step_a: int,
    way_b: int,
    held_b: int,
    step_b: int,
    c: int,
    u: int,
    d: int,
)
    requires
        0 <= c <= u,
        0 < u,
        64 * (FRACTION_SPAN * FRACTION_SPAN) <= u,
        0 <= d,
        apart(held_a, way_a) < FRACTION_SPAN,
        apart(held_b, way_b) < FRACTION_SPAN,
        apart(held_a, 0) <= u,
        apart(held_b, 0) <= u,
        FRACTION_SPAN * (way_b - way_a) <= FRACTION_SPAN * d + 3 * u,
        FRACTION_SPAN * apart(step_a * u, held_a * c) <= apart(held_a * c, 0) + FRACTION_SPAN * FRACTION_SPAN * u,
        FRACTION_SPAN * apart(step_b * u, held_b * c) <= apart(held_b * c, 0) + FRACTION_SPAN * FRACTION_SPAN * u,
    ensures
        FRACTION_SPAN * (step_b - step_a) <= FRACTION_SPAN * d + 8 * u,
{
    let span = FRACTION_SPAN as int;
    let tiny = span * span;
    assert(tiny == 0x4000_0000_0000) by (nonlinear_arith)
        requires
            tiny == span * span,
            span == 0x80_0000,
    ;
    let x = held_a * c;
    let y = held_b * c;
    assert(apart(x, 0) <= u * u && apart(y, 0) <= u * u) by (nonlinear_arith)
        requires
            x == held_a * c,
            y == held_b * c,
            0 <= c <= u,
            -u <= held_a <= u,
            -u <= held_b <= u,
    ;
    let g = held_b - held_a;
    let most = span * d + 4 * u;
    assert(span * g <= most);
    assert(0 <= span * d) by (nonlinear_arith)
        requires
            0 <= d,
            span > 0,
    ;
    assert(span * (y - x) <= most * u) by (nonlinear_arith)
        requires
            x == held_a * c,
            y == held_b * c,
            g == held_b - held_a,
            span * g <= most,
            0 <= most,
            0 <= c <= u,
    {
        assert(y - x == g * c) by (nonlinear_arith)
            requires
                x == held_a * c,
                y == held_b * c,
                g == held_b - held_a,
        ;
        assert(span * (g * c) == (span * g) * c) by (nonlinear_arith);
        assert((span * g) * c <= most * u) by (nonlinear_arith)
            requires
                span * g <= most,
                0 <= most,
                0 <= c <= u,
        ;
    }
    assert(64 * (tiny * u) <= u * u) by (nonlinear_arith)
        requires
            64 * tiny <= u,
            u > 0,
    ;
    assert(span * (step_b * u) - span * (step_a * u) <= most * u + 3 * (u * u)) by {
        assert(step_b * u - step_a * u <= (y - x) + apart(step_a * u, x) + apart(step_b * u, y));
    }
    assert(span * (step_b - step_a) <= most + 3 * u) by (nonlinear_arith)
        requires
            span * (step_b * u) - span * (step_a * u) <= most * u + 3 * (u * u),
            u > 0,
    ;
}

/// One frame's way from a gain to a target, and the step on it.
proof fn lemma_step_is_close<A: Arith>(
    gain: Single,
    target: Single,
    c: Single,
    r: Single,
    way: Single,
    step: Single,
    flushed: bool,
)
    requires
        monotone::<A>(),
        rounds::<A>(flushed),
        unit(gain),
        unit(target),
        unit(c),
        minus_of::<A>(target, gain, way),
        times_of::<A>(way, c, step),
        plus_of::<A>(gain, step, r),
    ensures
        way.finite(),
        step.finite(),
        apart(way.steps(), 0) <= unity(),
        apart(step.steps(), 0) <= apart(way.steps(), 0),
        FRACTION_SPAN * apart(way.steps(), target.steps() - gain.steps()) <= unity() + 4 * (FRACTION_SPAN
            * FRACTION_SPAN),
        FRACTION_SPAN * apart(step.steps() * unity(), counts(way, flushed) * counts(c, flushed)) <= apart(
            counts(way, flushed) * counts(c, flushed),
            0,
        ) + FRACTION_SPAN * FRACTION_SPAN * unity(),
        r.finite(),
        FRACTION_SPAN * apart(r.steps(), gain.steps() + step.steps()) <= 2 * unity() + 4 * (FRACTION_SPAN
            * FRACTION_SPAN),
{
    lemma_sizes();
    lemma_unit_is_finite(gain);
    lemma_unit_is_finite(target);
    lemma_unit_is_finite(c);
    lemma_counts(gain, flushed);
    lemma_counts(target, flushed);
    let u = unity();
    let limit = Single(ROUNDING_LIMIT).steps();
    let d = counts(target, flushed) - counts(gain, flushed);
    assert(rounds_to(d, way));
    lemma_rounding_error(d, way);
    assert(Single(ONE).finite());
    lemma_rounding_stays(d, way, Single(ONE));
    assert(within(step, way));
    lemma_counts(way, flushed);
    lemma_counts(c, flushed);
    let (w, k) = (counts(way, flushed), counts(c, flushed));
    assert(apart(w * k, 0) <= limit * u) by (nonlinear_arith)
        requires
            -u <= w <= u,
            0 <= k <= u,
            u <= limit,
    ;
    assert(rounds_product(w * k, step));
    lemma_product_error(w * k, step);
    lemma_counts(step, flushed);
    let x = counts(gain, flushed) + counts(step, flushed);
    assert(rounds_to(x, r));
    lemma_rounding_error(x, r);
    let span = FRACTION_SPAN as int;
    assert(span * span == 0x4000_0000_0000) by (nonlinear_arith)
        requires
            span == 0x80_0000,
    ;
}

/// A gain that follows a target no higher than another, but for rounding, is no higher,
/// but for rounding.
proof fn lemma_gains_are_close<A: Arith>(
    gain: Single,
    high: Single,
    low: Single,
    t: FrameTerms,
    scale: Single,
    other: Single,
    r: Single,
    q: Single,
)
    requires
        monotone::<A>(),
        repeats::<A>(),
        lasting(t),
        unit(gain),
        unit(high),
        unit(low),
        2000 * (low.steps() - high.steps()) <= unity(),
        same(scale, other),
        glide_of::<A>(
            gain,
            high,
            if high.below(gain) {
                t.attack_ms
            } else {
                t.release_ms
            },
            scale,
            t.frame_time,
            r,
        ),
        glide_of::<A>(
            gain,
            low,
            if low.below(gain) {
                t.attack_ms
            } else {
                t.release_ms
            },
            other,
            t.frame_time,
            q,
        ),
    ensures
        900 * (q.steps() - r.steps()) <= unity(),
{
    lemma_sizes();
    if low.at_most(high) {
        lemma_follows_lower::<A>(gain, high, low, t, scale, other, r, q);
    } else {
        let ms_a = if high.below(gain) {
            t.attack_ms
        } else {
            t.release_ms
        };
        let ms_b = if low.below(gain) {
            t.attack_ms
        } else {
            t.release_ms
        };
        let u = unity();
        let span = FRACTION_SPAN as int;
        let flushed = choose|flushed: bool| #[trigger] rounds::<A>(flushed);
        lemma_unit_is_moderate(gain);
        lemma_unit_is_moderate(high);
        lemma_unit_is_moderate(low);
        let (time_a, c_a) = lemma_glide_parts::<A>(gain, high, ms_a, scale, t, r);
        let (time_b, c_b) = lemma_glide_parts::<A>(gain, low, ms_b, other, t, q);
        let (way_a, step_a) = lemma_follow_parts::<A>(gain, high, c_a, r);
        let (way_b, step_b) = lemma_follow_parts::<A>(gain, low, c_b, q);
        lemma_step_is_close::<A>(gain, high, c_a, r, way_a, step_a, flushed);
        lemma_step_is_close::<A>(gain, low, c_b, q, way_b, step_b, flushed);
        assert(span * span == 0x4000_0000_0000) by (nonlinear_arith)
            requires
                span == 0x80_0000,
        ;
        let d = low.steps() - high.steps();
        if high.below(gain) == low.below(gain) {
            assert(same(time_a, time_b));
            lemma_coef::<A>(time_a, t.frame_time, time_b, t.frame_time, c_a, c_b);
            assert(c_a == c_b);
            lemma_unit_is_finite(c_a);
            lemma_counts(c_a, flushed);
            lemma_counts(way_a, flushed);
            lemma_counts(way_b, flushed);
            lemma_steps_are_close(
                way_a.steps(),
                counts(way_a, flushed),
                step_a.steps(),
                way_b.steps(),
                counts(way_b, flushed),
                step_b.steps(),
                counts(c_a, flushed),
                u,
                d,
            );
        } else {
            assert(step_b.steps() <= way_b.steps() || step_b.steps() <= 0);
        }
    }
}

/// Parameters that ask for the same times give the same times.
proof fn lemma_times_agree<A: Arith>(
    hop: Single,
    rate: Single,
    p: DetectParams,
    q: DetectParams,
    t_a: FrameTerms,
    t_b: FrameTerms,
)
    requires
        repeats::<A>(),
        p.attack_ms == q.attack_ms,
        p.release_ms == q.release_ms,
        lasting(t_a),
        frame_terms_of::<A>(hop, rate, p, t_a),
        frame_terms_of::<A>(hop, rate, q, t_b),
    ensures
        t_a.frame_time == t_b.frame_time,
        t_a.attack_ms == t_b.attack_ms,
        t_a.release_ms == t_b.release_ms,
{
    lemma_sizes();
    lemma_magnitude_orders(Single(HALF), Single(FIVE));
}

/// In every frame, asking for more in any way never leaves a band more gain, but for
/// rounding: target and gain are no higher by a nine-hundredth.
pub proof fn lemma_asking_for_more_is_no_louder<A: Arith>(
    before: Detector,
    after_a: Detector,
    after_b: Detector,
    levels: Seq<Single>,
    p: DetectParams,
    q: DetectParams,
    centers: Seq<Single>,
    i: int,
)
    requires
        monotone::<A>(),
        repeats::<A>(),
        gentle_powers::<A>(),
        paced::<A>(before),
        all_unit(before.gains()),
        all_moderate(before.baselines()),
        levels.len() == BANDS,
        all_moderate(levels),
        0 <= i < BANDS,
        centers[i].finite(),
        downward(p),
        downward(q),
        asks_for_no_less(p, q),
        unit(p.selectivity),
        unit(q.selectivity),
        p.selectivity.at_most(q.selectivity),
        unit(q.sharpness),
        unit(q.depth),
        after_a.steps_from::<A>(before, levels, p, centers),
        after_b.steps_from::<A>(before, levels, q, centers),
    ensures
        900 * (after_b.target_gains()[i].steps() - after_a.target_gains()[i].steps()) <= unity(),
        900 * (after_b.gains()[i].steps() - after_a.gains()[i].steps()) <= unity(),
{
    lemma_detector_is_whole(before);
    lemma_asking_for_more_reduces_bands_no_less::<A>(before, after_a, after_b, levels, p, q, centers, i);
    let m = median(window(levels, i));
    let (center, level) = (centers[i], levels[i]);
    let (baseline, gain) = (before.baselines()[i], before.gains()[i]);
    let (a, b) = (after_a.step_at(i), after_b.step_at(i));
    let t_a = lemma_frame_of_band::<A>(before, after_a, levels, p, centers, i);
    let t_b = lemma_frame_of_band::<A>(before, after_b, levels, q, centers, i);
    lemma_times_agree::<A>(before.hop(), before.rate(), p, q, t_a, t_b);
    assert(unit(gain));
    lemma_band_is_only_reduced::<A>(t_a, p, center, level, m, baseline, gain, a);
    lemma_band_is_only_reduced::<A>(t_b, q, center, level, m, baseline, gain, b);
    let (scale, _) = lemma_step_parts::<A>(t_a, p, center, level, m, baseline, gain, a);
    let (scale2, _) = lemma_step_parts::<A>(t_b, q, center, level, m, baseline, gain, b);
    lemma_scale::<A>(center, center, scale, scale2);
    lemma_sizes();
    lemma_thirty_six();
    lemma_magnitude_orders(Single(THIRTY_SIX), a.reduction_db);
    lemma_magnitude_orders(Single(THIRTY_SIX), b.reduction_db);
    lemma_targets_are_close::<A>(a.reduction_db, b.reduction_db, a.target_gain, b.target_gain);
    lemma_gains_are_close::<A>(gain, a.target_gain, b.target_gain, t_a, scale, scale2, a.gain, b.gain);
}

} // verus!
