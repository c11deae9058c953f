//! What the filters do to the frequencies they are tuned to.
//!
//! The laws here hold for every arithmetic that is accurate, turns in circles and takes
//! powers of ten as powers.

use vstd::prelude::*;
use crate::arith::{cos_of, log10_of, minus_of, over_of, plus_of, pow_of, sin_of, times_of, Arith};
use crate::dsp::filters::{
    cascade_of, filter_target_of, gains_set_of, peak_of, peak_shape_of, ramp_step_of, synth_rate_of, Biquad,
    CascadeState, Coeffs, FilterTarget, UNITY_FLOOR,
};
use crate::dsp::suppressor::wet_of;
use crate::dsp::BANDS;
use crate::exact::{
    accurate, close, lemma_difference_is_close, lemma_divided, lemma_error_scales, lemma_over, lemma_product_is_close,
    lemma_product_is_positive, lemma_product_rises, lemma_product_size, lemma_quotient, lemma_quotient_is_close,
    lemma_product_groups, lemma_spread, lemma_sum_is_close, lemma_value_orders, lemma_values, size, usual, value,
};
use crate::numbers::{
    FORTY, HALF, MINUS_TWO, ONE, ONE_TEN_THOUSANDTH, ONE_THOUSANDTH, TEN, TWENTY, TWO, TWO_PI,
};
use crate::single::Single;

verus! {

/// Sine and cosine of `A` lie on the unit circle, and the sine of an angle up to half a
/// turn is not below zero.
pub open spec fn circles<A: Arith>() -> bool {
    &&& forall|w: Single, c: Single|
        usual(w) && #[trigger] cos_of::<A>(w, c) ==> c.finite() && size(value(c)) <= 1real
    &&& forall|w: Single, s: Single|
        usual(w) && #[trigger] sin_of::<A>(w, s) ==> s.finite() && size(value(s)) <= 1real
    &&& forall|w: Single, s: Single|
        usual(w) && 0real <= value(w) && 10_000real * value(w) <= 31_415real && #[trigger] sin_of::<A>(w, s)
            ==> value(s) >= 0real
    &&& forall|w: Single, c: Single, s: Single|
        usual(w) && size(value(w)) <= 10real && #[trigger] cos_of::<A>(w, c) && #[trigger] sin_of::<A>(w, s)
            ==> 1_000_000real * size(value(c) * value(c) + value(s) * value(s) - 1real) <= 1real
}

/// Powers of ten of `A` are positive, and that of twice an exponent is the square.
pub open spec fn powers<A: Arith>() -> bool {
    &&& forall|e: Single, a: Single|
        e.finite() && size(value(e)) <= 5real && #[trigger] pow_of::<A>(Single(TEN), e, a) ==> a.finite()
            && 1_000_000real * value(a) >= 1real && value(a) <= 1_000_000real
    &&& forall|e: Single, f: Single, a: Single, g: Single|
        e.finite() && f.finite() && size(value(e)) <= 5real && size(value(f)) <= 5real && 10real * size(
            value(f) - 2real * value(e),
        ) <= 1real && #[trigger] pow_of::<A>(Single(TEN), e, a) && #[trigger] pow_of::<A>(Single(TEN), f, g)
            ==> 100_000real * size(value(a) * value(a) - value(g)) <= value(g) * (300_000real * size(
            value(f) - 2real * value(e),
        ) + 1real)
}

/// Logarithms of `A` are those of its powers of ten: of half a logarithm, the power is the
/// root.
pub open spec fn logarithms<A: Arith>() -> bool {
    &&& forall|x: Single, l: Single|
        x.finite() && 100_000real * value(x) >= 1real && value(x) <= 100_000real && #[trigger] log10_of::<A>(x, l)
            ==> l.finite() && size(value(l)) <= 6real
    &&& forall|x: Single, l: Single, e: Single, a: Single|
        x.finite() && 100_000real * value(x) >= 1real && value(x) <= 100_000real && e.finite() && 10real * size(
            2real * value(e) - value(l),
        ) <= 1real && #[trigger] log10_of::<A>(x, l) && #[trigger] pow_of::<A>(Single(TEN), e, a) ==> 100_000real
            * size(value(a) * value(a) - value(x)) <= value(x) * (300_000real * size(2real * value(e) - value(l))
            + 1real)
}

// ----- The peak ---------------------------------------------------------------

/// One and a share, over the last coefficient.
proof fn lemma_part(p: real, v: real, n: real, t: real, a0: real, m: real)
    requires
        8_000_000real * size(v - p) <= size(p) + 1real / 1_000_000_000_000real,
        8_000_000real * size(n - (1real + v)) <= size(1real + v) + 1real / 1_000_000_000_000real,
        8_000_000real * size(t - n) <= size(n) + size(a0) / 1_000_000_000_000real,
        size(a0) <= 2real * (1real + m),
        0real <= m,
    ensures
        2_000_000real * size(t - (1real + p)) <= 1real + size(p) + m,
{
}

/// The last coefficient before it is one.
proof fn lemma_whole(m: real, v: real, a0: real)
    requires
        -m <= 1real / 1_000_000real,
        8_000_000real * size(v - m) <= size(m) + 1real / 1_000_000_000_000real,
        8_000_000real * size(a0 - (1real + v)) <= size(1real + v) + 1real / 1_000_000_000_000real,
    ensures
        2real * a0 >= 1real + size(m),
        a0 <= 2real * (1real + size(m)),
        1_000_000real * size(a0 - (1real + m)) <= 1real + size(m),
{
}

/// How large a width is times and over an amplitude.
proof fn lemma_widths(x: real, y: real)
    requires
        1_000_000real * x >= 1real,
        x <= 1_000_000real,
        -1real / 1_000_000_000_000_000_000real <= y <= 600real,
    ensures
        size(y * x) <= 600_000_000real,
        size(y / x) <= 600_000_000real,
        -(y * x) <= 1real / 1_000_000real,
        -(y / x) <= 1real / 1_000_000real,
{
    lemma_product_size(y, x, 600real, 1_000_000real);
    lemma_quotient(y, x);
    let m = y / x;
    lemma_divided(m, x, 600_000_000real);
    if y < 0real {
        lemma_product_size(y, x, 1real / 1_000_000_000_000_000_000real, 1_000_000real);
        lemma_divided(m, x, 1real / 1_000_000real);
    } else {
        lemma_product_rises(0real, y, x);
        if m < 0real {
            lemma_product_is_positive(-m, x);
            lemma_spread(x, m, 0real, 0real);
        }
    }
}

/// One coefficient: `v` over one, which stands for `p`, over the last coefficient.
proof fn lemma_coeff<A: Arith>(n: Single, a0: Single, r: Single, v: real, p: real, m: real)
    requires
        accurate::<A>(),
        usual(n),
        usual(a0),
        8_000_000real * size(v - p) <= size(p) + 1real / 1_000_000_000_000real,
        close(n, 1real + v),
        2real * value(a0) >= 1real + size(m),
        value(a0) <= 2real * (1real + size(m)),
        over_of::<A>(n, a0, r),
    ensures
        r.finite(),
        1_000_000real * size(value(r) * value(a0) - (1real + p)) <= 1real + size(p) + size(m),
{
    lemma_over::<A>(n, a0, r);
    lemma_part(p, v, value(n), value(r) * value(a0), value(a0), size(m));
}

/// One coefficient of the middle.
proof fn lemma_middle<A: Arith>(b1: Single, a0: Single, r: Single, cw: real, m: real)
    requires
        accurate::<A>(),
        usual(b1),
        usual(a0),
        size(cw) <= 1real,
        close(b1, -2real * cw),
        2real * value(a0) >= 1real + size(m),
        value(a0) <= 2real * (1real + size(m)),
        over_of::<A>(b1, a0, r),
    ensures
        r.finite(),
        1_000_000real * size(value(r) * value(a0) + 2real * cw) <= 2real + size(m),
{
    lemma_over::<A>(b1, a0, r);
}

/// One more or less by a share, for a share of moderate size.
proof fn lemma_one_and<A: Arith>(v: Single, more: Single, less: Single)
    requires
        accurate::<A>(),
        v.finite(),
        size(value(v)) <= 700_000_000real,
        plus_of::<A>(Single(ONE), v, more),
        minus_of::<A>(Single(ONE), v, less),
    ensures
        close(more, 1real + value(v)),
        close(less, 1real - value(v)),
        usual(more),
        usual(less),
{
    lemma_values();
    lemma_sum_is_close::<A>(Single(ONE), v, more);
    lemma_difference_is_close::<A>(Single(ONE), v, less);
}

/// The width times and over the amplitude.
proof fn lemma_up_and_down<A: Arith>(a: Single, alpha: Single, up: Single, down: Single)
    requires
        accurate::<A>(),
        a.finite(),
        1_000_000real * value(a) >= 1real,
        value(a) <= 1_000_000real,
        alpha.finite(),
        -1real / 1_000_000_000_000_000_000real <= value(alpha) <= 600real,
        times_of::<A>(alpha, a, up),
        over_of::<A>(alpha, a, down),
    ensures
        close(up, value(alpha) * value(a)),
        close(down, value(alpha) / value(a)),
        size(value(up)) <= 700_000_000real,
        size(value(down)) <= 700_000_000real,
{
    lemma_widths(value(a), value(alpha));
    lemma_product_is_close::<A>(alpha, a, up);
    lemma_quotient_is_close::<A>(alpha, a, down);
}

/// What the coefficients of a peak come to, times the last of them before they are
/// normalised. `p` and `m` are the width times and over the amplitude.
proof fn lemma_shape<A: Arith>(a: Single, cw: Single, alpha: Single, c: Coeffs, p: real, m: real) -> (a0: real)
    requires
        accurate::<A>(),
        a.finite(),
        1_000_000real * value(a) >= 1real,
        value(a) <= 1_000_000real,
        cw.finite(),
        size(value(cw)) <= 1real,
        alpha.finite(),
        -1real / 1_000_000_000_000_000_000real <= value(alpha) <= 600real,
        p == value(alpha) * value(a),
        m == value(alpha) / value(a),
        peak_shape_of::<A>(a, cw, alpha, c),
    ensures
        2real * a0 >= 1real + size(m),
        1_000_000real * size(a0 - (1real + m)) <= 1real + size(m),
        1_000_000real * size(value(c.b0) * a0 - (1real + p)) <= 1real + size(p) + size(m),
        1_000_000real * size(value(c.b2) * a0 - (1real - p)) <= 1real + size(p) + size(m),
        1_000_000real * size(value(c.a2) * a0 - (1real - m)) <= 1real + 2real * size(m),
        1_000_000real * size(value(c.b1) * a0 + 2real * value(cw)) <= 2real + size(m),
        1_000_000real * size(value(c.a1) * a0 + 2real * value(cw)) <= 2real + size(m),
        -p <= 1real / 1_000_000real,
        -m <= 1real / 1_000_000real,
{
    lemma_values();
    let (up, down, b0, b1, b2, a0, a2) = choose|up: Single, down: Single, b0: Single, b1: Single, b2: Single, a0: Single, a2: Single|
        {
            &&& #[trigger] times_of::<A>(alpha, a, up)
            &&& #[trigger] over_of::<A>(alpha, a, down)
            &&& #[trigger] plus_of::<A>(Single(ONE), up, b0)
            &&& #[trigger] times_of::<A>(Single(MINUS_TWO), cw, b1)
            &&& #[trigger] minus_of::<A>(Single(ONE), up, b2)
            &&& #[trigger] plus_of::<A>(Single(ONE), down, a0)
            &&& #[trigger] minus_of::<A>(Single(ONE), down, a2)
            &&& over_of::<A>(b0, a0, c.b0)
            &&& over_of::<A>(b1, a0, c.b1)
            &&& over_of::<A>(b2, a0, c.b2)
            &&& over_of::<A>(b1, a0, c.a1)
            &&& over_of::<A>(a2, a0, c.a2)
        };
    lemma_widths(value(a), value(alpha));
    lemma_up_and_down::<A>(a, alpha, up, down);
    lemma_one_and::<A>(up, b0, b2);
    lemma_one_and::<A>(down, a0, a2);
    lemma_product_is_close::<A>(Single(MINUS_TWO), cw, b1);
    lemma_whole(m, value(down), value(a0));
    let cosine = value(cw);
    assert(close(b1, -2real * cosine) && usual(b1));
    lemma_coeff::<A>(b0, a0, c.b0, value(up), p, m);
    lemma_coeff::<A>(b2, a0, c.b2, -value(up), -p, m);
    lemma_coeff::<A>(a2, a0, c.a2, -value(down), -m, m);
    lemma_middle::<A>(b1, a0, c.b1, cosine, m);
    lemma_middle::<A>(b1, a0, c.a1, cosine, m);
    value(a0)
}

/// How far the laws on coefficients let them be off, times ten thousand.
pub open spec fn leeway(c: Coeffs, g: real) -> real {
    1real + size(value(c.b0)) + g
}

/// At the angle with this cosine, the filter lets the share `g` of the amplitude through,
/// in phase. With `z` on the unit circle there, `z` times the numerator is
/// `(b0 + b2) * cosine + b1` ahead and `(b0 - b2) * sine` aside, and `z` times the
/// denominator is `(1 + a2) * cosine + a1` ahead and `(1 - a2) * sine` aside: nothing is
/// left ahead, and aside the numerator is `g` times the denominator.
pub open spec fn passes(c: Coeffs, cosine: real, g: real) -> bool {
    &&& 10_000real * size((value(c.b0) + value(c.b2)) * cosine + value(c.b1)) <= leeway(c, g)
    &&& 10_000real * size((1real + value(c.a2)) * cosine + value(c.a1)) <= leeway(c, g)
    &&& 10_000real * size((value(c.b0) - value(c.b2)) - g * (1real - value(c.a2))) <= leeway(c, g)
}

/// At both ends of the spectrum the filter changes nothing: numerator and denominator are
/// the same at 0 and at half the rate.
pub open spec fn keeps_ends(c: Coeffs, g: real) -> bool {
    &&& 10_000real * size((value(c.b0) + value(c.b1) + value(c.b2)) - (1real + value(c.a1) + value(c.a2))) <= leeway(
        c,
        g,
    )
    &&& 10_000real * size((value(c.b0) - value(c.b1) + value(c.b2)) - (1real - value(c.a1) + value(c.a2))) <= leeway(
        c,
        g,
    )
}

/// As [`turns_by`], with half the error.
spec fn turns_closely_by(w: Single, f0: Single, fs: real) -> bool {
    w.finite() && 1_000_000real * size(value(w) * fs - value(Single(TWO_PI)) * value(f0)) <= (value(Single(TWO_PI))
        * value(f0) + 1real) / 2real && 0real <= value(Single(TWO_PI)) * value(f0)
}

/// `w` is the angle by which a tone of `f0` turns from one sample to the next, at `fs`
/// samples a second.
pub open spec fn turns_by(w: Single, f0: Single, fs: real) -> bool {
    w.finite() && 1_000_000real * size(value(w) * fs - value(Single(TWO_PI)) * value(f0)) <= value(Single(TWO_PI))
        * value(f0) + 1real
}

/// A frequency from a thousandth of a Hz up, and below half the rate.
pub open spec fn within_spectrum(f0: Single, fs: Single) -> bool {
    &&& f0.finite()
    &&& fs.finite()
    &&& 1real <= 1000real * value(f0)
    &&& 1000real * value(f0) <= 499real * value(fs)
    &&& 1real <= value(fs) <= 1_000_000real
}

/// How much room the first coefficient gives for errors.
proof fn lemma_room(b0: real, a0: real, p: real, m: real)
    requires
        2real * a0 >= 1real + size(m),
        1_000_000real * size(a0 - (1real + m)) <= 1real + size(m),
        1_000_000real * size(b0 * a0 - (1real + p)) <= 1real + size(p) + size(m),
        -p <= 1real / 1_000_000real,
        -m <= 1real / 1_000_000real,
    ensures
        1real + size(p) + size(m) <= 2real * ((1real + size(b0)) * a0),
{
    lemma_product_size(b0, a0, size(b0), size(a0));
    let room = (1real + size(b0)) * a0;
    assert(room == a0 + size(b0 * a0)) by (nonlinear_arith)
        requires
            room == (1real + size(b0)) * a0,
            size(b0 * a0) == size(b0) * size(a0),
            a0 > 0real,
    ;
}

/// What is small next to the room is small.
proof fn lemma_small_coeff(x: real, b0: real, a0: real, t: real)
    requires
        a0 > 0real,
        t <= 2real * ((1real + size(b0)) * a0),
        1_000_000real * size(x * a0) <= 40real * t,
    ensures
        10_000real * size(x) <= 1real + size(b0),
{
    let k = (1real + size(b0)) / 10_000real;
    assert(k * a0 == ((1real + size(b0)) * a0) / 10_000real) by (nonlinear_arith)
        requires
            k == (1real + size(b0)) / 10_000real,
    ;
    lemma_divided(x, a0, k);
}

/// What is left ahead of numerator or denominator.
proof fn lemma_nothing_ahead(u: real, v: real, w: real, cw: real, a0: real, t: real)
    requires
        size(cw) <= 1real,
        1_000_000real * size(u * a0 + v * a0 - 2real) <= 3real * t,
        1_000_000real * size(w * a0 + 2real * cw) <= 2real * t,
    ensures
        1_000_000real * size(((u + v) * cw + w) * a0) <= 5real * t,
{
    let both = u * a0 + v * a0;
    let e = 3real * t / 1_000_000real;
    lemma_error_scales(cw, both, 2real, e);
    assert(size(cw) * e <= e) by (nonlinear_arith)
        requires
            0real <= size(cw) <= 1real,
            e >= 0real,
    ;
    let x = (u + v) * cw + w;
    assert(x * a0 == cw * both + w * a0) by (nonlinear_arith)
        requires
            x == (u + v) * cw + w,
            both == u * a0 + v * a0,
    ;
    assert(cw * 2real == 2real * cw) by (nonlinear_arith);
}

/// Errors that add up.
proof fn lemma_two_errors(x: real, y: real, u: real, v: real, e: real, f: real)
    requires
        1_000_000real * size(x - u) <= e,
        1_000_000real * size(y - v) <= f,
    ensures
        1_000_000real * size(x + y - (u + v)) <= e + f,
        1_000_000real * size(x - y - (u - v)) <= e + f,
{
}

/// The parts that do not go by the gain.
#[verifier::spinoff_prover]
#[verifier::rlimit(40)]
proof fn lemma_shape_center(c: Coeffs, cw: real, a0: real, p: real, m: real, g: real)
    requires
        2real * a0 >= 1real + size(m),
        1_000_000real * size(a0 - (1real + m)) <= 1real + size(m),
        1_000_000real * size(value(c.b0) * a0 - (1real + p)) <= 1real + size(p) + size(m),
        1_000_000real * size(value(c.b2) * a0 - (1real - p)) <= 1real + size(p) + size(m),
        1_000_000real * size(value(c.a2) * a0 - (1real - m)) <= 1real + 2real * size(m),
        1_000_000real * size(value(c.b1) * a0 + 2real * cw) <= 2real + size(m),
        1_000_000real * size(value(c.a1) * a0 + 2real * cw) <= 2real + size(m),
        1real + size(p) + size(m) <= 2real * ((1real + size(value(c.b0))) * a0),
        size(cw) <= 1real,
        g >= 0real,
    ensures
        10_000real * size((value(c.b0) + value(c.b2)) * cw + value(c.b1)) <= leeway(c, g),
        10_000real * size((1real + value(c.a2)) * cw + value(c.a1)) <= leeway(c, g),
        keeps_ends(c, g),
{
    let (b0, b1, b2, a1, a2) = (value(c.b0), value(c.b1), value(c.b2), value(c.a1), value(c.a2));
    let t = 1real + size(p) + size(m);
    assert(size(p) >= 0real && size(m) >= 0real);
    let (p0, p1, p2, q1, q2) = (b0 * a0, b1 * a0, b2 * a0, a1 * a0, a2 * a0);
    assert(1real * a0 == a0) by (nonlinear_arith);
    lemma_two_errors(p0, p2, 1real + p, 1real - p, t, t);
    lemma_two_errors(a0, q2, 1real + m, 1real - m, t, 2real * t);
    lemma_two_errors(p1, q1, -2real * cw, -2real * cw, 2real * t, 2real * t);
    lemma_two_errors(p0 + p2, a0 + q2, 2real, 2real, 2real * t, 3real * t);
    lemma_two_errors(p0 + p2 - (a0 + q2), p1 - q1, 0real, 0real, 5real * t, 4real * t);
    lemma_nothing_ahead(b0, b2, b1, cw, a0, t);
    lemma_small_coeff((b0 + b2) * cw + b1, b0, a0, t);
    lemma_nothing_ahead(1real, a2, a1, cw, a0, t);
    lemma_small_coeff((1real + a2) * cw + a1, b0, a0, t);
    let low = (b0 + b1 + b2) - (1real + a1 + a2);
    let high = (b0 - b1 + b2) - (1real - a1 + a2);
    assert(low * a0 == p0 + p1 + p2 - a0 - q1 - q2 && high * a0 == p0 - p1 + p2 - a0 + q1 - q2) by (nonlinear_arith)
        requires
            low == (b0 + b1 + b2) - (1real + a1 + a2),
            high == (b0 - b1 + b2) - (1real - a1 + a2),
            p0 == b0 * a0,
            p1 == b1 * a0,
            p2 == b2 * a0,
            q1 == a1 * a0,
            q2 == a2 * a0,
    ;
    lemma_small_coeff(low, b0, a0, t);
    lemma_small_coeff(high, b0, a0, t);
}

/// The part that goes by the gain.
proof fn lemma_shape_gain(c: Coeffs, a0: real, p: real, m: real, a: real, g: real)
    requires
        2real * a0 >= 1real + size(m),
        1_000_000real * size(a0 - (1real + m)) <= 1real + size(m),
        1_000_000real * size(value(c.b0) * a0 - (1real + p)) <= 1real + size(p) + size(m),
        1_000_000real * size(value(c.b2) * a0 - (1real - p)) <= 1real + size(p) + size(m),
        1_000_000real * size(value(c.a2) * a0 - (1real - m)) <= 1real + 2real * size(m),
        1real + size(p) + size(m) <= 2real * ((1real + size(value(c.b0))) * a0),
        p == m * (a * a),
        g > 0real,
        100_000real * size(a * a - g) <= 2real * g,
    ensures
        10_000real * size((value(c.b0) - value(c.b2)) - g * (1real - value(c.a2))) <= leeway(c, g),
{
    let (b0, b2, a2) = (value(c.b0), value(c.b2), value(c.a2));
    let t = 1real + size(p) + size(m);
    let (mg, sq) = (size(m) * g, a * a);
    lemma_gain_of_width(m, sq, g);
    let wide = a0 - a2 * a0;
    lemma_two_errors(a0, a2 * a0, 1real + m, 1real - m, 1real + size(m), 1real + 2real * size(m));
    lemma_two_errors(b0 * a0, b2 * a0, 1real + p, 1real - p, t, t);
    lemma_gain_of_rest(g, wide, m);
    let z = (b0 - b2) - g * (1real - a2);
    lemma_less(b0, b2, g, a2, a0);
    lemma_spread(a0, 1real + size(b0), g, 0real);
    lemma_spread(a0, g, 0real, 0real);
    lemma_product_rises(1real / 2real, a0, g);
    lemma_gain_adds_up(z * a0, b0 * a0 - b2 * a0, g * wide, p, m * g, mg, g, t);
    let w = 1real + size(b0) + g;
    assert(w / 10_000real * a0 == w * a0 / 10_000real) by (nonlinear_arith);
    lemma_divided(z, a0, w / 10_000real);
}

/// What the gain is off, times the scale of the coefficients.
proof fn lemma_less(b0: real, b2: real, g: real, a2: real, a0: real)
    ensures
        ((b0 - b2) - g * (1real - a2)) * a0 == b0 * a0 - b2 * a0 - g * (a0 - a2 * a0),
{
    assert(((b0 - b2) - g * (1real - a2)) * a0 == b0 * a0 - b2 * a0 - g * (a0 - a2 * a0)) by (nonlinear_arith);
}

/// The width times the gain is close to the width times the square of its root.
proof fn lemma_gain_of_width(m: real, sq: real, g: real)
    requires
        g > 0real,
        100_000real * size(sq - g) <= 2real * g,
    ensures
        100_000real * size(m * sq - m * g) <= 2real * (size(m) * g),
        size(m * g) == size(m) * g,
        100real * (size(m) * g) <= 101real * size(m * sq),
        0real <= size(m) * g,
{
    let e = 2real * g / 100_000real;
    lemma_error_scales(m, sq, g, e);
    lemma_product_size(m, g, size(m), g);
    let n = size(m);
    assert(n * (2real * g / 100_000real) == 2real * (n * g) / 100_000real) by (nonlinear_arith);
    lemma_product_rises(0real, n, g);
}

/// What is left of the denominator aside, times the gain.
proof fn lemma_gain_of_rest(g: real, wide: real, m: real)
    requires
        g > 0real,
        1_000_000real * size(wide - 2real * m) <= 2real + 3real * size(m),
    ensures
        1_000_000real * size(g * wide - 2real * (m * g)) <= 2real * g + 3real * (size(m) * g),
{
    let n = size(m);
    let e = (2real + 3real * n) / 1_000_000real;
    lemma_error_scales(g, wide, 2real * m, e);
    lemma_spread(g, m, 0real, 0real);
    assert(g * ((2real + 3real * n) / 1_000_000real) == (2real * g + 3real * (n * g)) / 1_000_000real) by (
    nonlinear_arith);
}

/// The errors of the gain, added up.
proof fn lemma_gain_adds_up(za: real, num: real, den: real, p: real, mg: real, size_mg: real, g: real, t: real)
    requires
        za == num - den,
        1_000_000real * size(num - 2real * p) <= 2real * t,
        1_000_000real * size(den - 2real * mg) <= 2real * g + 3real * size_mg,
        100_000real * size(p - mg) <= 2real * size_mg,
        100real * size_mg <= 101real * size(p),
        size(p) <= t,
        g > 0real,
        t >= 1real,
    ensures
        10_000real * size(za) <= t / 2real + g / 2real,
{
}

/// The width of a peak, from the sine of its angle and its quality.
proof fn lemma_alpha<A: Arith>(sw: Single, q: Single, width: Single, alpha: Single)
    requires
        accurate::<A>(),
        sw.finite(),
        0real <= value(sw) <= 1real,
        q.finite(),
        999_999real < 1_000_000_000real * value(q),
        value(q) <= 1000real,
        times_of::<A>(Single(TWO), q, width),
        over_of::<A>(sw, width, alpha),
    ensures
        alpha.finite(),
        -1real / 1_000_000_000_000_000_000real <= value(alpha) <= 600real,
        width.finite(),
        8_000_000real * size(value(width) - 2real * value(q)) <= 2real * value(q) + 1real / 1_000_000_000_000real,
        8_000_000real * size(value(alpha) * value(width) - value(sw)) <= 1real + 1real / 1_000_000real,
{
    lemma_values();
    let (s, w) = (value(sw), value(width));
    lemma_product_is_close::<A>(Single(TWO), q, width);
    assert(usual(width) && 1000real * w >= 19real / 10real);
    lemma_over::<A>(sw, width, alpha);
    lemma_quotient_is_close::<A>(sw, width, alpha);
    lemma_quotient(s, w);
    lemma_divided(s / w, w, 550real);
    if s / w < 0real {
        lemma_product_is_positive(-(s / w), w);
        lemma_spread(w, s / w, 0real, 0real);
    }
}

/// A gain of so many decibels is the factor `g`: what the filter takes for its root is.
spec fn stands_for<A: Arith>(gain_db: Single, g: real) -> bool {
    g > 0real && forall|e: Single, a: Single| #[trigger]
        over_of::<A>(gain_db, Single(FORTY), e) && #[trigger] pow_of::<A>(Single(TEN), e, a) ==> a.finite()
            && 1_000_000real * value(a) >= 1real && value(a) <= 1_000_000real && 100_000real * size(
            value(a) * value(a) - g,
        ) <= 2real * g
}

/// The coefficients of a peak at the gain that its decibels stand for.
proof fn lemma_peak_at<A: Arith>(f0: Single, q: Single, gain_db: Single, fs: Single, c: Coeffs, g: real) -> (angle: (
    Single,
    Single,
    Single,
))
    requires
        accurate::<A>(),
        circles::<A>(),
        within_spectrum(f0, fs),
        q.finite(),
        value(q) <= 1000real,
        stands_for::<A>(gain_db, g),
        peak_of::<A>(f0, q, gain_db, fs, c),
    ensures
        turns_closely_by(angle.0, f0, value(fs)),
        0real <= value(angle.0) <= 4real,
        cos_of::<A>(angle.0, angle.1),
        sin_of::<A>(angle.0, angle.2),
        value(angle.2) >= 0real,
        passes(c, value(angle.1), g),
        keeps_ends(c, g),
{
    lemma_values();
    let k = q.larger(Single(ONE_THOUSANDTH));
    lemma_value_orders(q, Single(ONE_THOUSANDTH));
    lemma_value_orders(Single(ONE_THOUSANDTH), q);
    let (e, a, turn, w0, cw, sw, width, alpha) = choose|e: Single, a: Single, turn: Single, w0: Single, cw: Single, sw: Single, width: Single, alpha: Single|
        {
            &&& #[trigger] over_of::<A>(gain_db, Single(FORTY), e)
            &&& #[trigger] pow_of::<A>(Single(TEN), e, a)
            &&& #[trigger] times_of::<A>(Single(TWO_PI), f0, turn)
            &&& #[trigger] over_of::<A>(turn, fs, w0)
            &&& #[trigger] cos_of::<A>(w0, cw)
            &&& #[trigger] sin_of::<A>(w0, sw)
            &&& #[trigger] times_of::<A>(Single(TWO), q.larger(Single(ONE_THOUSANDTH)), width)
            &&& #[trigger] over_of::<A>(sw, width, alpha)
            &&& peak_shape_of::<A>(a, cw, alpha, c)
        };
    lemma_angle::<A>(f0, fs, turn, w0);
    assert(usual(w0) && usual(cw) && size(value(cw)) <= 1real);
    lemma_alpha::<A>(sw, k, width, alpha);
    let (x, y) = (value(a), value(alpha));
    let (p, m) = (y * x, y / x);
    lemma_quotient(y, x);
    let a0 = lemma_shape::<A>(a, cw, alpha, c, p, m);
    lemma_room(value(c.b0), a0, p, m);
    lemma_shape_center(c, value(cw), a0, p, m, g);
    lemma_product_groups(m, x, x);
    lemma_shape_gain(c, a0, p, m, x, g);
    (w0, cw, sw)
}

/// The coefficients of a peak cut or raise a tone at their frequency by just the gain asked
/// for, and far from it they change nothing. `g` is the
/// gain as a factor: ten to the power of a twentieth of the decibels.
pub proof fn lemma_peak_hits_its_gain<A: Arith>(
    f0: Single,
    q: Single,
    gain_db: Single,
    fs: Single,
    c: Coeffs,
    exponent: Single,
    g: Single,
) -> (angle: (Single, Single, Single))
    requires
        accurate::<A>(),
        circles::<A>(),
        powers::<A>(),
        within_spectrum(f0, fs),
        q.finite(),
        value(q) <= 1000real,
        gain_db.finite(),
        size(value(gain_db)) <= 90real,
        exponent.finite(),
        100_000real * size(20real * value(exponent) - value(gain_db)) <= 1real,
        pow_of::<A>(Single(TEN), exponent, g),
        peak_of::<A>(f0, q, gain_db, fs, c),
    ensures
        turns_by(angle.0, f0, value(fs)),
        cos_of::<A>(angle.0, angle.1),
        sin_of::<A>(angle.0, angle.2),
        value(angle.2) >= 0real,
        passes(c, value(angle.1), value(g)),
        keeps_ends(c, value(g)),
{
    assert forall|e: Single, a: Single| #[trigger]
        over_of::<A>(gain_db, Single(FORTY), e) && #[trigger] pow_of::<A>(Single(TEN), e, a) implies a.finite()
        && 1_000_000real * value(a) >= 1real && value(a) <= 1_000_000real && 100_000real * size(
        value(a) * value(a) - value(g),
    ) <= 2real * value(g) by {
        lemma_amplitude::<A>(gain_db, e, a, exponent, g);
    }
    lemma_values();
    assert(value(g) > 0real);
    lemma_peak_at::<A>(f0, q, gain_db, fs, c, value(g))
}

/// The amplitude of a peak is the root of its gain.
proof fn lemma_amplitude<A: Arith>(gain_db: Single, e: Single, a: Single, exponent: Single, g: Single)
    requires
        accurate::<A>(),
        powers::<A>(),
        gain_db.finite(),
        size(value(gain_db)) <= 90real,
        over_of::<A>(gain_db, Single(FORTY), e),
        pow_of::<A>(Single(TEN), e, a),
        exponent.finite(),
        100_000real * size(20real * value(exponent) - value(gain_db)) <= 1real,
        pow_of::<A>(Single(TEN), exponent, g),
    ensures
        a.finite(),
        1_000_000real * value(a) >= 1real,
        value(a) <= 1_000_000real,
        value(g) > 0real,
        100_000real * size(value(a) * value(a) - value(g)) <= 2real * value(g),
{
    lemma_values();
    assert(usual(gain_db) && usual(Single(FORTY)));
    lemma_over::<A>(gain_db, Single(FORTY), e);
    let d = size(value(exponent) - 2real * value(e));
    assert(1_000_000real * d <= 3real);
    let (x, y) = (value(a), value(g));
    assert(100_000real * size(x * x - y) <= y * (300_000real * d + 1real));
    lemma_product_rises(300_000real * d + 1real, 2real, y);
}

/// The angle of a tone.
proof fn lemma_angle<A: Arith>(f0: Single, fs: Single, turn: Single, w0: Single)
    requires
        accurate::<A>(),
        within_spectrum(f0, fs),
        times_of::<A>(Single(TWO_PI), f0, turn),
        over_of::<A>(turn, fs, w0),
    ensures
        turns_closely_by(w0, f0, value(fs)),
        0real <= value(w0),
        10_000real * value(w0) <= 31_415real,
{
    lemma_values();
    let (t, f, r, u, w) = (value(Single(TWO_PI)), value(f0), value(fs), value(turn), value(w0));
    assert(usual(Single(TWO_PI)) && usual(f0) && usual(fs));
    let x = t * f;
    lemma_product_rises(t, 6_283_186real / 1_000_000real, f);
    lemma_product_rises(6_283_185real / 1_000_000real, t, f);
    lemma_product_is_close::<A>(Single(TWO_PI), f0, turn);
    assert(usual(turn));
    lemma_over::<A>(turn, fs, w0);
    lemma_quotient_is_close::<A>(turn, fs, w0);
    lemma_quotient(u, r);
    if u / r < 1real / 1_000_000_000real {
        lemma_product_rises(u / r, 1real / 1_000_000_000real, r);
    }
    lemma_divided(w, r, 31_415real / 10_000real);
}

// ----- The cuts ---------------------------------------------------------------

/// The gain of a band, as decibels, stands for the gain.
proof fn lemma_decibels_stand_for_gain<A: Arith>(level: Single, log: Single, gain_db: Single)
    requires
        accurate::<A>(),
        powers::<A>(),
        logarithms::<A>(),
        level.finite(),
        100_000real * value(level) >= 1real,
        value(level) <= 2real,
        log10_of::<A>(level, log),
        times_of::<A>(Single(TWENTY), log, gain_db),
    ensures
        stands_for::<A>(gain_db, value(level)),
{
    lemma_values();
    lemma_product_is_close::<A>(Single(TWENTY), log, gain_db);
    assert forall|e: Single, a: Single| #[trigger]
        over_of::<A>(gain_db, Single(FORTY), e) && #[trigger] pow_of::<A>(Single(TEN), e, a) implies a.finite()
        && 1_000_000real * value(a) >= 1real && value(a) <= 1_000_000real && 100_000real * size(
        value(a) * value(a) - value(level),
    ) <= 2real * value(level) by {
        lemma_over::<A>(gain_db, Single(FORTY), e);
        let d = size(2real * value(e) - value(log));
        assert(1_000_000real * d <= 3real);
        lemma_product_rises(300_000real * d + 1real, 2real, value(level));
        let (x, y) = (value(a), value(level));
        assert(100_000real * size(x * x - y) <= y * (300_000real * d + 1real));
        lemma_spread(y, 2real, 0real, 0real);
    }
}

/// What new gains make of a band that is cut: its filter lets just the gain through of a
/// tone at the center of the band. The angle of that tone is the one of the rate that the
/// filters run at.
proof fn lemma_target_cuts<A: Arith>(
    center: Single,
    q: Single,
    q_ceiling: Single,
    gain: Single,
    concentration: Single,
    fs: Single,
    f: FilterTarget,
) -> (angle: (Single, Single, Single))
    requires
        accurate::<A>(),
        circles::<A>(),
        powers::<A>(),
        logarithms::<A>(),
        within_spectrum(center, fs),
        gain.finite(),
        value(gain) <= 1real,
        !Single(UNITY_FLOOR).at_most(gain),
        f.effective_q.finite(),
        value(f.effective_q) <= 1000real,
        filter_target_of::<A>(center, q, q_ceiling, gain, concentration, fs, f),
    ensures
        turns_closely_by(angle.0, center, value(fs)),
        0real <= value(angle.0) <= 4real,
        cos_of::<A>(angle.0, angle.1),
        sin_of::<A>(angle.0, angle.2),
        value(angle.2) >= 0real,
        passes(f.coeffs, value(angle.1), value(gain.larger(Single(ONE_TEN_THOUSANDTH)))),
        keeps_ends(f.coeffs, value(gain.larger(Single(ONE_TEN_THOUSANDTH)))),
{
    lemma_values();
    let level = gain.larger(Single(ONE_TEN_THOUSANDTH));
    lemma_value_orders(gain, Single(ONE_TEN_THOUSANDTH));
    lemma_value_orders(Single(ONE_TEN_THOUSANDTH), gain);
    let log = choose|log: Single| #[trigger]
        log10_of::<A>(level, log) && times_of::<A>(Single(TWENTY), log, f.gain_db);
    lemma_decibels_stand_for_gain::<A>(level, log, f.gain_db);
    lemma_peak_at::<A>(center, f.effective_q, f.gain_db, fs, f.coeffs, value(level))
}

/// Samples go through the filters `n` times over.
pub open spec fn runs_through<A: Arith>(before: Seq<Biquad>, after: Seq<Biquad>, n: nat) -> bool
    decreases n,
{
    if n == 0 {
        after == before
    } else {
        exists|x: Single, mid: Seq<Biquad>, y: Single| #[trigger]
            cascade_of::<A>(before, x, mid, y) && runs_through::<A>(mid, after, (n - 1) as nat)
    }
}

/// How often a sample goes through the filters: twice with oversampling.
proof fn lemma_steps_per_sample<A: Arith>(
    oversampling: bool,
    s: CascadeState,
    dry: Single,
    r: CascadeState,
    wet: Single,
) -> (mid: CascadeState)
    requires
        wet_of::<A>(oversampling, s, dry, r, wet),
    ensures
        ramp_step_of::<A>(s, mid),
        oversampling ==> runs_through::<A>(mid.filters, r.filters, 2),
        !oversampling ==> runs_through::<A>(mid.filters, r.filters, 1),
{
    reveal_with_fuel(runs_through, 3);
    if oversampling {
        let (mid, between, both, half, y0, y1, sum) = choose|mid: CascadeState, between: Seq<Biquad>, both: Single, half: Single, y0: Single, y1: Single, sum: Single|
            {
                &&& #[trigger] ramp_step_of::<A>(s, mid)
                &&& #[trigger] plus_of::<A>(s.prev_input, dry, both)
                &&& #[trigger] times_of::<A>(Single(HALF), both, half)
                &&& #[trigger] cascade_of::<A>(mid.filters, half, between, y0)
                &&& #[trigger] cascade_of::<A>(between, dry, r.filters, y1)
                &&& #[trigger] plus_of::<A>(y0, y1, sum)
                &&& times_of::<A>(Single(HALF), sum, wet)
                &&& r == (CascadeState { filters: r.filters, prev_input: dry, ..mid })
            };
        assert(runs_through::<A>(r.filters, r.filters, 0));
        assert(runs_through::<A>(between, r.filters, 1));
        mid
    } else {
        let mid = choose|mid: CascadeState|
            {
                &&& #[trigger] ramp_step_of::<A>(s, mid)
                &&& cascade_of::<A>(mid.filters, dry, r.filters, wet)
                &&& r == (CascadeState { filters: r.filters, ..mid })
            };
        assert(runs_through::<A>(r.filters, r.filters, 0));
        mid
    }
}

/// At either rate, a band that is cut is cut at its center, and by just its gain: the `n`
/// steps that a sample takes through the filters turn a tone at the center by the angle
/// `angle.0` each, and of that angle the filter lets the gain through.
pub proof fn lemma_cuts_land_on_their_centers<A: Arith>(
    s: CascadeState,
    gains: Seq<Single>,
    concentration: Seq<Single>,
    r: CascadeState,
    i: int,
    later: CascadeState,
    dry: Single,
    after: CascadeState,
    wet: Single,
) -> (cut: (nat, CascadeState, (Single, Single, Single)))
    requires
        accurate::<A>(),
        circles::<A>(),
        powers::<A>(),
        logarithms::<A>(),
        gains_set_of::<A>(s, gains, concentration, r),
        0 <= i < BANDS,
        within_spectrum(s.layout.centers@[i], s.base_rate),
        value(s.base_rate) <= 400_000real,
        gains[i].finite(),
        value(gains[i]) <= 1real,
        !Single(UNITY_FLOOR).at_most(gains[i]),
        r.effective_q[i].finite(),
        value(r.effective_q[i]) <= 1000real,
        wet_of::<A>(r.oversampled, later, dry, after, wet),
    ensures
        cut.0 > 0,
        ramp_step_of::<A>(later, cut.1),
        runs_through::<A>(cut.1.filters, after.filters, cut.0),
        turns_by(cut.2.0, s.layout.centers@[i], cut.0 as real * value(s.base_rate)),
        cos_of::<A>(cut.2.0, cut.2.1),
        sin_of::<A>(cut.2.0, cut.2.2),
        passes(r.ramp_to[i], value(cut.2.1), value(gains[i].larger(Single(ONE_TEN_THOUSANDTH)))),
        keeps_ends(r.ramp_to[i], value(gains[i].larger(Single(ONE_TEN_THOUSANDTH)))),
{
    lemma_values();
    let fs = choose|fs: Single|
        {
            &&& #[trigger] synth_rate_of::<A>(s, fs)
            &&& forall|i: int|
                0 <= i < BANDS ==> filter_target_of::<A>(
                    s.layout.centers@[i],
                    s.layout.q@[i],
                    s.layout.q_ceiling@[i],
                    gains[i],
                    concentration[i],
                    fs,
                    #[trigger] r.target_at(i),
                )
        };
    let f = r.target_at(i);
    let center = s.layout.centers@[i];
    let base = value(s.base_rate);
    if s.oversampled {
        lemma_product_is_close::<A>(s.base_rate, Single(TWO), fs);
        lemma_spread(base, 2real, 0real, 0real);
    }
    let n: nat = if s.oversampled {
        2
    } else {
        1
    };
    let angle = lemma_target_cuts::<A>(
        center,
        s.layout.q@[i],
        s.layout.q_ceiling@[i],
        gains[i],
        concentration[i],
        fs,
        f,
    );
    let mid = lemma_steps_per_sample::<A>(r.oversampled, later, dry, after, wet);
    lemma_same_turn(angle.0, center, value(fs), n as real * base);
    (n, mid, angle)
}

/// Rates that are close turn a tone by the same angle.
proof fn lemma_same_turn(w: Single, f0: Single, fs: real, rate: real)
    requires
        w.finite(),
        0real <= value(w) <= 4real,
        1_000_000real * size(value(w) * fs - value(Single(TWO_PI)) * value(f0)) <= (value(Single(TWO_PI)) * value(f0)
            + 1real) / 2real,
        8_000_000real * size(fs - rate) <= rate + 1real / 1_000_000real,
        0real <= value(Single(TWO_PI)) * value(f0),
        rate >= 0real,
    ensures
        turns_by(w, f0, rate),
{
    let x = value(w);
    let e = (rate + 1real / 1_000_000real) / 8_000_000real;
    lemma_error_scales(x, fs, rate, e);
    lemma_spread(x, rate, 1real / 1_000_000real, 0real);
    let t = rate + 1real / 1_000_000real;
    assert(x * (t / 8_000_000real) == x * t / 8_000_000real) by (nonlinear_arith);
    lemma_product_rises(x, 4real, 1real / 1_000_000real);
    lemma_product_rises(0real, x, rate);
}

} // verus!
