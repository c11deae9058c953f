//! What one sample does to the filters, and they to it.
//!
//! The laws here hold for every arithmetic that is accurate.

use vstd::prelude::*;
use crate::arith::{count_of, minus_of, over_of, plus_of, times_of, Arith};
use crate::dsp::blending::{sample, share};
use crate::dsp::detector::follow_of;
use crate::dsp::filters::{
    filter_step_of, filtered_of, flush_of, mix_of, ramp_share_of, ramp_step_of, ramped_filter_of, Biquad, CascadeState,
    Coeffs, GAIN_RAMP_SAMPLES,
};
use crate::dsp::rounding::{lemma_sizes, unity};
use crate::dsp::BANDS;
use crate::exact::{
    accurate, lemma_count_is_exact, lemma_difference_is_close, lemma_divided, lemma_error_scales,
    lemma_product_is_close, lemma_product_rises, lemma_product_size, lemma_quotient, lemma_quotient_is_close,
    lemma_spread, lemma_sum_is_close, lemma_values, size, value,
};
use crate::single::{Single, FRACTION_SPAN};

verus! {

// ----- Followers and ramps ----------------------------------------------------

/// A follower goes just its share of the way, or that much beyond it.
pub proof fn lemma_follow_goes_its_share<A: Arith>(from: Single, toward: Single, c: Single, r: Single)
    requires
        accurate::<A>(),
        sample(from),
        sample(toward),
        c.finite(),
        0real <= value(c) <= 2real,
        follow_of::<A>(from, toward, c, r),
    ensures
        r.finite(),
        1_000_000real * size(value(r) - (value(from) + value(c) * (value(toward) - value(from)))) <= size(value(from))
            + size(value(toward)) + 1real / 1_000_000real,
{
    let (way, step) = choose|way: Single, step: Single|
        {
            &&& #[trigger] minus_of::<A>(toward, from, way)
            &&& #[trigger] times_of::<A>(way, c, step)
            &&& plus_of::<A>(from, step, r)
        };
    let (f, t, k) = (value(from), value(toward), value(c));
    let m = size(f) + size(t);
    lemma_difference_is_close::<A>(toward, from, way);
    lemma_scaled_way(value(way), t - f, k, m);
    lemma_product_is_close::<A>(way, c, step);
    lemma_step_error(value(way) * k, k * (t - f), value(step), m);
    lemma_sum_is_close::<A>(from, step, r);
    lemma_step_ends(f, k * (t - f), value(step), value(r), m);
}

/// The way, times the share.
proof fn lemma_scaled_way(w: real, d: real, k: real, m: real)
    requires
        0real <= k <= 2real,
        size(d) <= m <= 200_000_000real,
        8_000_000real * size(w - d) <= m + 1real / 1_000_000_000_000real,
    ensures
        4_000_000real * size(w * k - k * d) <= m + 1real / 1_000_000_000_000real,
        size(k * d) <= 2real * m,
{
    let e = (m + 1real / 1_000_000_000_000real) / 8_000_000real;
    lemma_error_scales(k, w, d, e);
    lemma_product_rises(k, 2real, e);
    lemma_product_size(k, d, 2real, m);
    lemma_spread(k, w, d, 0real);
    lemma_spread(k, d, 0real, 0real);
    lemma_spread(k, e, 0real, 0real);
}

/// The computed step.
proof fn lemma_step_error(p: real, q: real, s: real, m: real)
    requires
        0real <= m <= 200_000_000real,
        4_000_000real * size(p - q) <= m + 1real / 1_000_000_000_000real,
        size(q) <= 2real * m,
        8_000_000real * size(s - p) <= size(p) + 1real / 1_000_000_000_000real,
    ensures
        2_000_000real * size(s - q) <= 11real * m / 10real + 1real / 1_000_000_000_000real,
        size(s) <= 3real * m + 1real,
{
}

/// Where the computed step leads.
proof fn lemma_step_ends(f: real, q: real, s: real, r: real, m: real)
    requires
        size(f) <= m,
        2_000_000real * size(s - q) <= 11real * m / 10real + 1real / 1_000_000_000_000real,
        size(q) <= 2real * m,
        8_000_000real * size(r - (f + s)) <= size(f + s) + 1real / 1_000_000_000_000real,
    ensures
        1_000_000real * size(r - (f + q)) <= m + 1real / 1_000_000real,
{
}

/// `pos` samples into a ramp, a coefficient has gone that share of its way.
pub open spec fn along(from: Single, to: Single, pos: real, r: Single) -> bool {
    500_000real * size(384real * value(r) - (384real * value(from) + pos * (value(to) - value(from)))) <= 384real * (
    size(value(from)) + size(value(to)) + 1real / 1_000_000real)
}

/// All coefficients have gone their share of the way.
pub open spec fn all_along(from: Coeffs, to: Coeffs, pos: real, r: Coeffs) -> bool {
    &&& along(from.b0, to.b0, pos, r.b0)
    &&& along(from.b1, to.b1, pos, r.b1)
    &&& along(from.b2, to.b2, pos, r.b2)
    &&& along(from.a1, to.a1, pos, r.a1)
    &&& along(from.a2, to.a2, pos, r.a2)
}

/// Coefficients of moderate size.
pub open spec fn tame_coeffs(c: Coeffs) -> bool {
    sample(c.b0) && sample(c.b1) && sample(c.b2) && sample(c.a1) && sample(c.a2)
}

/// One coefficient of a ramp.
proof fn lemma_coefficient_along<A: Arith>(from: Single, to: Single, pos: usize, t: Single, r: Single)
    requires
        accurate::<A>(),
        sample(from),
        sample(to),
        pos <= GAIN_RAMP_SAMPLES,
        t.finite(),
        0real <= value(t) <= 2real,
        8_000_000real * size(value(t) - pos as real / 384real) <= 2real,
        follow_of::<A>(from, to, t, r),
    ensures
        along(from, to, pos as real, r),
{
    lemma_follow_goes_its_share::<A>(from, to, t, r);
    let (f, g, k, p) = (value(from), value(to), value(t), pos as real);
    let d = g - f;
    lemma_error_scales(d, k, p / 384real, 2real / 8_000_000real);
    lemma_product_rises(size(d), size(f) + size(g), 2real / 8_000_000real);
    assert(384real * (p / 384real * d) == p * d) by (nonlinear_arith);
    lemma_spread(size(d), 2real / 8_000_000real, 0real, 0real);
}

/// The coefficients ramp evenly: after `pos` of the samples of a ramp they have gone just
/// that share of their way, and at its end they are where it leads.
pub proof fn lemma_ramp_is_even<A: Arith>(s: CascadeState, r: CascadeState, i: int)
    requires
        accurate::<A>(),
        ramp_step_of::<A>(s, r),
        s.ramp_pos < GAIN_RAMP_SAMPLES,
        0 <= i < BANDS,
        tame_coeffs(s.ramp_from[i]),
        tame_coeffs(s.ramp_to[i]),
    ensures
        r.ramp_pos == s.ramp_pos + 1,
        all_along(s.ramp_from[i], s.ramp_to[i], r.ramp_pos as real, r.filters[i].coeffs),
{
    lemma_values();
    let pos = (s.ramp_pos + 1) as usize;
    let t = choose|t: Single|
        {
            &&& #[trigger] ramp_share_of::<A>(pos, t)
            &&& forall|i: int|
                0 <= i < BANDS ==> ramped_filter_of::<A>(
                    s.filters[i],
                    s.ramp_from[i],
                    s.ramp_to[i],
                    t,
                    #[trigger] r.filters[i],
                )
        };
    lemma_ramp_share::<A>(pos, t);
    let (from, to, c) = (s.ramp_from[i], s.ramp_to[i], r.filters[i].coeffs);
    assert(mix_of::<A>(from, to, t, c));
    lemma_coefficient_along::<A>(from.b0, to.b0, pos, t, c.b0);
    lemma_coefficient_along::<A>(from.b1, to.b1, pos, t, c.b1);
    lemma_coefficient_along::<A>(from.b2, to.b2, pos, t, c.b2);
    lemma_coefficient_along::<A>(from.a1, to.a1, pos, t, c.a1);
    lemma_coefficient_along::<A>(from.a2, to.a2, pos, t, c.a2);
}

/// The share of a ramp.
proof fn lemma_ramp_share<A: Arith>(pos: usize, t: Single)
    requires
        accurate::<A>(),
        pos <= GAIN_RAMP_SAMPLES,
        ramp_share_of::<A>(pos, t),
    ensures
        t.finite(),
        value(t) >= 0real,
        8_000_000real * size(value(t) - pos as real / 384real) <= 2real,
        value(t) <= 2real,
{
    let (p, n) = choose|p: Single, n: Single|
        {
            &&& #[trigger] count_of::<A>(pos, p)
            &&& #[trigger] count_of::<A>(GAIN_RAMP_SAMPLES, n)
            &&& over_of::<A>(p, n, t)
        };
    lemma_count_is_exact::<A>(pos, p);
    lemma_count_is_exact::<A>(GAIN_RAMP_SAMPLES, n);
    lemma_quotient_is_close::<A>(p, n, t);
    let x = pos as real;
    assert(0real <= x / 384real <= 1real);
}

// ----- The difference equation ------------------------------------------------

/// What a filter makes of `x`, exactly.
pub open spec fn exactly(f: Biquad, x: Single) -> real {
    value(f.coeffs.b0) * value(x) + value(f.coeffs.b1) * value(f.x1) + value(f.coeffs.b2) * value(f.x2) - value(
        f.coeffs.a1,
    ) * value(f.y1) - value(f.coeffs.a2) * value(f.y2)
}

/// The terms of that, without their signs.
pub open spec fn terms(f: Biquad, x: Single) -> real {
    size(value(f.coeffs.b0) * value(x)) + size(value(f.coeffs.b1) * value(f.x1)) + size(
        value(f.coeffs.b2) * value(f.x2),
    ) + size(value(f.coeffs.a1) * value(f.y1)) + size(value(f.coeffs.a2) * value(f.y2))
}

/// A number of no more than ten thousand.
pub open spec fn modest(x: Single) -> bool {
    x.finite() && size(value(x)) <= 10_000real
}

/// A filter whose coefficients and memory are modest.
pub open spec fn modest_filter(f: Biquad) -> bool {
    &&& modest(f.coeffs.b0) && modest(f.coeffs.b1) && modest(f.coeffs.b2) && modest(f.coeffs.a1) && modest(f.coeffs.a2)
    &&& modest(f.x1) && modest(f.x2) && modest(f.y1) && modest(f.y2)
}

/// A computed product of modest numbers.
proof fn lemma_term<A: Arith>(a: Single, b: Single, r: Single)
    requires
        accurate::<A>(),
        modest(a),
        modest(b),
        times_of::<A>(a, b, r),
    ensures
        r.finite(),
        size(value(a) * value(b)) <= 100_000_000real,
        8_000_000real * size(value(r) - value(a) * value(b)) <= size(value(a) * value(b)) + 1real
            / 1_000_000_000_000real,
{
    lemma_product_size(value(a), value(b), 10_000real, 10_000real);
    lemma_product_is_close::<A>(a, b, r);
}

/// A filter step follows the difference equation of its coefficients: what goes in and what
/// went in and came out before, each times its coefficient.
pub proof fn lemma_step_follows_equation<A: Arith>(before: Biquad, x: Single, after: Biquad, y: Single)
    requires
        accurate::<A>(),
        modest_filter(before),
        modest(x),
        filter_step_of::<A>(before, x, after, y),
    ensures
        y.finite(),
        800_000real * size(value(y) - exactly(before, x)) <= terms(before, x) + 1real / 100real,
        after == (Biquad { coeffs: before.coeffs, x1: x, x2: before.x1, y1: y, y2: before.y1 }),
{
    let raw = choose|raw: Single| #[trigger] filtered_of::<A>(before, x, raw) && flush_of::<A>(raw, y);
    lemma_filtered::<A>(before, x, raw);
    reveal(sums_to);
    lemma_flush_is_tiny::<A>(raw, y);
}

/// Dropping a subnormal number changes nothing to speak of.
proof fn lemma_flush_is_tiny<A: Arith>(v: Single, r: Single)
    requires
        v.finite(),
        flush_of::<A>(v, r),
    ensures
        r.finite(),
        100_000_000real * size(value(r) - value(v)) <= 1real,
{
    lemma_values();
    if r != v {
        lemma_sizes();
        let span = FRACTION_SPAN as int;
        assert(v.magnitude() < span);
        let (x, u) = (v.steps() as real, unity() as real);
        assert(size(x) <= 8_388_608real);
        assert(span * span == 0x4000_0000_0000) by (nonlinear_arith)
            requires
                span == 0x80_0000,
        ;
        assert(unity() >= 64 * 0x4000_0000_0000);
        assert(u >= 4_503_599_627_370_496real);
        lemma_quotient(x, u);
        lemma_divided(x / u, u, 1real / 100_000_000real);
    }
}

/// A number that stands for the sum `e`, whose terms without their signs come to `t`, after `k`
/// roundings.
#[verifier::opaque]
spec fn sums_to(v: Single, e: real, t: real, k: real) -> bool {
    &&& v.finite()
    &&& size(e) <= t <= k * 100_000_000real
    &&& 8_000_000real * size(value(v) - e) <= k * (t + 1real / 1_000_000_000real)
}

/// The first term of a sum.
proof fn lemma_first_term<A: Arith>(a: Single, b: Single, p: Single)
    requires
        accurate::<A>(),
        modest(a),
        modest(b),
        times_of::<A>(a, b, p),
    ensures
        sums_to(p, value(a) * value(b), size(value(a) * value(b)), 1real),
{
    lemma_term::<A>(a, b, p);
    reveal(sums_to);
}

/// A term added to a sum.
proof fn lemma_plus_term<A: Arith>(s: Single, e: real, t: real, k: real, a: Single, b: Single, p: Single, r: Single)
    requires
        accurate::<A>(),
        k == 1real || k == 3real || k == 5real || k == 7real,
        sums_to(s, e, t, k),
        modest(a),
        modest(b),
        times_of::<A>(a, b, p),
        plus_of::<A>(s, p, r),
    ensures
        sums_to(r, e + value(a) * value(b), t + size(value(a) * value(b)), k + 2real),
{
    lemma_term::<A>(a, b, p);
    let q = value(a) * value(b);
    reveal(sums_to);
    lemma_sum_size(value(s), e, t, k);
    lemma_sum_is_close::<A>(s, p, r);
    lemma_add_term(value(s), e, t, value(p), q, value(r), k);
}

/// A term taken from a sum.
proof fn lemma_minus_term<A: Arith>(s: Single, e: real, t: real, k: real, a: Single, b: Single, p: Single, r: Single)
    requires
        accurate::<A>(),
        k == 1real || k == 3real || k == 5real || k == 7real,
        sums_to(s, e, t, k),
        modest(a),
        modest(b),
        times_of::<A>(a, b, p),
        minus_of::<A>(s, p, r),
    ensures
        sums_to(r, e - value(a) * value(b), t + size(value(a) * value(b)), k + 2real),
{
    lemma_term::<A>(a, b, p);
    let q = value(a) * value(b);
    reveal(sums_to);
    lemma_sum_size(value(s), e, t, k);
    lemma_difference_is_close::<A>(s, p, r);
    lemma_add_term(value(s), e, t, -value(p), -q, value(r), k);
}

/// How large such a sum gets.
proof fn lemma_sum_size(s: real, e: real, t: real, k: real)
    requires
        k == 1real || k == 3real || k == 5real || k == 7real,
        size(e) <= t <= k * 100_000_000real,
        8_000_000real * size(s - e) <= k * (t + 1real / 1_000_000_000real),
    ensures
        t <= 700_000_000real,
        size(s) <= 800_000_000real,
{
}

/// The sum of a filter before subnormal numbers are dropped.
proof fn lemma_filtered<A: Arith>(f: Biquad, x: Single, raw: Single)
    requires
        accurate::<A>(),
        modest_filter(f),
        modest(x),
        filtered_of::<A>(f, x, raw),
    ensures
        sums_to(raw, exactly(f, x), terms(f, x), 9real),
{
    let (p0, p1, p2, q1, q2, s1, s2, d1) = choose|p0: Single, p1: Single, p2: Single, q1: Single, q2: Single, s1: Single, s2: Single, d1: Single|
        {
            &&& #[trigger] times_of::<A>(f.coeffs.b0, x, p0)
            &&& #[trigger] times_of::<A>(f.coeffs.b1, f.x1, p1)
            &&& #[trigger] times_of::<A>(f.coeffs.b2, f.x2, p2)
            &&& #[trigger] times_of::<A>(f.coeffs.a1, f.y1, q1)
            &&& #[trigger] times_of::<A>(f.coeffs.a2, f.y2, q2)
            &&& #[trigger] plus_of::<A>(p0, p1, s1)
            &&& #[trigger] plus_of::<A>(s1, p2, s2)
            &&& #[trigger] minus_of::<A>(s2, q1, d1)
            &&& minus_of::<A>(d1, q2, raw)
        };
    let t0 = value(f.coeffs.b0) * value(x);
    let t1 = value(f.coeffs.b1) * value(f.x1);
    let t2 = value(f.coeffs.b2) * value(f.x2);
    let u1 = value(f.coeffs.a1) * value(f.y1);
    lemma_first_term::<A>(f.coeffs.b0, x, p0);
    lemma_plus_term::<A>(p0, t0, size(t0), 1real, f.coeffs.b1, f.x1, p1, s1);
    lemma_plus_term::<A>(s1, t0 + t1, size(t0) + size(t1), 3real, f.coeffs.b2, f.x2, p2, s2);
    lemma_minus_term::<A>(
        s2,
        t0 + t1 + t2,
        size(t0) + size(t1) + size(t2),
        5real,
        f.coeffs.a1,
        f.y1,
        q1,
        d1,
    );
    lemma_minus_term::<A>(
        d1,
        t0 + t1 + t2 - u1,
        size(t0) + size(t1) + size(t2) + size(u1),
        7real,
        f.coeffs.a2,
        f.y2,
        q2,
        raw,
    );
}

/// One term more: the error grows by no more than twice the terms.
proof fn lemma_add_term(s: real, e: real, t: real, p: real, q: real, r: real, k: real)
    requires
        k == 1real || k == 3real || k == 5real || k == 7real,
        0real <= t <= 1_000_000_000real,
        size(q) <= 100_000_000real,
        size(e) <= t,
        8_000_000real * size(s - e) <= k * (t + 1real / 1_000_000_000real),
        8_000_000real * size(p - q) <= size(q) + 1real / 1_000_000_000_000real,
        8_000_000real * size(r - (s + p)) <= size(s + p) + 1real / 1_000_000_000_000real,
    ensures
        8_000_000real * size(r - (e + q)) <= (k + 2real) * (t + size(q) + 1real / 1_000_000_000real),
        size(e + q) <= t + size(q),
{
    if k == 1real {
    } else if k == 3real {
    } else if k == 5real {
    } else {
    }
}

} // verus!
