//! What a band answers to its parameters.
//!
//! The laws here hold for every arithmetic that keeps the order of numbers, and
//! rounds to the nearest.

use vstd::prelude::*;
use vstd::arithmetic::div_mod::lemma_fundamental_div_mod;
use vstd::arithmetic::power2::{lemma2_to64, lemma_pow2_adds, lemma_pow2_strictly_increases, pow2};
use crate::arith::{minus_of, over_of, plus_of, pow_of, times_of, Arith};
use crate::dsp::attenuation::{
    all_unit, downward, lemma_band_is_only_reduced, lemma_coef_is_unit, lemma_detector_only_reduces,
    lemma_follow_is_unit, lemma_target_is_unit, lemma_unit_is_finite, paced, unit, within,
};
use crate::dsp::determinism::{lemma_coef, lemma_glide, lemma_scale, lemma_step_parts, repeats, same};
use crate::dsp::detector::{
    attenuation_of, band_step_of, coef_of, follow_of, frame_terms_of, glide_of, lemma_detector_is_whole,
    lemma_ordered_len, lemma_ordered_permutes, median, ordered, window, window_start, BandStep, DetectParams,
    Detector, FrameTerms,
};
use crate::dsp::monotony::{
    amount, keeps_its_piece, lemma_asking_for_more_reduces_no_less, lemma_difference,
    lemma_more_reduction_is_no_louder, lemma_no_depth_reduces_nothing, lemma_one_threshold_keeps_its_piece,
    lemma_sum, moderate, monotone, usual_knee,
};
use crate::dsp::rounding::{
    apart, counts, lemma_counts, lemma_no_jump_down, lemma_not_subnormal, lemma_product_error, lemma_rounding_error,
    lemma_rounding_stays, lemma_sizes, rounds, rounds_product, rounds_to, subnormal, unity, ROUNDING_LIMIT,
};
use crate::dsp::shaping::{in_place, lemma_deeper_nodes_shape_no_less, lemma_node_shape_is_unit, no_less_deep};
use crate::dsp::BANDS;
use crate::numbers::{
    FIVE, HALF, ONE, ONE_TEN_THOUSANDTH, TEN, THIRTY_SIX, THOUSAND, THREE_QUARTERS, TWELVE, TWENTY, ZERO,
};
use crate::single::{lemma_is_a_number, lemma_magnitude_orders, lemma_opposite, Single, FRACTION_SPAN};

verus! {

/// Frames last a time that can be told.
pub open spec fn lasting(t: FrameTerms) -> bool {
    Single(ZERO).below(t.frame_time) && t.frame_time.finite() && !subnormal(t.frame_time)
}

// ----- More asks for more -----------------------------------------------------

/// The share of its way that a follower goes, and where that takes it.
pub(crate) proof fn lemma_glide_parts<A: Arith>(
    from: Single,
    toward: Single,
    base_ms: Single,
    scale: Single,
    t: FrameTerms,
    r: Single,
) -> (parts: (Single, Single))
    requires
        monotone::<A>(),
        lasting(t),
        glide_of::<A>(from, toward, base_ms, scale, t.frame_time, r),
    ensures
        times_of::<A>(base_ms, scale, parts.0),
        coef_of::<A>(parts.0, t.frame_time, parts.1),
        unit(parts.1),
        parts.1.at_most(Single(THREE_QUARTERS)),
        follow_of::<A>(from, toward, parts.1, r),
{
    let (ms, c) = choose|ms: Single, c: Single|
        {
            &&& #[trigger] times_of::<A>(base_ms, scale, ms)
            &&& #[trigger] coef_of::<A>(ms, t.frame_time, c)
            &&& follow_of::<A>(from, toward, c, r)
        };
    lemma_coef_is_unit::<A>(ms, t.frame_time, c);
    (ms, c)
}

/// A number from 0 to 1 is of ordinary size.
pub(crate) proof fn lemma_unit_is_moderate(x: Single)
    requires
        unit(x),
    ensures
        moderate(x),
{
    lemma_sizes();
    lemma_unit_is_finite(x);
}

/// The way of a follower, and its step on it: both go towards the target.
pub(crate) proof fn lemma_follow_parts<A: Arith>(from: Single, toward: Single, c: Single, r: Single) -> (parts: (Single, Single))
    requires
        monotone::<A>(),
        moderate(from),
        moderate(toward),
        unit(c),
        follow_of::<A>(from, toward, c, r),
    ensures
        minus_of::<A>(toward, from, parts.0),
        parts.0.finite(),
        times_of::<A>(parts.0, c, parts.1),
        parts.1.finite(),
        from.at_most(toward) ==> parts.1.steps() >= 0,
        toward.at_most(from) ==> parts.1.steps() <= 0,
        plus_of::<A>(from, parts.1, r),
{
    lemma_sizes();
    let (way, step) = choose|way: Single, step: Single|
        {
            &&& #[trigger] minus_of::<A>(toward, from, way)
            &&& #[trigger] times_of::<A>(way, c, step)
            &&& plus_of::<A>(from, step, r)
        };
    lemma_difference::<A>(toward, from, way, Single(ROUNDING_LIMIT));
    assert(within(step, way));
    (way, step)
}

/// A gain that follows a lower target is no higher.
pub(crate) proof fn lemma_follows_lower<A: Arith>(
    gain: Single,
    high: Single,
    low: Single,
    t: FrameTerms,
    scale: Single,
    other: Single,
    r: Single,
    q: Single,
)
    requires
        monotone::<A>(),
        repeats::<A>(),
        lasting(t),
        unit(gain),
        unit(high),
        unit(low),
        low.at_most(high),
        same(scale, other),
        glide_of::<A>(
            gain,
            high,
            if high.below(gain) {
                t.attack_ms
            } else {
                t.release_ms
            },
            scale,
            t.frame_time,
            r,
        ),
        glide_of::<A>(
            gain,
            low,
            if low.below(gain) {
                t.attack_ms
            } else {
                t.release_ms
            },
            other,
            t.frame_time,
            q,
        ),
    ensures
        unit(r),
        unit(q),
        q.at_most(r),
{
    let ms_a = if high.below(gain) {
        t.attack_ms
    } else {
        t.release_ms
    };
    let ms_b = if low.below(gain) {
        t.attack_ms
    } else {
        t.release_ms
    };
    let (time_a, c_a) = lemma_glide_parts::<A>(gain, high, ms_a, scale, t, r);
    let (time_b, c_b) = lemma_glide_parts::<A>(gain, low, ms_b, other, t, q);
    lemma_follow_is_unit::<A>(gain, high, c_a, r);
    lemma_follow_is_unit::<A>(gain, low, c_b, q);
    lemma_unit_is_moderate(gain);
    lemma_unit_is_moderate(high);
    lemma_unit_is_moderate(low);
    let (way_a, step_a) = lemma_follow_parts::<A>(gain, high, c_a, r);
    let (way_b, step_b) = lemma_follow_parts::<A>(gain, low, c_b, q);
    if high.below(gain) == low.below(gain) {
        assert(same(time_a, time_b));
        lemma_coef::<A>(time_a, t.frame_time, time_b, t.frame_time, c_a, c_b);
        assert(c_a == c_b);
        assert(way_b.at_most(way_a));
        assert(step_b.at_most(step_a));
    } else {
        lemma_sizes();
        assert(step_b.at_most(step_a));
    }
}

/// The parameters `q` ask for no less than `p`, and for the rest are the same.
pub open spec fn asks_for_no_less(p: DetectParams, q: DetectParams) -> bool {
    &&& amount(p.depth)
    &&& moderate(q.depth)
    &&& p.depth.at_most(q.depth)
    &&& amount(p.sharpness)
    &&& moderate(q.sharpness)
    &&& p.sharpness.at_most(q.sharpness)
    &&& in_place(p.node_freqs@, p.node_depths@, p.node_enabled@)
    &&& in_place(q.node_freqs@, q.node_depths@, q.node_enabled@)
    &&& no_less_deep(p.node_depths@, q.node_depths@, p.node_enabled@)
    &&& q == (DetectParams {
        depth: q.depth,
        sharpness: q.sharpness,
        selectivity: q.selectivity,
        node_depths: q.node_depths,
        ..p
    })
}

/// In every band, more depth, more sharpness, deeper nodes or a lower threshold never
/// reduce less, never aim at more gain, and never leave more gain, as long as the level
/// does not pass from the parabola of the knee to its line.
pub proof fn lemma_asking_for_more_leaves_no_more<A: Arith>(
    t_a: FrameTerms,
    t_b: FrameTerms,
    p: DetectParams,
    q: DetectParams,
    center: Single,
    level: Single,
    median: Single,
    baseline: Single,
    gain: Single,
    a: BandStep,
    b: BandStep,
)
    requires
        monotone::<A>(),
        repeats::<A>(),
        usual_knee(t_a.knee),
        lasting(t_a),
        moderate(t_a.threshold),
        moderate(t_b.threshold),
        t_b.threshold.at_most(t_a.threshold),
        t_b == (FrameTerms { threshold: t_b.threshold, ..t_a }),
        center.finite(),
        moderate(level),
        moderate(a.baseline),
        keeps_its_piece::<A>(t_a, t_b, level, a.baseline),
        unit(gain),
        asks_for_no_less(p, q),
        band_step_of::<A>(t_a, p, center, level, median, baseline, gain, a),
        band_step_of::<A>(t_b, q, center, level, median, baseline, gain, b),
    ensures
        a.reduction_db.at_most(b.reduction_db),
        b.target_gain.at_most(a.target_gain),
        b.gain.at_most(a.gain),
{
    lemma_sizes();
    let (scale, region) = lemma_step_parts::<A>(t_a, p, center, level, median, baseline, gain, a);
    let (scale2, region2) = lemma_step_parts::<A>(t_b, q, center, level, median, baseline, gain, b);
    lemma_scale::<A>(center, center, scale, scale2);
    let track = if baseline.below(median) {
        p.attack_ms
    } else {
        p.release_ms
    };
    lemma_glide::<A>(
        baseline,
        median,
        baseline,
        median,
        track,
        track,
        scale,
        scale2,
        t_a.frame_time,
        t_a.frame_time,
        a.baseline,
        b.baseline,
    );
    lemma_node_shape_is_unit::<A>(
        center,
        p.node_freqs@,
        p.node_depths@,
        p.node_shapes@,
        p.node_enabled@,
        region,
    );
    lemma_node_shape_is_unit::<A>(
        center,
        p.node_freqs@,
        q.node_depths@,
        p.node_shapes@,
        p.node_enabled@,
        region2,
    );
    lemma_deeper_nodes_shape_no_less::<A>(
        center,
        p.node_freqs@,
        p.node_depths@,
        q.node_depths@,
        p.node_shapes@,
        p.node_enabled@,
        region,
        region2,
    );
    lemma_unit_is_finite(region);
    lemma_unit_is_finite(region2);
    assert(within(a.effective_depth, p.depth));
    assert(within(b.effective_depth, q.depth));
    assert(a.effective_depth.at_most(b.effective_depth));
    lemma_asking_for_more_reduces_no_less::<A>(
        t_a,
        t_b,
        level,
        a.baseline,
        p.sharpness,
        q.sharpness,
        a.effective_depth,
        b.effective_depth,
        a.reduction_db,
        b.reduction_db,
    );
    lemma_more_reduction_is_no_louder::<A>(
        a.reduction_db,
        b.reduction_db,
        a.target_gain,
        b.target_gain,
    );
    lemma_target_is_unit::<A>(a.reduction_db, a.target_gain);
    lemma_target_is_unit::<A>(b.reduction_db, b.target_gain);
    lemma_follows_lower::<A>(gain, a.target_gain, b.target_gain, t_a, scale, scale2, a.gain, b.gain);
}

/// In every frame, more depth, more sharpness or deeper nodes never leave a band more
/// gain.
pub proof fn lemma_more_depth_leaves_no_more<A: Arith>(
    before: Detector,
    after_a: Detector,
    after_b: Detector,
    levels: Seq<Single>,
    p: DetectParams,
    q: DetectParams,
    centers: Seq<Single>,
    i: int,
)
    requires
        monotone::<A>(),
        repeats::<A>(),
        paced::<A>(before),
        all_unit(before.gains()),
        all_moderate(before.baselines()),
        levels.len() == BANDS,
        all_moderate(levels),
        0 <= i < BANDS,
        centers[i].finite(),
        unit(p.selectivity),
        q.selectivity == p.selectivity,
        asks_for_no_less(p, q),
        after_a.steps_from::<A>(before, levels, p, centers),
        after_b.steps_from::<A>(before, levels, q, centers),
    ensures
        after_a.reductions()[i].at_most(after_b.reductions()[i]),
        after_b.target_gains()[i].at_most(after_a.target_gains()[i]),
        after_b.gains()[i].at_most(after_a.gains()[i]),
{
    lemma_detector_is_whole(before);
    let m = median(window(levels, i));
    let t_a = lemma_frame_of_band::<A>(before, after_a, levels, p, centers, i);
    let t_b = lemma_frame_of_band::<A>(before, after_b, levels, q, centers, i);
    lemma_threshold_is_moderate::<A>(before.hop(), before.rate(), p, t_a);
    lemma_threshold_is_moderate::<A>(before.hop(), before.rate(), q, t_b);
    lemma_terms_agree::<A>(before.hop(), before.rate(), p, q, t_a, t_b);
    lemma_median_is_moderate(levels, i);
    assert(moderate(levels[i]) && moderate(before.baselines()[i]) && unit(before.gains()[i]));
    lemma_baseline_stays_moderate::<A>(
        t_a,
        p,
        centers[i],
        levels[i],
        m,
        before.baselines()[i],
        before.gains()[i],
        after_a.step_at(i),
    );
    lemma_one_threshold_keeps_its_piece::<A>(t_a, levels[i], after_a.step_at(i).baseline);
    lemma_asking_for_more_leaves_no_more::<A>(
        t_a,
        t_b,
        p,
        q,
        centers[i],
        levels[i],
        m,
        before.baselines()[i],
        before.gains()[i],
        after_a.step_at(i),
        after_b.step_at(i),
    );
}

/// The terms of a frame, and the step they give a band.
pub(crate) proof fn lemma_frame_of_band<A: Arith>(
    before: Detector,
    after: Detector,
    levels: Seq<Single>,
    p: DetectParams,
    centers: Seq<Single>,
    i: int,
) -> (t: FrameTerms)
    requires
        paced::<A>(before),
        0 <= i < BANDS,
        after.steps_from::<A>(before, levels, p, centers),
    ensures
        frame_terms_of::<A>(before.hop(), before.rate(), p, t),
        lasting(t),
        usual_knee(t.knee),
        band_step_of::<A>(
            t,
            p,
            centers[i],
            levels[i],
            median(window(levels, i)),
            before.baselines()[i],
            before.gains()[i],
            after.step_at(i),
        ),
{
    let t = choose|t: FrameTerms|
        {
            &&& #[trigger] frame_terms_of::<A>(before.hop(), before.rate(), p, t)
            &&& forall|i: int|
                0 <= i < BANDS ==> band_step_of::<A>(
                    t,
                    p,
                    centers[i],
                    levels[i],
                    median(window(levels, i)),
                    before.baselines()[i],
                    before.gains()[i],
                    #[trigger] after.step_at(i),
                )
        };
    assert(band_step_of::<A>(
        t,
        p,
        centers[i],
        levels[i],
        median(window(levels, i)),
        before.baselines()[i],
        before.gains()[i],
        after.step_at(i),
    ));
    t
}

/// Parameters that ask for the same times and the same selectivity give the same terms.
proof fn lemma_terms_agree<A: Arith>(
    hop: Single,
    rate: Single,
    p: DetectParams,
    q: DetectParams,
    t_a: FrameTerms,
    t_b: FrameTerms,
)
    requires
        repeats::<A>(),
        p.attack_ms == q.attack_ms,
        p.release_ms == q.release_ms,
        p.selectivity == q.selectivity,
        p.soft_mode == q.soft_mode,
        lasting(t_a),
        moderate(t_a.threshold),
        frame_terms_of::<A>(hop, rate, p, t_a),
        frame_terms_of::<A>(hop, rate, q, t_b),
    ensures
        t_a == t_b,
{
    lemma_sizes();
    lemma_magnitude_orders(Single(HALF), Single(FIVE));
}

/// The reference of a band stays of ordinary size.
pub(crate) proof fn lemma_baseline_stays_moderate<A: Arith>(
    t: FrameTerms,
    p: DetectParams,
    center: Single,
    level: Single,
    median: Single,
    baseline: Single,
    gain: Single,
    s: BandStep,
)
    requires
        monotone::<A>(),
        lasting(t),
        moderate(median),
        moderate(baseline),
        band_step_of::<A>(t, p, center, level, median, baseline, gain, s),
    ensures
        moderate(s.baseline),
{
    let (scale, _) = lemma_step_parts::<A>(t, p, center, level, median, baseline, gain, s);
    let track = if baseline.below(median) {
        p.attack_ms
    } else {
        p.release_ms
    };
    let (_, c) = lemma_glide_parts::<A>(baseline, median, track, scale, t, s.baseline);
    lemma_follow_stays_moderate::<A>(baseline, median, c, s.baseline);
}

// ----- The floor --------------------------------------------------------------

/// `g` is what a reduction by 36 dB leaves, which is more than a ten-thousandth.
pub open spec fn least_gain<A: Arith>(g: Single) -> bool {
    attenuation_of::<A>(Single(THIRTY_SIX), g) && Single(ONE_TEN_THOUSANDTH).at_most(g)
}

/// None of these lies below `g`.
pub open spec fn none_below(gains: Seq<Single>, g: Single) -> bool {
    forall|i: int| 0 <= i < gains.len() ==> g.at_most(#[trigger] gains[i])
}

/// Numbers from a ten-thousandth up lie on a coarse grid.
proof fn lemma_coarse(x: Single) -> (k: int)
    requires
        x.finite(),
        Single(ONE_TEN_THOUSANDTH).at_most(x),
    ensures
        x.steps() == k * pow2(112),
{
    lemma_sizes();
    lemma_magnitude_orders(x, Single(ONE_TEN_THOUSANDTH));
    lemma_fundamental_div_mod(x.unsigned() as int, FRACTION_SPAN as int);
    assert(x.exponent() >= 113);
    let j = (x.exponent() - 113) as nat;
    lemma_pow2_adds(112, j);
    let m = (x.fraction() + FRACTION_SPAN as nat) as int;
    assert(m * (pow2(112) * pow2(j)) == (m * pow2(j)) * pow2(112)) by (nonlinear_arith);
    m * pow2(j)
}

/// A step that goes at most three quarters of a way from one gain to another does not
/// go past the other.
proof fn lemma_step_stops_short(way: int, share: int, step: int, u: int, whole: int)
    requires
        u > 0,
        whole >= 16 * FRACTION_SPAN,
        0 <= way,
        FRACTION_SPAN * way <= FRACTION_SPAN * whole + whole + FRACTION_SPAN * FRACTION_SPAN,
        0 <= share,
        4 * share <= 3 * (way * u),
        FRACTION_SPAN * (step * u) <= FRACTION_SPAN * share + share + FRACTION_SPAN * FRACTION_SPAN * u,
    ensures
        step <= whole,
{
    let span = FRACTION_SPAN as int;
    assert(4 * span * step <= 3 * (span + 1) * way + 4 * span * span) by (nonlinear_arith)
        requires
            u > 0,
            span == 0x80_0000,
            4 * share <= 3 * (way * u),
            span * (step * u) <= span * share + share + span * span * u,
    ;
    assert(span * span == 0x4000_0000_0000) by (nonlinear_arith)
        requires
            span == 0x80_0000,
    ;
    assert(0x200_0000 * step <= 0x180_0003 * way + 0x1_0000_0000_0000) by (nonlinear_arith)
        requires
            4 * span * step <= 3 * (span + 1) * way + 4 * span * span,
            span == 0x80_0000,
    ;
    assert(0x80_0000 * way <= 0x80_0001 * whole + 0x4000_0000_0000);
}

/// The step of a follower is no longer than the way that it was to go.
proof fn lemma_step_is_within<A: Arith>(whole: int, way: Single, c: Single, step: Single, flushed: bool)
    requires
        rounds::<A>(flushed),
        rounds_to(whole, way),
        apart(whole, 0) <= 2 * Single(THOUSAND).steps(),
        apart(whole, 0) >= 16 * FRACTION_SPAN,
        unit(c),
        c.at_most(Single(THREE_QUARTERS)),
        times_of::<A>(way, c, step),
    ensures
        apart(step.steps(), 0) <= apart(whole, 0),
{
    lemma_sizes();
    lemma_unit_is_finite(c);
    lemma_counts(way, flushed);
    lemma_counts(c, flushed);
    lemma_rounding_error(whole, way);
    lemma_rounding_stays(whole, way, Single(ROUNDING_LIMIT));
    let u = unity();
    let w = apart(way.steps(), 0);
    let held = counts(way, flushed);
    let part = counts(c, flushed);
    let exact = held * part;
    let share = apart(exact, 0);
    let limit = Single(ROUNDING_LIMIT).steps();
    assert(share == apart(held, 0) * part) by (nonlinear_arith)
        requires
            exact == held * part,
            part >= 0,
            share == apart(exact, 0),
    ;
    let size = apart(held, 0);
    assert(4 * share <= 3 * (w * u)) by (nonlinear_arith)
        requires
            share == size * part,
            0 <= size <= w,
            0 <= part,
            4 * part <= 3 * u,
    ;
    assert(share <= limit * u) by (nonlinear_arith)
        requires
            4 * share <= 3 * (w * u),
            0 <= w <= limit,
            u > 0,
    ;
    assert(rounds_product(exact, step));
    lemma_product_error(exact, step);
    let taken = apart(step.steps(), 0);
    assert(apart(step.steps() * u, 0) == taken * u) by (nonlinear_arith)
        requires
            taken == apart(step.steps(), 0),
            u > 0,
    ;
    lemma_step_stops_short(w, share, taken, u, apart(whole, 0));
}

/// Two numbers from a ten-thousandth up are equal or lie far apart.
proof fn lemma_far_apart(a: Single, b: Single)
    requires
        a.finite(),
        b.finite(),
        Single(ONE_TEN_THOUSANDTH).at_most(a),
        Single(ONE_TEN_THOUSANDTH).at_most(b),
    ensures
        a.steps() == b.steps() || apart(a.steps() - b.steps(), 0) >= 16 * FRACTION_SPAN,
{
    let i = lemma_coarse(a);
    let j = lemma_coarse(b);
    lemma_pow2_strictly_increases(30, 112);
    lemma2_to64();
    let (x, y, p) = (a.steps(), b.steps(), pow2(112) as int);
    if x > y {
        assert(x - y >= p) by (nonlinear_arith)
            requires
                x == i * p,
                y == j * p,
                x > y,
                p > 0,
        ;
    } else if y > x {
        assert(y - x >= p) by (nonlinear_arith)
            requires
                x == i * p,
                y == j * p,
                y > x,
                p > 0,
        ;
    }
}

/// A gain that follows targets above a floor stays above it.
proof fn lemma_follow_keeps_floor<A: Arith>(from: Single, toward: Single, c: Single, r: Single, g: Single)
    requires
        monotone::<A>(),
        unit(from),
        unit(toward),
        unit(c),
        c.at_most(Single(THREE_QUARTERS)),
        Single(ONE_TEN_THOUSANDTH).at_most(g),
        g.at_most(from),
        g.at_most(toward),
        follow_of::<A>(from, toward, c, r),
    ensures
        g.at_most(r),
{
    lemma_sizes();
    lemma_unit_is_moderate(from);
    lemma_unit_is_moderate(toward);
    lemma_magnitude_orders(Single(ONE), g);
    lemma_not_subnormal(from);
    lemma_not_subnormal(toward);
    lemma_follow_is_unit::<A>(from, toward, c, r);
    let (way, step) = lemma_follow_parts::<A>(from, toward, c, r);
    let flushed = choose|flushed: bool| #[trigger] rounds::<A>(flushed);
    lemma_counts(step, flushed);
    let x = counts(from, flushed) + counts(step, flushed);
    if toward.below(from) {
        lemma_far_apart(from, toward);
        let whole = toward.steps() - from.steps();
        assert(rounds_to(whole, way));
        lemma_step_is_within::<A>(whole, way, c, step, flushed);
    }
    assert(rounds_to(x, r));
    lemma_no_jump_down(x, r, g);
}

/// No band is ever reduced by more than 36 dB: neither its target nor its gain ever
/// lies below what such a reduction leaves.
pub proof fn lemma_band_keeps_floor<A: Arith>(
    t: FrameTerms,
    p: DetectParams,
    center: Single,
    level: Single,
    median: Single,
    baseline: Single,
    gain: Single,
    s: BandStep,
    g: Single,
)
    requires
        monotone::<A>(),
        least_gain::<A>(g),
        downward(p),
        lasting(t),
        usual_knee(t.knee),
        unit(gain),
        g.at_most(gain),
        band_step_of::<A>(t, p, center, level, median, baseline, gain, s),
    ensures
        g.at_most(s.target_gain),
        g.at_most(s.gain),
{
    lemma_sizes();
    let (scale, _) = lemma_step_parts::<A>(t, p, center, level, median, baseline, gain, s);
    lemma_band_is_only_reduced::<A>(t, p, center, level, median, baseline, gain, s);
    lemma_magnitude_orders(Single(THIRTY_SIX), s.reduction_db);
    lemma_more_reduction_is_no_louder::<A>(s.reduction_db, Single(THIRTY_SIX), s.target_gain, g);
    let ms = if s.target_gain.below(gain) {
        t.attack_ms
    } else {
        t.release_ms
    };
    let (_, c) = lemma_glide_parts::<A>(gain, s.target_gain, ms, scale, t, s.gain);
    lemma_follow_keeps_floor::<A>(gain, s.target_gain, c, s.gain, g);
}

/// A frame never takes a gain of a detector below what 36 dB leave.
pub proof fn lemma_detector_keeps_floor<A: Arith>(
    after: Detector,
    before: Detector,
    levels: Seq<Single>,
    p: DetectParams,
    centers: Seq<Single>,
    g: Single,
)
    requires
        monotone::<A>(),
        least_gain::<A>(g),
        downward(p),
        paced::<A>(before),
        all_unit(before.gains()),
        none_below(before.gains(), g),
        after.steps_from::<A>(before, levels, p, centers),
    ensures
        none_below(after.gains(), g),
        none_below(after.target_gains(), g),
{
    lemma_detector_is_whole(before);
    lemma_detector_is_whole(after);
    let t = choose|t: FrameTerms|
        {
            &&& #[trigger] frame_terms_of::<A>(before.hop(), before.rate(), p, t)
            &&& forall|i: int|
                0 <= i < BANDS ==> band_step_of::<A>(
                    t,
                    p,
                    centers[i],
                    levels[i],
                    median(window(levels, i)),
                    before.baselines()[i],
                    before.gains()[i],
                    #[trigger] after.step_at(i),
                )
        };
    assert forall|i: int| 0 <= i < BANDS implies g.at_most(#[trigger] after.step_at(i).gain) && g.at_most(
        after.step_at(i).target_gain,
    ) by {
        assert(unit(before.gains()[i]));
        lemma_band_keeps_floor::<A>(
            t,
            p,
            centers[i],
            levels[i],
            median(window(levels, i)),
            before.baselines()[i],
            before.gains()[i],
            after.step_at(i),
            g,
        );
    }
    assert forall|i: int| 0 <= i < BANDS implies g.at_most(#[trigger] after.gains()[i]) by {
        assert(g.at_most(after.step_at(i).gain));
    }
    assert forall|i: int| 0 <= i < BANDS implies g.at_most(#[trigger] after.target_gains()[i]) by {
        assert(g.at_most(after.step_at(i).gain));
    }
}

/// Every gain lies between what 36 dB leave and 1, in every frame since the start.
pub proof fn lemma_gains_stay_in_range<A: Arith>(
    detectors: Seq<Detector>,
    levels: Seq<Seq<Single>>,
    p: Seq<DetectParams>,
    centers: Seq<Single>,
    g: Single,
    n: int,
)
    requires
        monotone::<A>(),
        least_gain::<A>(g),
        0 <= n < detectors.len(),
        detectors.len() == levels.len() + 1,
        detectors.len() == p.len() + 1,
        detectors[0].at_rest(),
        paced::<A>(detectors[0]),
        forall|k: int| 0 <= k < p.len() ==> downward(#[trigger] p[k]),
        forall|k: int|
            0 <= k < levels.len() ==> detectors[k + 1].steps_from::<A>(
                detectors[k],
                #[trigger] levels[k],
                p[k],
                centers,
            ),
    ensures
        all_unit(detectors[n].gains()),
        all_unit(detectors[n].target_gains()),
        none_below(detectors[n].gains(), g),
        none_below(detectors[n].target_gains(), g),
        paced::<A>(detectors[n]),
    decreases n,
{
    lemma_sizes();
    if n == 0 {
        lemma_target_is_unit::<A>(Single(THIRTY_SIX), g);
    } else {
        lemma_gains_stay_in_range::<A>(detectors, levels, p, centers, g, n - 1);
        assert(downward(p[n - 1]));
        assert(detectors[n - 1 + 1].steps_from::<A>(detectors[n - 1], levels[n - 1], p[n - 1], centers));
        lemma_detector_only_reduces::<A>(detectors[n], detectors[n - 1], levels[n - 1], p[n - 1], centers);
        lemma_detector_keeps_floor::<A>(detectors[n], detectors[n - 1], levels[n - 1], p[n - 1], centers, g);
    }
}

// ----- No depth ---------------------------------------------------------------

/// `A` takes ten to the power of zero to be one.
pub open spec fn starts_at_one<A: Arith>() -> bool {
    forall|e: Single, r: Single|
        e.finite() && e.steps() == 0 && #[trigger] pow_of::<A>(Single(TEN), e, r) ==> r == Single(ONE)
}

/// All of these are of ordinary size.
pub open spec fn all_moderate(levels: Seq<Single>) -> bool {
    forall|i: int| 0 <= i < levels.len() ==> moderate(#[trigger] levels[i])
}

/// Parameters that ask for nothing: the depth is zero, and the rest lies in its range.
pub open spec fn asks_for_nothing(p: DetectParams) -> bool {
    &&& p.depth.finite()
    &&& p.depth.steps() == 0
    &&& unit(p.selectivity)
    &&& amount(p.sharpness)
    &&& moderate(p.sharpness)
    &&& in_place(p.node_freqs@, p.node_depths@, p.node_enabled@)
}

/// Nothing is reduced in any band: every gain and every target is one, and every
/// reduction is zero.
pub open spec fn untouched(d: Detector) -> bool {
    forall|i: int|
        0 <= i < BANDS ==> (#[trigger] d.step_at(i)).gain == Single(ONE) && d.step_at(i).target_gain == Single(ONE)
            && d.step_at(i).reduction_db.finite() && d.step_at(i).reduction_db.steps() == 0
}

/// The number that counts as many steps as one is one.
proof fn lemma_is_one(r: Single)
    requires
        r.finite(),
        r.steps() == unity(),
    ensures
        r == Single(ONE),
{
    lemma_sizes();
    lemma_magnitude_orders(r, Single(ONE));
    lemma_magnitude_orders(Single(ONE), r);
}

/// The threshold of a frame lies between 0 and 13 dB.
pub proof fn lemma_threshold_is_moderate<A: Arith>(hop: Single, rate: Single, p: DetectParams, t: FrameTerms)
    requires
        monotone::<A>(),
        unit(p.selectivity),
        frame_terms_of::<A>(hop, rate, p, t),
    ensures
        moderate(t.threshold),
        0 <= t.threshold.steps() <= 13 * unity(),
{
    lemma_sizes();
    let (rest, wide, narrow) = choose|rest: Single, wide: Single, narrow: Single|
        {
            &&& #[trigger] minus_of::<A>(Single(ONE), p.selectivity, rest)
            &&& #[trigger] times_of::<A>(rest, Single(TWELVE), wide)
            &&& #[trigger] times_of::<A>(p.selectivity, Single(ONE), narrow)
            &&& plus_of::<A>(wide, narrow, t.threshold)
        };
    lemma_unit_is_finite(p.selectivity);
    lemma_unit_is_finite(rest);
    assert(within(narrow, p.selectivity));
    assert(within(wide, Single(TWELVE)));
    lemma_pow2_adds(23, 126);
    lemma2_to64();
    let bound = lemma_is_a_number(13, 149);
    lemma_sum::<A>(wide, narrow, t.threshold, bound);
    let flushed = choose|flushed: bool| #[trigger] rounds::<A>(flushed);
    lemma_counts(wide, flushed);
    lemma_counts(narrow, flushed);
    lemma_rounding_stays(counts(wide, flushed) + counts(narrow, flushed), t.threshold, bound);
}

/// A follower at its target stays there.
proof fn lemma_follow_stands<A: Arith>(c: Single, r: Single)
    requires
        monotone::<A>(),
        unit(c),
        follow_of::<A>(Single(ONE), Single(ONE), c, r),
    ensures
        r == Single(ONE),
{
    lemma_sizes();
    lemma_unit_is_moderate(Single(ONE));
    let (way, step) = lemma_follow_parts::<A>(Single(ONE), Single(ONE), c, r);
    let flushed = choose|flushed: bool| #[trigger] rounds::<A>(flushed);
    lemma_not_subnormal(Single(ONE));
    lemma_counts(step, flushed);
    assert(rounds_to(unity(), r));
    assert(Single(ONE).finite());
    assert(apart(r.steps(), unity()) <= apart(Single(ONE).steps(), unity()));
    lemma_is_one(r);
}

/// Of numbers of ordinary size, so is the median.
pub(crate) proof fn lemma_median_is_moderate(levels: Seq<Single>, i: int)
    requires
        levels.len() == BANDS,
        all_moderate(levels),
        0 <= i < BANDS,
    ensures
        moderate(median(window(levels, i))),
{
    let s = window(levels, i);
    let sorted = ordered(s);
    lemma_ordered_permutes(s);
    lemma_ordered_len(s);
    let m = median(s);
    assert(sorted.contains(m));
    sorted.to_multiset_ensures();
    s.to_multiset_ensures();
    assert(sorted.to_multiset().count(m) > 0);
    assert(s.contains(m));
    let k = choose|k: int| 0 <= k < s.len() && s[k] == m;
    assert(s[k] == levels[window_start(i) + k]);
}

/// A follower between numbers of ordinary size stays of ordinary size.
proof fn lemma_follow_stays_moderate<A: Arith>(from: Single, toward: Single, c: Single, r: Single)
    requires
        monotone::<A>(),
        moderate(from),
        moderate(toward),
        unit(c),
        c.at_most(Single(THREE_QUARTERS)),
        follow_of::<A>(from, toward, c, r),
    ensures
        moderate(r),
{
    lemma_sizes();
    let (way, step) = lemma_follow_parts::<A>(from, toward, c, r);
    let flushed = choose|flushed: bool| #[trigger] rounds::<A>(flushed);
    lemma_counts(from, flushed);
    lemma_counts(toward, flushed);
    lemma_counts(step, flushed);
    let f = counts(from, flushed);
    let whole = counts(toward, flushed) - f;
    let x = f + counts(step, flushed);
    let least = Single(ONE_TEN_THOUSANDTH).steps();
    assert(rounds_to(whole, way));
    lemma_rounding_error(whole, way);
    lemma_rounding_stays(whole, way, Single(ROUNDING_LIMIT));
    assert(within(step, way));
    if apart(whole, 0) >= 16 * FRACTION_SPAN {
        lemma_step_is_within::<A>(whole, way, c, step, flushed);
    } else if apart(f, 0) >= 2 * least {
        lemma_opposite(from);
        lemma_opposite(toward);
        assert(from.opposite().finite() && toward.opposite().finite());
        assert(f == from.steps());
        if f > 0 {
            lemma_not_subnormal(toward);
            lemma_far_apart(from, toward);
        } else {
            lemma_not_subnormal(toward);
            lemma_far_apart(from.opposite(), toward.opposite());
        }
        lemma_rounding_stays(whole, way, Single(ZERO));
    }
    let bound = Single(THOUSAND);
    assert(bound.finite());
    assert(-bound.steps() <= x <= bound.steps());
    assert(rounds_to(x, r));
    lemma_rounding_stays(x, r, bound);
}

/// With no depth, a band that nothing was taken from is left as it is.
proof fn lemma_no_depth_leaves_band<A: Arith>(
    t: FrameTerms,
    p: DetectParams,
    center: Single,
    level: Single,
    median: Single,
    baseline: Single,
    s: BandStep,
)
    requires
        monotone::<A>(),
        starts_at_one::<A>(),
        asks_for_nothing(p),
        lasting(t),
        usual_knee(t.knee),
        moderate(t.threshold),
        center.finite(),
        moderate(level),
        moderate(median),
        moderate(baseline),
        band_step_of::<A>(t, p, center, level, median, baseline, Single(ONE), s),
    ensures
        moderate(s.baseline),
        s.reduction_db.finite(),
        s.reduction_db.steps() == 0,
        s.target_gain == Single(ONE),
        s.gain == Single(ONE),
{
    lemma_sizes();
    let (scale, region) = lemma_step_parts::<A>(t, p, center, level, median, baseline, Single(ONE), s);
    lemma_baseline_stays_moderate::<A>(t, p, center, level, median, baseline, Single(ONE), s);
    lemma_node_shape_is_unit::<A>(
        center,
        p.node_freqs@,
        p.node_depths@,
        p.node_shapes@,
        p.node_enabled@,
        region,
    );
    assert(within(s.effective_depth, p.depth));
    lemma_no_depth_reduces_nothing::<A>(t, p.sharpness, level, s.baseline, s.effective_depth, s.reduction_db);
    lemma_opposite(s.reduction_db);
    let back = s.reduction_db.opposite();
    assert(back.finite());
    let e = choose|e: Single| #[trigger]
        over_of::<A>(back, Single(TWENTY), e) && pow_of::<A>(Single(TEN), e, s.target_gain);
    lemma_not_subnormal(Single(TWENTY));
    assert(e.at_most(Single(ZERO)) && Single(ZERO).at_most(e));
    lemma_magnitude_orders(e, Single(ZERO));
    lemma_magnitude_orders(Single(ZERO), e);
    assert(s.target_gain == Single(ONE));
    let (_, d) = lemma_glide_parts::<A>(Single(ONE), Single(ONE), t.release_ms, scale, t, s.gain);
    lemma_follow_stands::<A>(d, s.gain);
}

/// A frame with no depth leaves a detector untouched.
pub proof fn lemma_no_depth_leaves_detector<A: Arith>(
    after: Detector,
    before: Detector,
    levels: Seq<Single>,
    p: DetectParams,
    centers: Seq<Single>,
)
    requires
        monotone::<A>(),
        starts_at_one::<A>(),
        asks_for_nothing(p),
        paced::<A>(before),
        untouched(before),
        all_moderate(before.baselines()),
        levels.len() == BANDS,
        all_moderate(levels),
        forall|i: int| 0 <= i < BANDS ==> (#[trigger] centers[i]).finite(),
        after.steps_from::<A>(before, levels, p, centers),
    ensures
        untouched(after),
        all_moderate(after.baselines()),
        paced::<A>(after),
{
    lemma_detector_is_whole(before);
    lemma_detector_is_whole(after);
    let t = choose|t: FrameTerms|
        {
            &&& #[trigger] frame_terms_of::<A>(before.hop(), before.rate(), p, t)
            &&& forall|i: int|
                0 <= i < BANDS ==> band_step_of::<A>(
                    t,
                    p,
                    centers[i],
                    levels[i],
                    median(window(levels, i)),
                    before.baselines()[i],
                    before.gains()[i],
                    #[trigger] after.step_at(i),
                )
        };
    lemma_threshold_is_moderate::<A>(before.hop(), before.rate(), p, t);
    assert forall|i: int| 0 <= i < BANDS implies (#[trigger] after.step_at(i)).gain == Single(ONE) && after.step_at(
        i,
    ).target_gain == Single(ONE) && after.step_at(i).reduction_db.finite() && after.step_at(i).reduction_db.steps()
        == 0 && moderate(after.step_at(i).baseline) by {
        assert(before.step_at(i).gain == Single(ONE));
        lemma_median_is_moderate(levels, i);
        lemma_no_depth_leaves_band::<A>(
            t,
            p,
            centers[i],
            levels[i],
            median(window(levels, i)),
            before.baselines()[i],
            after.step_at(i),
        );
    }
    assert forall|i: int| 0 <= i < BANDS implies moderate(#[trigger] after.baselines()[i]) by {
        assert(moderate(after.step_at(i).baseline));
    }
}

/// A depth of zero since the start leaves every gain at one, every target at one and
/// every reduction at zero, however many frames there are.
pub proof fn lemma_no_depth_since_the_start<A: Arith>(
    detectors: Seq<Detector>,
    levels: Seq<Seq<Single>>,
    p: Seq<DetectParams>,
    centers: Seq<Single>,
    n: int,
)
    requires
        monotone::<A>(),
        starts_at_one::<A>(),
        0 <= n < detectors.len(),
        detectors.len() == levels.len() + 1,
        detectors.len() == p.len() + 1,
        detectors[0].at_rest(),
        paced::<A>(detectors[0]),
        forall|i: int| 0 <= i < BANDS ==> (#[trigger] centers[i]).finite(),
        forall|k: int| 0 <= k < p.len() ==> asks_for_nothing(#[trigger] p[k]),
        forall|k: int| 0 <= k < levels.len() ==> (#[trigger] levels[k]).len() == BANDS && all_moderate(levels[k]),
        forall|k: int|
            0 <= k < levels.len() ==> detectors[k + 1].steps_from::<A>(
                detectors[k],
                #[trigger] levels[k],
                p[k],
                centers,
            ),
    ensures
        untouched(detectors[n]),
        all_moderate(detectors[n].baselines()),
        paced::<A>(detectors[n]),
    decreases n,
{
    lemma_sizes();
    if n > 0 {
        lemma_no_depth_since_the_start::<A>(detectors, levels, p, centers, n - 1);
        assert(levels[n - 1].len() == BANDS);
        assert(asks_for_nothing(p[n - 1]));
        lemma_no_depth_leaves_detector::<A>(detectors[n], detectors[n - 1], levels[n - 1], p[n - 1], centers);
    }
}

} // verus!
