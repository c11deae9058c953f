//! Which of the times a band goes by.
//!
//! The laws here hold for every arithmetic that repeats itself; those on longer times for
//! one that keeps the order of numbers.

use vstd::prelude::*;
use crate::arith::{exp_of, minus_of, over_of, times_of, Arith};
use crate::dsp::attenuation::{
    all_unit, downward, lemma_band_is_only_reduced, lemma_coef_is_unit, lemma_follow_is_unit, paced, unit,
};
use crate::dsp::determinism::{
    lemma_attenuation, lemma_glide, lemma_node_shape_is_determined, lemma_reduction, lemma_scale, lemma_step_parts,
    repeats, same,
};
use crate::dsp::detector::{
    ballistics_scale_of, band_step_of, coef_of, frame_terms_of, glide_of, lemma_detector_is_whole, median, window, BandStep,
    DetectParams, Detector, FrameTerms, BALLISTICS_ALPHA,
};
use crate::dsp::monotony::{amount, lemma_difference, monotone};
use crate::dsp::response::{
    lasting, lemma_follow_parts, lemma_frame_of_band, lemma_glide_parts, lemma_unit_is_moderate,
};
use crate::dsp::rounding::{lemma_not_subnormal, lemma_sizes, small, ROUNDING_LIMIT};
use crate::dsp::BANDS;
use crate::numbers::{FIVE, HALF, MINUS_ONE, ONE, TENTH, THOUSAND, ZERO};
use crate::single::{lemma_magnitude_orders, Single};

verus! {

/// Two sets of parameters that differ in the attack time at most.
pub open spec fn same_but_attack(p: DetectParams, q: DetectParams) -> bool {
    q == (DetectParams { attack_ms: q.attack_ms, ..p })
}

/// Two sets of parameters that differ in the release time at most.
pub open spec fn same_but_release(p: DetectParams, q: DetectParams) -> bool {
    q == (DetectParams { release_ms: q.release_ms, ..p })
}

// ----- The time that counts ---------------------------------------------------

/// From the same reference, a band is headed for the same gain whatever the times.
proof fn lemma_times_move_no_target<A: Arith>(
    hop: Single,
    rate: Single,
    p: DetectParams,
    q: DetectParams,
    t: FrameTerms,
    u: FrameTerms,
    center: Single,
    level: Single,
    median: Single,
    baseline: Single,
    gain: Single,
    a: BandStep,
    b: BandStep,
)
    requires
        repeats::<A>(),
        q == (DetectParams { attack_ms: q.attack_ms, release_ms: q.release_ms, ..p }),
        frame_terms_of::<A>(hop, rate, p, t),
        frame_terms_of::<A>(hop, rate, q, u),
        band_step_of::<A>(t, p, center, level, median, baseline, gain, a),
        band_step_of::<A>(u, q, center, level, median, baseline, gain, b),
        same(a.baseline, b.baseline),
    ensures
        same(a.effective_depth, b.effective_depth),
        same(a.reduction_db, b.reduction_db),
        same(a.target_gain, b.target_gain),
{
    let (scale, region) = lemma_step_parts::<A>(t, p, center, level, median, baseline, gain, a);
    let (scale2, region2) = lemma_step_parts::<A>(u, q, center, level, median, baseline, gain, b);
    lemma_node_shape_is_determined::<A>(
        center,
        center,
        p.node_freqs@,
        p.node_depths@,
        p.node_shapes@,
        p.node_enabled@,
        region,
        region2,
    );
    lemma_thresholds_agree::<A>(hop, rate, p, q, t, u);
    lemma_reduction::<A>(
        t,
        u,
        p.sharpness,
        level,
        level,
        a.baseline,
        b.baseline,
        a.effective_depth,
        b.effective_depth,
        a.reduction_db,
        b.reduction_db,
    );
    lemma_attenuation::<A>(a.reduction_db, b.reduction_db, a.target_gain, b.target_gain);
}

/// Thresholds and knees do not go by the times.
proof fn lemma_thresholds_agree<A: Arith>(
    hop: Single,
    rate: Single,
    p: DetectParams,
    q: DetectParams,
    t: FrameTerms,
    u: FrameTerms,
)
    requires
        repeats::<A>(),
        p.selectivity == q.selectivity,
        p.soft_mode == q.soft_mode,
        frame_terms_of::<A>(hop, rate, p, t),
        frame_terms_of::<A>(hop, rate, q, u),
    ensures
        same(t.threshold, u.threshold),
        t.knee == u.knee,
        same(t.frame_time, u.frame_time),
{
}

/// The attack of the gain goes by the attack time alone.
proof fn lemma_attacks_agree<A: Arith>(
    hop: Single,
    rate: Single,
    p: DetectParams,
    q: DetectParams,
    t: FrameTerms,
    u: FrameTerms,
)
    requires
        repeats::<A>(),
        frame_terms_of::<A>(hop, rate, p, t),
        frame_terms_of::<A>(hop, rate, q, u),
    ensures
        p.attack_ms == q.attack_ms ==> t.attack_ms == u.attack_ms,
        p.release_ms == q.release_ms ==> t.release_ms == u.release_ms,
{
    lemma_sizes();
    lemma_magnitude_orders(Single(HALF), Single(FIVE));
}

/// While a band is on its way down, its gain goes by the attack time, and the release time
/// makes no difference; on its way up it is the other way round. The same holds of its
/// reference, which rises by the attack time and falls by the release time.
pub proof fn lemma_each_way_has_its_time<A: Arith>(
    before: Detector,
    after_a: Detector,
    after_b: Detector,
    levels: Seq<Single>,
    p: DetectParams,
    q: DetectParams,
    centers: Seq<Single>,
    i: int,
)
    requires
        repeats::<A>(),
        paced::<A>(before),
        0 <= i < BANDS,
        same_but_release(p, q) || same_but_attack(p, q),
        after_a.steps_from::<A>(before, levels, p, centers),
        after_b.steps_from::<A>(before, levels, q, centers),
    ensures
        same_but_release(p, q) && before.baselines()[i].below(median(window(levels, i))) ==> same(
            after_a.baselines()[i],
            after_b.baselines()[i],
        ),
        same_but_attack(p, q) && !before.baselines()[i].below(median(window(levels, i))) ==> same(
            after_a.baselines()[i],
            after_b.baselines()[i],
        ),
        same(after_a.baselines()[i], after_b.baselines()[i]) ==> same(
            after_a.target_gains()[i],
            after_b.target_gains()[i],
        ),
        same(after_a.baselines()[i], after_b.baselines()[i]) && same_but_release(p, q)
            && after_a.target_gains()[i].below(before.gains()[i]) ==> same(after_a.gains()[i], after_b.gains()[i]),
        same(after_a.baselines()[i], after_b.baselines()[i]) && same_but_attack(p, q)
            && !after_a.target_gains()[i].below(before.gains()[i]) ==> same(after_a.gains()[i], after_b.gains()[i]),
{
    let (hop, rate) = (before.hop(), before.rate());
    let m = median(window(levels, i));
    let (center, level) = (centers[i], levels[i]);
    let (baseline, gain) = (before.baselines()[i], before.gains()[i]);
    let (a, b) = (after_a.step_at(i), after_b.step_at(i));
    let t = lemma_frame_of_band::<A>(before, after_a, levels, p, centers, i);
    let u = lemma_frame_of_band::<A>(before, after_b, levels, q, centers, i);
    let (scale, _) = lemma_step_parts::<A>(t, p, center, level, m, baseline, gain, a);
    let (scale2, _) = lemma_step_parts::<A>(u, q, center, level, m, baseline, gain, b);
    lemma_scale::<A>(center, center, scale, scale2);
    lemma_thresholds_agree::<A>(hop, rate, p, q, t, u);
    lemma_attacks_agree::<A>(hop, rate, p, q, t, u);
    let rising = baseline.below(m);
    let track_a = if rising {
        p.attack_ms
    } else {
        p.release_ms
    };
    let track_b = if rising {
        q.attack_ms
    } else {
        q.release_ms
    };
    if track_a == track_b {
        lemma_glide::<A>(
            baseline,
            m,
            baseline,
            m,
            track_a,
            track_b,
            scale,
            scale2,
            t.frame_time,
            u.frame_time,
            a.baseline,
            b.baseline,
        );
    }
    if same(a.baseline, b.baseline) {
        lemma_times_move_no_target::<A>(hop, rate, p, q, t, u, center, level, m, baseline, gain, a, b);
        let ms_a = if a.target_gain.below(gain) {
            t.attack_ms
        } else {
            t.release_ms
        };
        let ms_b = if b.target_gain.below(gain) {
            u.attack_ms
        } else {
            u.release_ms
        };
        if ms_a == ms_b {
            lemma_glide::<A>(
                gain,
                a.target_gain,
                gain,
                b.target_gain,
                ms_a,
                ms_b,
                scale,
                scale2,
                t.frame_time,
                u.frame_time,
                a.gain,
                b.gain,
            );
        }
    }
}

// ----- Longer times -----------------------------------------------------------

/// Divided by more, what is below zero comes closer to it; and a larger share of what is
/// below zero lies further down.
pub open spec fn shares_in_order<A: Arith>() -> bool {
    &&& forall|a: Single, b: Single, d: Single, r: Single, q: Single|
        a.at_most(Single(ZERO)) && Single(ZERO).below(b) && b.at_most(d) && !r.nan() && !q.nan()
            && #[trigger] over_of::<A>(a, b, r) && #[trigger] over_of::<A>(a, d, q) ==> r.at_most(q)
    &&& forall|a: Single, c: Single, d: Single, r: Single, q: Single|
        a.at_most(Single(ZERO)) && Single(ZERO).at_most(c) && c.at_most(d) && !r.nan() && !q.nan()
            && #[trigger] times_of::<A>(a, c, r) && #[trigger] times_of::<A>(a, d, q) ==> q.at_most(r)
}

/// A follower with a longer time goes no larger a share of its way.
proof fn lemma_longer_goes_less<A: Arith>(ms_a: Single, ms_b: Single, t: FrameTerms, c_a: Single, c_b: Single)
    requires
        monotone::<A>(),
        shares_in_order::<A>(),
        lasting(t),
        ms_a.at_most(ms_b),
        coef_of::<A>(ms_a, t.frame_time, c_a),
        coef_of::<A>(ms_b, t.frame_time, c_b),
    ensures
        unit(c_a),
        unit(c_b),
        c_b.at_most(c_a),
{
    lemma_sizes();
    lemma_magnitude_orders(Single(ZERO), Single(TENTH));
    lemma_coef_is_unit::<A>(ms_a, t.frame_time, c_a);
    lemma_coef_is_unit::<A>(ms_b, t.frame_time, c_b);
    let (tau_a, frames_a, rate_a, e_a) = choose|tau: Single, frames: Single, rate: Single, e: Single|
        {
            &&& #[trigger] over_of::<A>(ms_a.larger(Single(TENTH)), Single(THOUSAND), tau)
            &&& #[trigger] over_of::<A>(tau.larger(t.frame_time), t.frame_time, frames)
            &&& #[trigger] over_of::<A>(Single(MINUS_ONE), frames, rate)
            &&& #[trigger] exp_of::<A>(rate, e)
            &&& minus_of::<A>(Single(ONE), e, c_a)
        };
    let (tau_b, frames_b, rate_b, e_b) = choose|tau: Single, frames: Single, rate: Single, e: Single|
        {
            &&& #[trigger] over_of::<A>(ms_b.larger(Single(TENTH)), Single(THOUSAND), tau)
            &&& #[trigger] over_of::<A>(tau.larger(t.frame_time), t.frame_time, frames)
            &&& #[trigger] over_of::<A>(Single(MINUS_ONE), frames, rate)
            &&& #[trigger] exp_of::<A>(rate, e)
            &&& minus_of::<A>(Single(ONE), e, c_b)
        };
    lemma_not_subnormal(Single(THOUSAND));
    assert(!tau_a.nan() && !tau_b.nan());
    assert(tau_a.at_most(tau_b));
    assert(!frames_a.nan() && !frames_b.nan());
    assert(frames_a.at_most(frames_b));
    assert(Single(ONE).at_most(frames_a) && Single(ONE).at_most(frames_b));
    assert(Single(MINUS_ONE).at_most(rate_a) && Single(MINUS_ONE).at_most(rate_b)) by {
        lemma_magnitude_orders(Single(ZERO), Single(MINUS_ONE));
    }
    assert(Single(MINUS_ONE).at_most(Single(ZERO))) by {
        lemma_magnitude_orders(Single(ZERO), Single(MINUS_ONE));
    }
    assert(rate_a.at_most(rate_b));
    assert(e_a.at_most(e_b));
}

/// A gain that follows a target below it ends no lower with a longer time, and one that
/// follows a target above it no higher.
proof fn lemma_longer_follows_less<A: Arith>(
    gain: Single,
    target: Single,
    ms_a: Single,
    ms_b: Single,
    scale: Single,
    t: FrameTerms,
    r: Single,
    q: Single,
)
    requires
        monotone::<A>(),
        shares_in_order::<A>(),
        repeats::<A>(),
        lasting(t),
        unit(gain),
        unit(target),
        amount(ms_a),
        amount(ms_b),
        ms_a.at_most(ms_b),
        amount(scale),
        glide_of::<A>(gain, target, ms_a, scale, t.frame_time, r),
        glide_of::<A>(gain, target, ms_b, scale, t.frame_time, q),
    ensures
        target.at_most(gain) ==> r.at_most(q),
        gain.at_most(target) ==> q.at_most(r),
{
    lemma_sizes();
    let (time_a, c_a) = lemma_glide_parts::<A>(gain, target, ms_a, scale, t, r);
    let (time_b, c_b) = lemma_glide_parts::<A>(gain, target, ms_b, scale, t, q);
    assert(time_a.at_most(time_b));
    lemma_longer_goes_less::<A>(time_a, time_b, t, c_a, c_b);
    lemma_unit_is_moderate(gain);
    lemma_unit_is_moderate(target);
    lemma_follow_is_unit::<A>(gain, target, c_a, r);
    lemma_follow_is_unit::<A>(gain, target, c_b, q);
    let (way_a, step_a) = lemma_follow_parts::<A>(gain, target, c_a, r);
    let (way_b, step_b) = lemma_follow_parts::<A>(gain, target, c_b, q);
    assert(same(way_a, way_b));
    lemma_difference::<A>(target, gain, way_a, Single(ROUNDING_LIMIT));
    if target.at_most(gain) {
        assert(step_a.at_most(step_b));
    }
    if gain.at_most(target) {
        assert(step_b.at_most(step_a));
    }
}

/// A time of ordinary length.
pub open spec fn lapse(ms: Single) -> bool {
    amount(ms) && small(ms.steps())
}

/// Longer times are longer in every frame.
proof fn lemma_longer_terms<A: Arith>(
    hop: Single,
    rate: Single,
    p: DetectParams,
    q: DetectParams,
    t: FrameTerms,
    u: FrameTerms,
)
    requires
        monotone::<A>(),
        lapse(p.attack_ms),
        lapse(q.attack_ms),
        lapse(p.release_ms),
        lapse(q.release_ms),
        p.attack_ms.at_most(q.attack_ms),
        p.release_ms.at_most(q.release_ms),
        frame_terms_of::<A>(hop, rate, p, t),
        frame_terms_of::<A>(hop, rate, q, u),
    ensures
        amount(t.attack_ms),
        amount(u.attack_ms),
        t.attack_ms.at_most(u.attack_ms),
        amount(t.release_ms),
        amount(u.release_ms),
        t.release_ms.at_most(u.release_ms),
{
    lemma_sizes();
    lemma_magnitude_orders(Single(HALF), Single(FIVE));
    let a = choose|ms: Single| #[trigger]
        times_of::<A>(p.attack_ms, Single(HALF), ms) && t.attack_ms == ms.larger(Single(HALF));
    let b = choose|ms: Single| #[trigger]
        times_of::<A>(q.attack_ms, Single(HALF), ms) && u.attack_ms == ms.larger(Single(HALF));
    assert(a.finite() && b.finite() && a.at_most(b));
    let c = choose|ms: Single| #[trigger]
        times_of::<A>(p.release_ms, Single(HALF), ms) && t.release_ms == ms.larger(Single(FIVE));
    let d = choose|ms: Single| #[trigger]
        times_of::<A>(q.release_ms, Single(HALF), ms) && u.release_ms == ms.larger(Single(FIVE));
    assert(c.finite() && d.finite() && c.at_most(d));
}

/// A longer attack time never leaves a band lower on its way down, and a longer release
/// time never leaves it higher on its way up.
pub proof fn lemma_longer_times_go_slower<A: Arith>(
    before: Detector,
    after_a: Detector,
    after_b: Detector,
    levels: Seq<Single>,
    p: DetectParams,
    q: DetectParams,
    centers: Seq<Single>,
    i: int,
)
    requires
        monotone::<A>(),
        shares_in_order::<A>(),
        repeats::<A>(),
        paced::<A>(before),
        all_unit(before.gains()),
        0 <= i < BANDS,
        q == (DetectParams { attack_ms: q.attack_ms, release_ms: q.release_ms, ..p }),
        downward(p),
        lapse(p.attack_ms),
        lapse(q.attack_ms),
        lapse(p.release_ms),
        lapse(q.release_ms),
        p.attack_ms.at_most(q.attack_ms),
        p.release_ms.at_most(q.release_ms),
        forall|scale: Single| #[trigger]
            ballistics_scale_of::<A>(centers[i], Single(BALLISTICS_ALPHA), scale) ==> amount(scale),
        after_a.steps_from::<A>(before, levels, p, centers),
        after_b.steps_from::<A>(before, levels, q, centers),
        same(after_a.baselines()[i], after_b.baselines()[i]),
    ensures
        after_a.target_gains()[i] == after_b.target_gains()[i],
        after_a.target_gains()[i].below(before.gains()[i]) ==> after_a.gains()[i].at_most(after_b.gains()[i]),
        before.gains()[i].at_most(after_a.target_gains()[i]) ==> after_b.gains()[i].at_most(after_a.gains()[i]),
{
    lemma_detector_is_whole(before);
    let (hop, rate) = (before.hop(), before.rate());
    let m = median(window(levels, i));
    let (center, level) = (centers[i], levels[i]);
    let (baseline, gain) = (before.baselines()[i], before.gains()[i]);
    let (a, b) = (after_a.step_at(i), after_b.step_at(i));
    let t = lemma_frame_of_band::<A>(before, after_a, levels, p, centers, i);
    let u = lemma_frame_of_band::<A>(before, after_b, levels, q, centers, i);
    let (scale, _) = lemma_step_parts::<A>(t, p, center, level, m, baseline, gain, a);
    let (scale2, _) = lemma_step_parts::<A>(u, q, center, level, m, baseline, gain, b);
    lemma_scale::<A>(center, center, scale, scale2);
    assert(scale == scale2);
    lemma_thresholds_agree::<A>(hop, rate, p, q, t, u);
    assert(t.frame_time == u.frame_time);
    lemma_times_move_no_target::<A>(hop, rate, p, q, t, u, center, level, m, baseline, gain, a, b);
    assert(unit(gain));
    lemma_band_is_only_reduced::<A>(t, p, center, level, m, baseline, gain, a);
    assert(a.target_gain == b.target_gain);
    lemma_longer_terms::<A>(hop, rate, p, q, t, u);
    let ms_a = if a.target_gain.below(gain) {
        t.attack_ms
    } else {
        t.release_ms
    };
    let ms_b = if a.target_gain.below(gain) {
        u.attack_ms
    } else {
        u.release_ms
    };
    lemma_longer_follows_less::<A>(gain, a.target_gain, ms_a, ms_b, scale, t, a.gain, b.gain);
}

} // verus!
