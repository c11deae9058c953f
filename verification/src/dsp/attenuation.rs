//! No band is ever made louder.
//!
//! The laws here hold for every arithmetic that keeps signs and bounds where exact
//! arithmetic would.

use vstd::prelude::*;
use vstd::arithmetic::div_mod::{lemma_fundamental_div_mod, lemma_fundamental_div_mod_converse};
use vstd::arithmetic::power2::{
    lemma2_to64, lemma_pow2_pos, lemma_pow2_strictly_increases, lemma_pow2_unfold, pow2,
};
use crate::arith::{
    exp_of, log10_of, log2_of, minus_of, over_of, plus_of, pow_of, square_of, times_of, Arith,
};
use crate::dsp::analysis::{BandAnalysis, Fourier};
use crate::dsp::detector::{
    attenuation_of, ballistics_scale_of, band_step_of, band_step_with, blend_of, coef_of, follow_of,
    frame_terms_of, glide_of, knee_of, lemma_detector_is_whole, median, node_shape_of, node_sums,
    reduction_of, slot_adds, weight_of, window, BandStep, DetectParams, Detector, FrameTerms, BALLISTICS_ALPHA,
    HARD_KNEE_DB, SOFT_KNEE_DB,
};
use crate::dsp::rounding::{
    apart, counts, lemma_counts, lemma_no_jump_up, lemma_not_subnormal, lemma_sizes, rounds, rounds_to, subnormal,
};
use crate::dsp::suppressor::{
    channel_step_of, frame_reports, fresh_gains, joined_of, lower_gains, suppressed_of, ChannelFrame,
    ChannelState, SuppressorState, FFT_SIZES, SIZES,
};
use crate::dsp::{BANDS, MAX_NODES};
use crate::numbers::{
    HALF, MINUS_ONE, ONE, ONE_MILLIONTH, QUARTER, TEN, TENTH, THIRTY_SIX, THOUSAND, THREE_QUARTERS, TWENTY, TWO,
    ZERO,
};
use crate::single::{lemma_is_a_number, lemma_magnitude_orders, Single, FRACTION_SPAN};

verus! {

/// A number from 0 to 1.
pub open spec fn unit(x: Single) -> bool {
    Single(ZERO).at_most(x) && x.at_most(Single(ONE))
}

/// Nothing below zero; a NaN is let through.
pub open spec fn up(x: Single) -> bool {
    x.nan() || Single(ZERO).at_most(x)
}

/// `A` keeps signs and bounds where exact arithmetic would: sums, products and
/// quotients of numbers from zero up are from zero up, squares and powers of `e`
/// always are, and a product of two signs is negative; powers with exponents up to
/// zero lie between 0 and 1, and so does what such a number leaves of 1; a quotient
/// has the sign of its terms, is at least 1 where the divisor is no larger and at
/// most 1 where it is no smaller, and by a number from 1 up it is no larger than what
/// is divided. A product with a number from 0 to 1 never lies beyond the other factor.
/// Divisors that a machine may take as zero are left out.
pub open spec fn keeps_bounds<A: Arith>() -> bool {
    &&& forall|a: Single, b: Single, r: Single|
        up(a) && up(b) && #[trigger] plus_of::<A>(a, b, r) ==> up(r)
    &&& forall|a: Single, b: Single, r: Single|
        up(a) && up(b) && #[trigger] times_of::<A>(a, b, r) ==> up(r)
    &&& forall|a: Single, b: Single, r: Single|
        Single(HALF).at_most(a) && Single(HALF).at_most(b) && #[trigger] times_of::<A>(a, b, r) ==> Single(
            QUARTER,
        ).at_most(r)
    &&& forall|a: Single, b: Single, r: Single|
        a.below(Single(ZERO)) && a.finite() && !subnormal(a) && Single(ZERO).at_most(b)
            && #[trigger] times_of::<A>(a, b, r) ==> r.at_most(Single(ZERO))
    &&& forall|a: Single, b: Single, r: Single|
        b.at_most(Single(ZERO)) && Single(ZERO).below(a) && a.finite() && !subnormal(a)
            && #[trigger] times_of::<A>(a, b, r) ==> r.at_most(Single(ZERO))
    &&& forall|a: Single, r: Single| #[trigger] square_of::<A>(a, r) ==> up(r)
    &&& forall|a: Single, r: Single| #[trigger] exp_of::<A>(a, r) ==> up(r)
    &&& forall|a: Single, r: Single|
        a.at_most(Single(ZERO)) && #[trigger] exp_of::<A>(a, r) ==> unit(r)
    &&& forall|a: Single, r: Single|
        Single(MINUS_ONE).at_most(a) && #[trigger] exp_of::<A>(a, r) ==> Single(QUARTER).at_most(r)
    &&& forall|e: Single, r: Single|
        e.at_most(Single(ZERO)) && #[trigger] pow_of::<A>(Single(TEN), e, r) ==> unit(r)
    &&& forall|a: Single, r: Single| unit(a) && #[trigger] log10_of::<A>(a, r) ==> r.at_most(Single(ZERO))
    &&& forall|a: Single, r: Single| unit(a) && #[trigger] minus_of::<A>(Single(ONE), a, r) ==> unit(r)
    &&& forall|a: Single, b: Single, r: Single|
        up(a) && Single(ZERO).below(b) && #[trigger] over_of::<A>(a, b, r) ==> up(r)
    &&& forall|a: Single, b: Single, r: Single|
        a.at_most(Single(ZERO)) && Single(ZERO).below(b) && !subnormal(b) && (a.finite() || b.finite())
            && #[trigger] over_of::<A>(a, b, r) ==> r.at_most(Single(ZERO))
    &&& forall|a: Single, b: Single, r: Single|
        b.at_most(a) && Single(ZERO).below(b) && !subnormal(b) && b.finite() && #[trigger] over_of::<A>(a, b, r)
            ==> Single(ONE).at_most(r)
    &&& forall|a: Single, b: Single, r: Single|
        Single(ZERO).at_most(a) && a.at_most(b) && Single(ZERO).below(b) && !subnormal(b) && b.finite()
            && #[trigger] over_of::<A>(a, b, r) ==> unit(r)
    &&& forall|a: Single, b: Single, r: Single|
        a.finite() && a.at_most(Single(ZERO)) && Single(ONE).at_most(b) && #[trigger] over_of::<A>(a, b, r)
            ==> a.at_most(r)
    &&& forall|a: Single, c: Single, r: Single|
        a.finite() && unit(c) && #[trigger] times_of::<A>(a, c, r) ==> within(r, a)
    &&& forall|a: Single, c: Single, r: Single|
        a.finite() && unit(c) && #[trigger] times_of::<A>(c, a, r) ==> within(r, a)
}

/// `r` lies between zero and `a`.
pub open spec fn within(r: Single, a: Single) -> bool {
    r.finite() && if a.steps() >= 0 {
        0 <= r.steps() <= a.steps()
    } else {
        a.steps() <= r.steps() <= 0
    }
}

/// `A` keeps bounds, and rounds to the nearest number. Whether it takes subnormal
/// numbers as zero is left open.
pub open spec fn tame<A: Arith>() -> bool {
    keeps_bounds::<A>() && exists|flushed: bool| #[trigger] rounds::<A>(flushed)
}

/// Rounding never goes past a number from 0 to 1.
proof fn lemma_rounding_keeps_unit(exact: int, r: Single)
    requires
        rounds_to(exact, r),
        0 <= exact <= Single(ONE).steps(),
    ensures
        unit(r),
{
    lemma_constants();
    assert(Single(ZERO).finite() && Single(ZERO).steps() == 0);
    assert(Single(ONE).finite() && Single(ONE).steps() > 0);
}

/// The next number after 1 is further away than rounding a number up to 1 ever goes.
pub(crate) proof fn lemma_above_one(exact: int, way: Single, r: Single)
    requires
        0 <= exact <= Single(ONE).steps(),
        rounds_to(exact, way),
        r.finite(),
        r.steps() > Single(ONE).steps(),
    ensures
        r.steps() - Single(ONE).steps() > 2 * apart(way.steps(), exact),
{
    let grid = pow2(125) as int;
    let span = FRACTION_SPAN as int;
    lemma_pow2_pos(125);
    lemma_pow2_unfold(126);
    let next = Single((ONE + 1) as u32);
    lemma_fundamental_div_mod_converse(ONE as int, span, 127, 0);
    lemma_fundamental_div_mod_converse(ONE as int + 1, span, 127, 1);
    assert(Single(ONE).steps() == span * pow2(126));
    assert(next.steps() == (1 + span) * pow2(126));
    assert((1 + span) * pow2(126) == pow2(126) + span * pow2(126)) by (nonlinear_arith);
    assert(span * (2 * grid) == (2 * span) * grid) by (nonlinear_arith);
    lemma_magnitude_orders(r, Single(ONE));
    lemma_magnitude_orders(next, r);
    assert(r.steps() - Single(ONE).steps() >= 2 * grid);
    let k = exact / grid;
    lemma_fundamental_div_mod(exact, grid);
    assert(grid * k == k * grid) by (nonlinear_arith);
    assert(0 <= k <= 2 * span) by (nonlinear_arith)
        requires
            grid > 0,
            0 <= exact,
            exact <= (2 * span) * grid,
            exact == grid * k + exact % grid,
            0 <= exact % grid < grid,
    ;
    if k < 2 * span {
        let m = lemma_is_a_number(k as nat, 125);
        assert(apart(m.steps(), exact) < grid);
    } else {
        assert(apart(Single(ONE).steps(), exact) == 0);
        assert(Single(ONE).finite());
    }
    lemma_pow2_strictly_increases(23, 125);
    lemma2_to64();
}

/// A follower that moves between numbers from 0 to 1 stays there.
pub proof fn lemma_follow_is_unit<A: Arith>(from: Single, toward: Single, c: Single, r: Single)
    requires
        tame::<A>(),
        unit(from),
        unit(toward),
        unit(c),
        follow_of::<A>(from, toward, c, r),
    ensures
        unit(r),
{
    lemma_constants();
    lemma_sizes();
    let flushed = choose|flushed: bool| #[trigger] rounds::<A>(flushed);
    let (way, step) = choose|way: Single, step: Single|
        {
            &&& #[trigger] minus_of::<A>(toward, from, way)
            &&& #[trigger] times_of::<A>(way, c, step)
            &&& plus_of::<A>(from, step, r)
        };
    let one = Single(ONE).steps();
    let f = counts(from, flushed);
    let d = counts(toward, flushed) - f;
    lemma_unit_is_finite(from);
    lemma_unit_is_finite(toward);
    lemma_counts(from, flushed);
    lemma_counts(toward, flushed);
    assert(rounds_to(d, way));
    assert(Single(ZERO).finite() && Single(ZERO).steps() == 0);
    assert(Single(ONE).finite());
    lemma_counts(step, flushed);
    let x = f + counts(step, flushed);
    if d >= 0 {
        assert(0 <= way.steps() <= one);
        assert(within(step, way));
        assert(rounds_to(x, r));
        if x <= one {
            lemma_rounding_keeps_unit(x, r);
        } else {
            if r.steps() > one {
                lemma_above_one(d, way, r);
                assert(apart(r.steps(), x) <= apart(Single(ONE).steps(), x));
            }
        }
    } else {
        crate::single::lemma_opposite(from);
        assert(from.opposite().finite());
        assert(-f <= way.steps() <= 0);
        assert(within(step, way));
        assert(rounds_to(x, r));
        lemma_rounding_keeps_unit(x, r);
    }
}

/// A number from 0 to 1 is finite.
pub proof fn lemma_unit_is_finite(x: Single)
    requires
        unit(x),
    ensures
        x.finite(),
{
    lemma_magnitude_orders(Single(ONE), x);
    lemma_magnitude_orders(x, Single(ONE));
}

/// The order of the constants that the proofs here go by.
proof fn lemma_constants()
    ensures
        Single(ZERO).below(Single(ONE)),
        Single(ZERO).below(Single(ONE_MILLIONTH)),
        Single(ZERO).below(Single(TWENTY)),
        Single(TWENTY).finite(),
        Single(ZERO).at_most(Single(THIRTY_SIX)),
        Single(ZERO).at_most(Single(HALF)),
        Single(ZERO).below(Single(QUARTER)),
        Single(HALF).at_most(Single(TWO)),
        Single(HALF).at_most(Single(HARD_KNEE_DB)),
        Single(HALF).at_most(Single(SOFT_KNEE_DB)),
        Single(MINUS_ONE).finite(),
        Single(MINUS_ONE).at_most(Single(ZERO)),
        unit(Single(ONE)),
{
    lemma_magnitude_orders(Single(ZERO), Single(ONE));
    lemma_magnitude_orders(Single(ZERO), Single(ONE_MILLIONTH));
    lemma_magnitude_orders(Single(ZERO), Single(TWENTY));
    lemma_magnitude_orders(Single(ZERO), Single(THIRTY_SIX));
    lemma_magnitude_orders(Single(ZERO), Single(HALF));
    lemma_magnitude_orders(Single(ZERO), Single(QUARTER));
    lemma_magnitude_orders(Single(HALF), Single(TWO));
    lemma_magnitude_orders(Single(HALF), Single(HARD_KNEE_DB));
    lemma_magnitude_orders(Single(HALF), Single(SOFT_KNEE_DB));
}

/// Parameters under which nothing is made louder: no depth is below zero.
pub open spec fn downward(p: DetectParams) -> bool {
    &&& up(p.depth)
    &&& up(p.sharpness)
    &&& forall|j: int| 0 <= j < MAX_NODES ==> up(#[trigger] p.node_depths@[j])
}

proof fn lemma_sums_stay_up<A: Arith>(
    log: Single,
    freqs: Seq<Single>,
    depths: Seq<Single>,
    shapes: Seq<usize>,
    enabled: Seq<bool>,
    sums: Seq<Single>,
    totals: Seq<Single>,
    j: int,
)
    requires
        tame::<A>(),
        node_sums::<A>(log, freqs, depths, shapes, enabled, sums, totals),
        forall|k: int| 0 <= k < MAX_NODES ==> up(#[trigger] depths[k]),
        0 <= j <= MAX_NODES,
    ensures
        up(sums[j]),
        up(totals[j]),
    decreases j,
{
    lemma_constants();
    if j > 0 {
        let i = j - 1;
        lemma_sums_stay_up::<A>(log, freqs, depths, shapes, enabled, sums, totals, i);
        assert(slot_adds::<A>(log, freqs, depths, shapes, enabled, sums, totals, i));
        if enabled[i] {
            let (anchor, dist, w, share) = choose|anchor: Single, dist: Single, w: Single, share: Single|
                {
                    &&& #[trigger] log2_of::<A>(freqs[i], anchor)
                    &&& #[trigger] minus_of::<A>(log, anchor, dist)
                    &&& #[trigger] weight_of::<A>(dist, shapes[i], w)
                    &&& #[trigger] times_of::<A>(depths[i], w, share)
                    &&& plus_of::<A>(sums[i], share, sums[i + 1])
                    &&& plus_of::<A>(totals[i], w, totals[i + 1])
                };
            assert(up(w));
            assert(up(depths[i]));
            assert(up(share));
        }
    }
}

proof fn lemma_region_is_up<A: Arith>(freq: Single, p: DetectParams, r: Single)
    requires
        tame::<A>(),
        downward(p),
        node_shape_of::<A>(
            freq,
            p.node_freqs@,
            p.node_depths@,
            p.node_shapes@,
            p.node_enabled@,
            r,
        ),
    ensures
        up(r),
{
    lemma_constants();
    let n = MAX_NODES as int;
    let (log, sums, totals) = choose|log: Single, sums: Seq<Single>, totals: Seq<Single>|
        {
            &&& #[trigger] log2_of::<A>(freq.larger(Single(ONE)), log)
            &&& #[trigger] node_sums::<A>(
                log,
                p.node_freqs@,
                p.node_depths@,
                p.node_shapes@,
                p.node_enabled@,
                sums,
                totals,
            )
            &&& blend_of::<A>(sums[n], totals[n], r)
        };
    lemma_sums_stay_up::<A>(
        log,
        p.node_freqs@,
        p.node_depths@,
        p.node_shapes@,
        p.node_enabled@,
        sums,
        totals,
        n,
    );
    let total = totals[n];
    if Single(ONE_MILLIONTH).below(total) {
        let coverage = total.held(Single(ZERO), Single(ONE));
        assert(Single(ZERO).below(total));
        assert(unit(coverage));
    }
}

/// `s` is a reduction from 0 to 36 dB, whatever the level.
proof fn lemma_reduction_is_down<A: Arith>(
    t: FrameTerms,
    sharpness: Single,
    level: Single,
    baseline: Single,
    depth: Single,
    r: Single,
)
    requires
        tame::<A>(),
        t.knee == Single(HARD_KNEE_DB) || t.knee == Single(SOFT_KNEE_DB),
        up(sharpness),
        up(depth),
        reduction_of::<A>(t, sharpness, level, baseline, depth, r),
    ensures
        Single(ZERO).at_most(r),
        r.at_most(Single(THIRTY_SIX)),
{
    lemma_constants();
    let (reference, excess, slope, k, raw) = choose|reference: Single, excess: Single, slope: Single, k: Single, raw: Single|
        {
            &&& #[trigger] plus_of::<A>(baseline, t.threshold, reference)
            &&& #[trigger] minus_of::<A>(level, reference, excess)
            &&& #[trigger] plus_of::<A>(Single(HALF), sharpness, slope)
            &&& #[trigger] times_of::<A>(depth, slope, k)
            &&& #[trigger] knee_of::<A>(excess, k, t.knee, raw)
            &&& r == raw.smaller(Single(THIRTY_SIX))
        };
    assert(up(slope));
    assert(up(k));
    assert(up(raw));
}

/// A follower goes from 0 to 1 of its way in a frame, unless frames last no time.
pub(crate) proof fn lemma_coef_is_unit<A: Arith>(ms: Single, frame_time: Single, c: Single)
    requires
        tame::<A>(),
        Single(ZERO).below(frame_time),
        frame_time.finite(),
        !subnormal(frame_time),
        coef_of::<A>(ms, frame_time, c),
    ensures
        unit(c),
        c.at_most(Single(THREE_QUARTERS)),
{
    lemma_constants();
    lemma_sizes();
    let flushed = choose|flushed: bool| #[trigger] rounds::<A>(flushed);
    let (tau, frames, rate, e) = choose|tau: Single, frames: Single, rate: Single, e: Single|
        {
            &&& #[trigger] over_of::<A>(ms.larger(Single(TENTH)), Single(THOUSAND), tau)
            &&& #[trigger] over_of::<A>(tau.larger(frame_time), frame_time, frames)
            &&& #[trigger] over_of::<A>(Single(MINUS_ONE), frames, rate)
            &&& #[trigger] exp_of::<A>(rate, e)
            &&& minus_of::<A>(Single(ONE), e, c)
        };
    assert(frame_time.at_most(tau.larger(frame_time)));
    assert(Single(ONE).at_most(frames));
    assert(Single(ZERO).below(frames));
    lemma_not_subnormal(frames);
    assert(rate.at_most(Single(ZERO)));
    assert(Single(MINUS_ONE).at_most(rate));
    assert(unit(e));
    lemma_unit_is_finite(e);
    lemma_not_subnormal(e);
    lemma_not_subnormal(Single(ONE));
    let exact = counts(Single(ONE), flushed) - counts(e, flushed);
    assert(rounds_to(exact, c));
    assert(Single(THREE_QUARTERS).finite());
    lemma_no_jump_up(exact, c, Single(THREE_QUARTERS));
}

proof fn lemma_glide_is_unit<A: Arith>(
    from: Single,
    toward: Single,
    base_ms: Single,
    scale: Single,
    frame_time: Single,
    r: Single,
)
    requires
        tame::<A>(),
        Single(ZERO).below(frame_time),
        frame_time.finite(),
        !subnormal(frame_time),
        unit(from),
        unit(toward),
        glide_of::<A>(from, toward, base_ms, scale, frame_time, r),
    ensures
        unit(r),
{
    let (ms, c) = choose|ms: Single, c: Single|
        {
            &&& #[trigger] times_of::<A>(base_ms, scale, ms)
            &&& #[trigger] coef_of::<A>(ms, frame_time, c)
            &&& follow_of::<A>(from, toward, c, r)
        };
    lemma_coef_is_unit::<A>(ms, frame_time, c);
    lemma_follow_is_unit::<A>(from, toward, c, r);
}

/// Whatever its level, a band's target and its gain lie between 0 and 1, and its
/// reduction between 0 and 36 dB.
pub proof fn lemma_band_is_only_reduced<A: Arith>(
    t: FrameTerms,
    p: DetectParams,
    center: Single,
    level: Single,
    median: Single,
    baseline: Single,
    gain: Single,
    s: BandStep,
)
    requires
        tame::<A>(),
        downward(p),
        Single(ZERO).below(t.frame_time),
        t.frame_time.finite(),
        !subnormal(t.frame_time),
        t.knee == Single(HARD_KNEE_DB) || t.knee == Single(SOFT_KNEE_DB),
        unit(gain),
        band_step_of::<A>(t, p, center, level, median, baseline, gain, s),
    ensures
        Single(ZERO).at_most(s.reduction_db),
        s.reduction_db.at_most(Single(THIRTY_SIX)),
        unit(s.target_gain),
        unit(s.gain),
{
    lemma_constants();
    let (scale, region) = choose|scale: Single, region: Single|
        {
            &&& #[trigger] ballistics_scale_of::<A>(center, Single(BALLISTICS_ALPHA), scale)
            &&& #[trigger] node_shape_of::<A>(
                center,
                p.node_freqs@,
                p.node_depths@,
                p.node_shapes@,
                p.node_enabled@,
                region,
            )
            &&& band_step_with::<A>(t, p, scale, region, level, median, baseline, gain, s)
        };
    lemma_region_is_up::<A>(center, p, region);
    assert(up(s.effective_depth));
    lemma_reduction_is_down::<A>(
        t,
        p.sharpness,
        level,
        s.baseline,
        s.effective_depth,
        s.reduction_db,
    );
    crate::single::lemma_opposite(s.reduction_db);
    lemma_target_is_unit::<A>(s.reduction_db, s.target_gain);
    let follow = if s.target_gain.below(gain) {
        t.attack_ms
    } else {
        t.release_ms
    };
    lemma_glide_is_unit::<A>(gain, s.target_gain, follow, scale, t.frame_time, s.gain);
}

pub(crate) proof fn lemma_target_is_unit<A: Arith>(reduction_db: Single, r: Single)
    requires
        tame::<A>(),
        Single(ZERO).at_most(reduction_db),
        attenuation_of::<A>(reduction_db, r),
    ensures
        unit(r),
{
    lemma_constants();
    crate::single::lemma_opposite(reduction_db);
    assert(reduction_db.opposite().unsigned() == reduction_db.unsigned());
    assert(reduction_db.opposite().at_most(Single(ZERO)));
}

/// All of these lie between 0 and 1.
pub open spec fn all_unit(gains: Seq<Single>) -> bool {
    forall|i: int| 0 <= i < gains.len() ==> unit(#[trigger] gains[i])
}

/// Frames follow each other in a time that can be told.
pub open spec fn paced<A: Arith>(d: Detector) -> bool {
    forall|t: Single| #[trigger]
        over_of::<A>(d.hop(), d.rate(), t) ==> Single(ZERO).below(t) && t.finite() && !subnormal(t)
}

/// A frame never takes the gain of a band out of the range from 0 to 1.
pub proof fn lemma_detector_only_reduces<A: Arith>(
    after: Detector,
    before: Detector,
    levels: Seq<Single>,
    p: DetectParams,
    centers: Seq<Single>,
)
    requires
        tame::<A>(),
        downward(p),
        paced::<A>(before),
        all_unit(before.gains()),
        after.steps_from::<A>(before, levels, p, centers),
    ensures
        all_unit(after.gains()),
        all_unit(after.target_gains()),
{
    lemma_detector_is_whole(before);
    lemma_detector_is_whole(after);
    let t = choose|t: FrameTerms|
        {
            &&& #[trigger] frame_terms_of::<A>(before.hop(), before.rate(), p, t)
            &&& forall|i: int|
                0 <= i < BANDS ==> band_step_of::<A>(
                    t,
                    p,
                    centers[i],
                    levels[i],
                    median(window(levels, i)),
                    before.baselines()[i],
                    before.gains()[i],
                    #[trigger] after.step_at(i),
                )
        };
    assert forall|i: int| 0 <= i < BANDS implies unit(#[trigger] after.step_at(i).gain) && unit(
        after.step_at(i).target_gain,
    ) by {
        assert(unit(before.gains()[i]));
        lemma_band_is_only_reduced::<A>(
            t,
            p,
            centers[i],
            levels[i],
            median(window(levels, i)),
            before.baselines()[i],
            before.gains()[i],
            after.step_at(i),
        );
    }
    assert forall|i: int| 0 <= i < BANDS implies unit(#[trigger] after.gains()[i]) by {
        assert(unit(after.step_at(i).gain));
    }
    assert forall|i: int| 0 <= i < BANDS implies unit(#[trigger] after.target_gains()[i]) by {
        assert(unit(after.step_at(i).gain));
    }
}

/// Every gain of the suppressor lies between 0 and 1.
pub open spec fn only_reduces<A: Arith, F: Fourier>(s: SuppressorState<F>) -> bool {
    &&& all_unit(s.applied[0])
    &&& all_unit(s.applied[1])
    &&& forall|c: int, i: int|
        0 <= c < 2 && 0 <= i < SIZES ==> all_unit((#[trigger] s.channels[c][i]).detector.gains())
            && paced::<A>(s.channels[c][i].detector)
}

/// A suppressor fresh from the start makes nothing louder.
pub proof fn lemma_fresh_suppressor_only_reduces<A: Arith, F: Fourier>(s: SuppressorState<F>, rate: Single)
    requires
        s.fresh::<A>(rate),
        forall|c: int, i: int|
            0 <= c < 2 && 0 <= i < SIZES ==> paced::<A>((#[trigger] s.channels[c][i]).detector),
    ensures
        only_reduces::<A, F>(s),
{
    lemma_constants();
    assert forall|c: int, i: int| 0 <= c < 2 && 0 <= i < SIZES implies all_unit(
        (#[trigger] s.channels[c][i]).detector.gains(),
    ) && paced::<A>(s.channels[c][i].detector) by {
        assert(s.channels[c][i].fresh::<A>(FFT_SIZES@[i], rate));
    }
}

pub(crate) proof fn lemma_channel_only_reduces<A: Arith, F: Fourier>(
    a: ChannelState<F>,
    x: Single,
    p: DetectParams,
    b: ChannelState<F>,
    dry: Single,
    frame: Option<ChannelFrame>,
)
    requires
        tame::<A>(),
        downward(p),
        paced::<A>(a.detector),
        all_unit(a.detector.gains()),
        channel_step_of::<A, F>(a, x, p, b, dry, frame),
    ensures
        paced::<A>(b.detector),
        all_unit(b.detector.gains()),
        frame matches Some(f) ==> all_unit(f.gains@),
{
    let r = choose|r: Option<BandAnalysis>|
        {
            &&& #[trigger] b.analysis.takes::<A>(&a.analysis, x, r)
            &&& r is None ==> frame is None && b.detector == a.detector
            &&& r matches Some(an) ==> {
                &&& frame is Some
                &&& b.detector.steps_from::<A>(a.detector, an.levels@, p, b.analysis.layout().centers@)
                &&& frame_reports(an, b.detector, frame->0)
            }
        };
    if let Some(an) = r {
        lemma_detector_only_reduces::<A>(
            b.detector,
            a.detector,
            an.levels@,
            p,
            b.analysis.layout().centers@,
        );
    }
}

proof fn lemma_lower_gains_are_unit(a: Seq<Single>, b: Seq<Single>)
    requires
        all_unit(a),
        all_unit(b),
        a.len() == BANDS,
        b.len() == BANDS,
    ensures
        all_unit(lower_gains(a, b)),
{
    assert forall|i: int| 0 <= i < BANDS implies unit(#[trigger] lower_gains(a, b)[i]) by {
        assert(unit(a[i]) && unit(b[i]));
    }
}

pub(crate) proof fn lemma_fresh_gains_are_unit(
    own: Option<ChannelFrame>,
    left: Option<ChannelFrame>,
    right: Option<ChannelFrame>,
    linked: bool,
)
    requires
        own matches Some(f) ==> all_unit(f.gains@),
        left matches Some(f) ==> all_unit(f.gains@),
        right matches Some(f) ==> all_unit(f.gains@),
    ensures
        fresh_gains(own, left, right, linked) matches Some(g) ==> all_unit(g),
{
    if left is Some && right is Some {
        lemma_lower_gains_are_unit(left->0.gains@, right->0.gains@);
    }
}

/// A sample never takes a gain of the suppressor out of the range from 0 to 1: no
/// band is ever made louder, on either channel.
pub proof fn lemma_suppressor_only_reduces<A: Arith, F: Fourier>(
    s: SuppressorState<F>,
    left: Single,
    right: Single,
    r: SuppressorState<F>,
    out: (Single, Single),
)
    requires
        tame::<A>(),
        s.wf(),
        downward(s.params),
        only_reduces::<A, F>(s),
        suppressed_of::<A, F>(s, left, right, r, out),
    ensures
        only_reduces::<A, F>(r),
{
    let idx = s.fft_index as int;
    let (mid_l, mid_r, dry_l, dry_r, frame_l, frame_r) = choose|mid_l: ChannelState<F>, mid_r: ChannelState<F>, dry_l: Single, dry_r: Single, frame_l: Option<ChannelFrame>, frame_r: Option<ChannelFrame>|
        {
            &&& #[trigger] channel_step_of::<A, F>(
                s.channels[0][idx],
                left,
                s.params,
                mid_l,
                dry_l,
                frame_l,
            )
            &&& #[trigger] channel_step_of::<A, F>(
                s.channels[1][idx],
                right,
                s.params,
                mid_r,
                dry_r,
                frame_r,
            )
            &&& joined_of::<A, F>(s, mid_l, mid_r, dry_l, dry_r, frame_l, frame_r, r, out)
        };
    assert(all_unit(s.channels[0][idx].detector.gains()));
    assert(all_unit(s.channels[1][idx].detector.gains()));
    lemma_channel_only_reduces::<A, F>(s.channels[0][idx], left, s.params, mid_l, dry_l, frame_l);
    lemma_channel_only_reduces::<A, F>(s.channels[1][idx], right, s.params, mid_r, dry_r, frame_r);
    lemma_fresh_gains_are_unit(frame_l, frame_l, frame_r, s.stereo_linked);
    lemma_fresh_gains_are_unit(frame_r, frame_l, frame_r, s.stereo_linked);
    assert forall|c: int, i: int| 0 <= c < 2 && 0 <= i < SIZES implies all_unit(
        (#[trigger] r.channels[c][i]).detector.gains(),
    ) && paced::<A>(r.channels[c][i].detector) by {
        assert(all_unit(s.channels[c][i].detector.gains()));
    }
}

} // verus!
