//! A reset takes a suppressor back to the start.
//!
//! Filters that have been given no gains pass everything, at whichever rate they
//! run and however far their ramp has come; so nothing tells a suppressor that was
//! reset from a fresh one, whatever its filters were doing. The laws here hold for
//! every arithmetic that answers alike every time and goes nowhere between two
//! equal ends of a ramp.

use vstd::prelude::*;
use crate::arith::{minus_of, plus_of, times_of, Arith};
use crate::dsp::analysis::{lemma_engine_is_whole, Fourier};
use crate::dsp::agreement::{
    lemma_channel_step, lemma_filters_updated, lemma_fresh_gains, lemma_output, lemma_sample_is_mixed, lemma_sides, lemma_wet,
    news_same, same_settings, Side,
};
use crate::dsp::determinism::{
    cascades_same, detectors_alike, engines_alike, equipped, layouts_same, lemma_double_sample_is_determined,
    lemma_gains_set_is_determined, lemma_sample_is_determined, manned, repeats, same, same_pair, setups_alike,
    transforms_alike,
};
use crate::dsp::bands::BandLayout;
use crate::dsp::detector::{all_bands, follow_of, lemma_detector_is_whole};
use crate::dsp::filters::{
    cascade_at_rest, cascade_of, cascade_steps, double_sample_of, gains_set_of, identity_coeffs,
    lemma_processor_is_whole, mix_of,
    oversampling_set_of, ramp_share_of, ramp_step_of, ramped_filter_of, ramped_of, sample_of, settled_of,
    Biquad, CascadeState, GAIN_RAMP_SAMPLES, UNITY_FLOOR,
};
use crate::dsp::suppressor::{
    channel_step_of, fft_size, filters_updated_of, fresh_gains, joined_with, lemma_frames_in_lockstep,
    lemma_run_keeps_setup, lemma_sample_keeps_setup, reset_of, run_of, run_step_of, suppressed_of, wet_of,
    ChannelFrame, ChannelState, SuppressorState, FFT_SIZES, SIZES,
};
use crate::dsp::BANDS;
use crate::numbers::{HALF, ONE, ZERO};
use crate::single::{lemma_magnitude_orders, Single};

verus! {

/// `A` goes nowhere between two equal ends of a ramp, 1 or 0: their difference is
/// zero, so is every share of it, and adding that changes nothing.
pub open spec fn stands_still<A: Arith>() -> bool {
    &&& forall|r: Single| #[trigger] minus_of::<A>(Single(ONE), Single(ONE), r) ==> r == Single(ZERO)
    &&& forall|r: Single| #[trigger] minus_of::<A>(Single(ZERO), Single(ZERO), r) ==> r == Single(ZERO)
    &&& forall|pos: usize, t: Single, r: Single| #[trigger]
        ramp_share_of::<A>(pos, t) && #[trigger] times_of::<A>(Single(ZERO), t, r) ==> r == Single(ZERO)
    &&& forall|r: Single| #[trigger] plus_of::<A>(Single(ONE), Single(ZERO), r) ==> r == Single(ONE)
    &&& forall|r: Single| #[trigger] plus_of::<A>(Single(ZERO), Single(ZERO), r) ==> r == Single(ZERO)
}

/// The cascade has been given no gains yet.
pub open spec fn idle(s: CascadeState) -> bool {
    &&& s.filters.len() == BANDS
    &&& forall|i: int| 0 <= i < BANDS ==> (#[trigger] s.filters[i]).coeffs == identity_coeffs()
    &&& s.ramp_from == Seq::new(BANDS as nat, |i: int| identity_coeffs())
    &&& s.ramp_to == Seq::new(BANDS as nat, |i: int| identity_coeffs())
    &&& s.gains == all_bands(Single(ONE))
    &&& s.gain_db == all_bands(Single(ZERO))
    &&& s.effective_q == s.layout.q@
}

/// The cascade with its ramp over, at the given rate.
pub open spec fn at_the_end(s: CascadeState, oversampled: bool) -> CascadeState {
    CascadeState { ramp_pos: GAIN_RAMP_SAMPLES, oversampled, ..s }
}

/// Two cascades that no sample tells apart: they are the same, or neither has been
/// given gains and they differ in the rate they run at and in how far their ramps
/// are.
pub open spec fn bands_close(a: CascadeState, b: CascadeState) -> bool {
    cascades_same(a, b) || {
        &&& idle(a)
        &&& idle(b)
        &&& cascades_same(at_the_end(a, false), at_the_end(b, false))
    }
}

proof fn lemma_follow_stands<A: Arith>(x: Single, pos: usize, t: Single, r: Single)
    requires
        stands_still::<A>(),
        ramp_share_of::<A>(pos, t),
        x == Single(ONE) || x == Single(ZERO),
        follow_of::<A>(x, x, t, r),
    ensures
        r == x,
{
    let (way, step) = choose|way: Single, step: Single|
        {
            &&& #[trigger] minus_of::<A>(x, x, way)
            &&& #[trigger] times_of::<A>(way, t, step)
            &&& plus_of::<A>(x, step, r)
        };
    assert(way == Single(ZERO));
    assert(step == Single(ZERO));
}

proof fn lemma_ramp_stands<A: Arith>(s: CascadeState, pos: usize, filters: Seq<Biquad>)
    requires
        stands_still::<A>(),
        idle(s),
        ramped_of::<A>(s, pos, filters),
    ensures
        filters == s.filters,
{
    let t = choose|t: Single|
        {
            &&& #[trigger] ramp_share_of::<A>(pos, t)
            &&& forall|i: int|
                0 <= i < BANDS ==> ramped_filter_of::<A>(
                    s.filters[i],
                    s.ramp_from[i],
                    s.ramp_to[i],
                    t,
                    #[trigger] filters[i],
                )
        };
    assert forall|i: int| 0 <= i < BANDS implies filters[i] == s.filters[i] by {
        let f = filters[i];
        assert(ramped_filter_of::<A>(s.filters[i], s.ramp_from[i], s.ramp_to[i], t, f));
        assert(s.filters[i].coeffs == identity_coeffs());
        assert(mix_of::<A>(identity_coeffs(), identity_coeffs(), t, f.coeffs));
        lemma_follow_stands::<A>(Single(ONE), pos, t, f.coeffs.b0);
        lemma_follow_stands::<A>(Single(ZERO), pos, t, f.coeffs.b1);
        lemma_follow_stands::<A>(Single(ZERO), pos, t, f.coeffs.b2);
        lemma_follow_stands::<A>(Single(ZERO), pos, t, f.coeffs.a1);
        lemma_follow_stands::<A>(Single(ZERO), pos, t, f.coeffs.a2);
    }
    assert(filters =~= s.filters);
}

/// What new gains make of an idle cascade does not depend on its ramp.
proof fn lemma_gains_from_the_end<A: Arith>(
    s: CascadeState,
    gains: Seq<Single>,
    concentration: Seq<Single>,
    r: CascadeState,
)
    requires
        stands_still::<A>(),
        idle(s),
        gains_set_of::<A>(s, gains, concentration, r),
    ensures
        gains_set_of::<A>(at_the_end(s, s.oversampled), gains, concentration, r),
        r.filters == s.filters,
{
    let end = at_the_end(s, s.oversampled);
    assert(settled_of::<A>(s, r.filters));
    if s.ramp_pos < GAIN_RAMP_SAMPLES {
        lemma_ramp_stands::<A>(s, s.ramp_pos, r.filters);
    }
    assert(settled_of::<A>(end, r.filters));
    let fs = choose|fs: Single|
        {
            &&& #[trigger] crate::dsp::filters::synth_rate_of::<A>(s, fs)
            &&& forall|i: int|
                0 <= i < BANDS ==> crate::dsp::filters::filter_target_of::<A>(
                    s.layout.centers@[i],
                    s.layout.q@[i],
                    s.layout.q_ceiling@[i],
                    gains[i],
                    concentration[i],
                    fs,
                    #[trigger] r.target_at(i),
                )
        };
    assert(crate::dsp::filters::synth_rate_of::<A>(end, fs));
}

proof fn lemma_switch_stays_idle<A: Arith>(s: CascadeState, on: bool, r: CascadeState)
    requires
        stands_still::<A>(),
        idle(s),
        oversampling_set_of::<A>(s, on, r),
    ensures
        idle(r),
        r.oversampled == on,
        at_the_end(r, false) == at_the_end(s, false),
{
    if on != s.oversampled {
        let t = CascadeState { oversampled: on, ..s };
        assert(idle(t));
        lemma_gains_from_the_end::<A>(t, s.gains, s.concentration, r);
        assert(Single(UNITY_FLOOR).at_most(Single(ONE))) by {
            lemma_magnitude_orders(Single(UNITY_FLOOR), Single(ONE));
        }
        assert forall|i: int| 0 <= i < BANDS implies r.ramp_to[i] == identity_coeffs() && r.gain_db[i] == Single(
            ZERO,
        ) && r.effective_q[i] == s.layout.q@[i] && r.ramp_from[i] == identity_coeffs() by {
            crate::dsp::filters::lemma_unity_is_identity::<A>(t, s.gains, s.concentration, r, i);
            assert(s.filters[i].coeffs == identity_coeffs());
        }
        assert(r.ramp_to =~= s.ramp_to);
        assert(r.ramp_from =~= s.ramp_from);
        assert(r.gain_db =~= s.gain_db);
        assert(r.effective_q =~= s.effective_q);
    }
}

proof fn lemma_cascade_keeps_coeffs<A: Arith>(before: Seq<Biquad>, x: Single, after: Seq<Biquad>, y: Single, i: int)
    requires
        cascade_of::<A>(before, x, after, y),
        0 <= i < BANDS,
    ensures
        after[i].coeffs == before[i].coeffs,
{
    let ys = choose|ys: Seq<Single>| #[trigger]
        ys.len() == BANDS + 1 && ys[0] == x && ys[BANDS as int] == y && cascade_steps::<A>(
            before,
            after,
            ys,
            BANDS as int,
        );
    assert(crate::dsp::filters::filter_step_of::<A>(before[i], ys[i], after[i], ys[i + 1]));
}

proof fn lemma_idle_ramp_step<A: Arith>(s: CascadeState, mid: CascadeState)
    requires
        stands_still::<A>(),
        idle(s),
        ramp_step_of::<A>(s, mid),
    ensures
        mid == (CascadeState { ramp_pos: mid.ramp_pos, ..s }),
{
    if s.ramp_pos < GAIN_RAMP_SAMPLES {
        lemma_ramp_stands::<A>(s, (s.ramp_pos + 1) as usize, mid.filters);
    }
}

/// What an idle cascade makes of a sample does not depend on its rate or ramp.
proof fn lemma_idle_sample<A: Arith>(s: CascadeState, x: Single, r: CascadeState, y: Single)
    requires
        stands_still::<A>(),
        idle(s),
        sample_of::<A>(s, x, r, y),
    ensures
        idle(r),
        r.oversampled == s.oversampled,
        sample_of::<A>(at_the_end(s, false), x, at_the_end(r, false), y),
{
    let mid = choose|mid: CascadeState|
        {
            &&& #[trigger] ramp_step_of::<A>(s, mid)
            &&& cascade_of::<A>(mid.filters, x, r.filters, y)
            &&& r == (CascadeState { filters: r.filters, ..mid })
        };
    lemma_idle_ramp_step::<A>(s, mid);
    let end = at_the_end(s, false);
    assert(ramp_step_of::<A>(end, end));
    assert forall|i: int| 0 <= i < BANDS implies (#[trigger] r.filters[i]).coeffs == identity_coeffs() by {
        lemma_cascade_keeps_coeffs::<A>(mid.filters, x, r.filters, y, i);
        assert(s.filters[i].coeffs == identity_coeffs());
    }
}

proof fn lemma_idle_double_sample<A: Arith>(s: CascadeState, x: Single, r: CascadeState, y: Single)
    requires
        stands_still::<A>(),
        idle(s),
        double_sample_of::<A>(s, x, r, y),
    ensures
        idle(r),
        r.oversampled == s.oversampled,
        double_sample_of::<A>(at_the_end(s, false), x, at_the_end(r, false), y),
{
    let (mid, between, both, half, y0, y1, sum) = choose|mid: CascadeState, between: Seq<Biquad>, both: Single, half: Single, y0: Single, y1: Single, sum: Single|
        {
            &&& #[trigger] ramp_step_of::<A>(s, mid)
            &&& #[trigger] plus_of::<A>(s.prev_input, x, both)
            &&& #[trigger] times_of::<A>(Single(HALF), both, half)
            &&& #[trigger] cascade_of::<A>(mid.filters, half, between, y0)
            &&& #[trigger] cascade_of::<A>(between, x, r.filters, y1)
            &&& #[trigger] plus_of::<A>(y0, y1, sum)
            &&& times_of::<A>(Single(HALF), sum, y)
            &&& r == (CascadeState { filters: r.filters, prev_input: x, ..mid })
        };
    lemma_idle_ramp_step::<A>(s, mid);
    let end = at_the_end(s, false);
    let end_r = at_the_end(r, false);
    assert(ramp_step_of::<A>(end, end));
    assert(cascade_of::<A>(end.filters, half, between, y0));
    assert(cascade_of::<A>(between, x, end_r.filters, y1));
    assert(plus_of::<A>(end.prev_input, x, both));
    assert forall|i: int| 0 <= i < BANDS implies (#[trigger] r.filters[i]).coeffs == identity_coeffs() by {
        lemma_cascade_keeps_coeffs::<A>(mid.filters, half, between, y0, i);
        lemma_cascade_keeps_coeffs::<A>(between, x, r.filters, y1, i);
        assert(s.filters[i].coeffs == identity_coeffs());
    }
}

proof fn lemma_close_filters<A: Arith>(
    s: CascadeState,
    t: CascadeState,
    own: Option<ChannelFrame>,
    left: Option<ChannelFrame>,
    right: Option<ChannelFrame>,
    own2: Option<ChannelFrame>,
    left2: Option<ChannelFrame>,
    right2: Option<ChannelFrame>,
    linked: bool,
    oversampling: bool,
    a: CascadeState,
    b: CascadeState,
)
    requires
        repeats::<A>(),
        stands_still::<A>(),
        manned(s),
        bands_close(s, t),
        news_same(own, own2),
        news_same(left, left2),
        news_same(right, right2),
        own is None ==> left is None && right is None,
        filters_updated_of::<A>(s, own, left, right, linked, oversampling, a),
        filters_updated_of::<A>(t, own2, left2, right2, linked, oversampling, b),
    ensures
        bands_close(a, b),
        manned(a),
{
    if cascades_same(s, t) {
        lemma_filters_updated::<A>(s, t, own, left, right, own2, left2, right2, linked, oversampling, a, b);
    } else if own is Some {
        let gains = fresh_gains(own, left, right, linked)->0;
        let gains2 = fresh_gains(own2, left2, right2, linked)->0;
        let m = choose|mid: CascadeState| #[trigger]
            oversampling_set_of::<A>(s, oversampling, mid) && gains_set_of::<A>(
                mid,
                gains,
                own->0.concentration@,
                a,
            );
        let n = choose|mid: CascadeState| #[trigger]
            oversampling_set_of::<A>(t, oversampling, mid) && gains_set_of::<A>(
                mid,
                gains2,
                own2->0.concentration@,
                b,
            );
        lemma_switch_stays_idle::<A>(s, oversampling, m);
        lemma_switch_stays_idle::<A>(t, oversampling, n);
        lemma_gains_from_the_end::<A>(m, gains, own->0.concentration@, a);
        lemma_gains_from_the_end::<A>(n, gains2, own2->0.concentration@, b);
        let end = at_the_end(m, oversampling);
        let other = at_the_end(n, oversampling);
        assert(at_the_end(m, false) == (CascadeState { oversampled: false, ..end }));
        assert(at_the_end(n, false) == (CascadeState { oversampled: false, ..other }));
        assert(cascades_same(end, other));
        lemma_fresh_gains(own, left, right, own2, left2, right2, linked);
        lemma_gains_set_is_determined::<A>(
            end,
            other,
            gains,
            own->0.concentration@,
            gains2,
            own2->0.concentration@,
            a,
            b,
        );
    } else {
        lemma_switch_stays_idle::<A>(s, oversampling, a);
        lemma_switch_stays_idle::<A>(t, oversampling, b);
        assert(at_the_end(a, false).concentration == a.concentration);
    }
}

proof fn lemma_close_wet<A: Arith>(
    oversampling: bool,
    s: CascadeState,
    t: CascadeState,
    dry: Single,
    a: CascadeState,
    y: Single,
    b: CascadeState,
    z: Single,
)
    requires
        repeats::<A>(),
        stands_still::<A>(),
        manned(s),
        bands_close(s, t),
        wet_of::<A>(oversampling, s, dry, a, y),
        wet_of::<A>(oversampling, t, dry, b, z),
    ensures
        same(y, z),
        bands_close(a, b),
{
    if cascades_same(s, t) {
        lemma_wet::<A>(oversampling, s, t, dry, a, y, b, z);
    } else if oversampling {
        lemma_idle_double_sample::<A>(s, dry, a, y);
        lemma_idle_double_sample::<A>(t, dry, b, z);
        lemma_double_sample_is_determined::<A>(
            at_the_end(s, false),
            at_the_end(t, false),
            dry,
            at_the_end(a, false),
            y,
            at_the_end(b, false),
            z,
        );
    } else {
        lemma_idle_sample::<A>(s, dry, a, y);
        lemma_idle_sample::<A>(t, dry, b, z);
        lemma_sample_is_determined::<A>(
            at_the_end(s, false),
            at_the_end(t, false),
            dry,
            at_the_end(a, false),
            y,
            at_the_end(b, false),
            z,
        );
    }
}

// ----- The suppressor ---------------------------------------------------------

/// Two channels that no sample tells apart.
pub open spec fn channels_close<F: Fourier>(a: ChannelState<F>, b: ChannelState<F>) -> bool {
    &&& engines_alike(a.analysis, b.analysis)
    &&& detectors_alike(a.detector, b.detector)
    &&& bands_close(a.bands@, b.bands@)
    &&& a.delay@ == b.delay@
}

/// Two suppressors, set the same and faded the same, that no sample tells apart.
pub open spec fn sound_alike<F: Fourier>(s: SuppressorState<F>, t: SuppressorState<F>) -> bool {
    &&& same_settings(s, t)
    &&& s.crossfade == t.crossfade
    &&& forall|c: int, i: int|
        0 <= c < 2 && 0 <= i < SIZES ==> channels_close(
            #[trigger] s.channels[c][i],
            t.channels[c][i],
        )
}

proof fn lemma_close_channel_step<A: Arith, F: Fourier>(
    a: ChannelState<F>,
    b: ChannelState<F>,
    x: Single,
    s: SuppressorState<F>,
    p: Side<F>,
    q: Side<F>,
)
    requires
        repeats::<A>(),
        transforms_alike::<F>(),
        channels_close(a, b),
        channel_step_of::<A, F>(a, x, s.params, p.mid, p.dry, p.frame),
        channel_step_of::<A, F>(b, x, s.params, q.mid, q.dry, q.frame),
    ensures
        channels_close(p.mid, q.mid),
        p.dry == q.dry,
        news_same(p.frame, q.frame),
{
    lemma_channel_step::<A, F>(a, b, x, s.params, p.mid, q.mid, p.dry, q.dry, p.frame, q.frame);
}

proof fn lemma_close_joined<A: Arith, F: Fourier>(
    s: SuppressorState<F>,
    t: SuppressorState<F>,
    l: Side<F>,
    r: Side<F>,
    m: Side<F>,
    q: Side<F>,
    s2: SuppressorState<F>,
    t2: SuppressorState<F>,
    out: (Single, Single),
    pair: (Single, Single),
    wet: (Single, Single),
    vet: (Single, Single),
)
    requires
        repeats::<A>(),
        stands_still::<A>(),
        s.wf(),
        t.wf(),
        sound_alike(s, t),
        channels_close(l.mid, m.mid),
        channels_close(r.mid, q.mid),
        l.dry == m.dry,
        r.dry == q.dry,
        news_same(l.frame, m.frame),
        news_same(r.frame, q.frame),
        l.frame is Some <==> r.frame is Some,
        joined_with::<A, F>(s, l.mid, r.mid, l.dry, r.dry, l.frame, r.frame, s2, out, wet),
        joined_with::<A, F>(t, m.mid, q.mid, m.dry, q.dry, m.frame, q.frame, t2, pair, vet),
    ensures
        same_pair(out, pair),
        sound_alike(s2, t2),
{
    let idx = s.fft_index as int;
    let (g_l, g_r) = choose|g_l: CascadeState, g_r: CascadeState|
        {
            &&& #[trigger] filters_updated_of::<A>(
                l.mid.bands@,
                l.frame,
                l.frame,
                r.frame,
                s.stereo_linked,
                s.oversampling,
                g_l,
            )
            &&& #[trigger] filters_updated_of::<A>(
                r.mid.bands@,
                r.frame,
                l.frame,
                r.frame,
                s.stereo_linked,
                s.oversampling,
                g_r,
            )
            &&& wet_of::<A>(s.oversampling, g_l, l.dry, s2.channels[0][idx].bands@, wet.0)
            &&& wet_of::<A>(s.oversampling, g_r, r.dry, s2.channels[1][idx].bands@, wet.1)
        };
    let (h_l, h_r) = choose|g_l: CascadeState, g_r: CascadeState|
        {
            &&& #[trigger] filters_updated_of::<A>(
                m.mid.bands@,
                m.frame,
                m.frame,
                q.frame,
                t.stereo_linked,
                t.oversampling,
                g_l,
            )
            &&& #[trigger] filters_updated_of::<A>(
                q.mid.bands@,
                q.frame,
                m.frame,
                q.frame,
                t.stereo_linked,
                t.oversampling,
                g_r,
            )
            &&& wet_of::<A>(t.oversampling, g_l, m.dry, t2.channels[0][idx].bands@, vet.0)
            &&& wet_of::<A>(t.oversampling, g_r, q.dry, t2.channels[1][idx].bands@, vet.1)
        };
    lemma_processor_is_whole(l.mid.bands);
    lemma_processor_is_whole(r.mid.bands);
    lemma_close_filters::<A>(
        l.mid.bands@,
        m.mid.bands@,
        l.frame,
        l.frame,
        r.frame,
        m.frame,
        m.frame,
        q.frame,
        s.stereo_linked,
        s.oversampling,
        g_l,
        h_l,
    );
    lemma_close_filters::<A>(
        r.mid.bands@,
        q.mid.bands@,
        r.frame,
        l.frame,
        r.frame,
        q.frame,
        m.frame,
        q.frame,
        s.stereo_linked,
        s.oversampling,
        g_r,
        h_r,
    );
    lemma_close_wet::<A>(
        s.oversampling,
        g_l,
        h_l,
        l.dry,
        s2.channels[0][idx].bands@,
        wet.0,
        t2.channels[0][idx].bands@,
        vet.0,
    );
    lemma_close_wet::<A>(
        s.oversampling,
        g_r,
        h_r,
        r.dry,
        s2.channels[1][idx].bands@,
        wet.1,
        t2.channels[1][idx].bands@,
        vet.1,
    );
    lemma_output::<A, F>(s, t, l.dry, wet.0, vet.0, out.0, pair.0);
    lemma_output::<A, F>(s, t, r.dry, wet.1, vet.1, out.1, pair.1);
    assert forall|c: int, i: int| 0 <= c < 2 && 0 <= i < SIZES implies channels_close(
        #[trigger] s2.channels[c][i],
        t2.channels[c][i],
    ) by {
        assert(channels_close(s.channels[c][i], t.channels[c][i]));
    }
}

proof fn lemma_close_step<A: Arith, F: Fourier>(
    s: SuppressorState<F>,
    t: SuppressorState<F>,
    left: Single,
    right: Single,
    s2: SuppressorState<F>,
    t2: SuppressorState<F>,
    out: (Single, Single),
    pair: (Single, Single),
)
    requires
        repeats::<A>(),
        stands_still::<A>(),
        transforms_alike::<F>(),
        s.wf(),
        t.wf(),
        sound_alike(s, t),
        run_step_of::<A, F>(s, left, right, s2, out),
        run_step_of::<A, F>(t, left, right, t2, pair),
    ensures
        same_pair(out, pair),
        sound_alike(s2, t2),
{
    reveal(run_step_of);
    let idx = s.fft_index as int;
    let wet = lemma_sample_is_mixed::<A, F>(s, left, right, s2, out);
    let vet = lemma_sample_is_mixed::<A, F>(t, left, right, t2, pair);
    let (l, r) = lemma_sides::<A, F>(s, left, right, s2, out, wet);
    let (m, q) = lemma_sides::<A, F>(t, left, right, t2, pair, vet);
    assert(channels_close(s.channels[0][idx], t.channels[0][idx]));
    assert(channels_close(s.channels[1][idx], t.channels[1][idx]));
    lemma_close_channel_step::<A, F>(s.channels[0][idx], t.channels[0][idx], left, s, l, m);
    lemma_close_channel_step::<A, F>(s.channels[1][idx], t.channels[1][idx], right, s, r, q);
    lemma_frames_in_lockstep::<A, F>(
        s,
        left,
        right,
        l.mid,
        r.mid,
        l.dry,
        r.dry,
        l.frame,
        r.frame,
    );
    lemma_close_joined::<A, F>(s, t, l, r, m, q, s2, t2, out, pair, wet, vet);
}

/// The same signal comes out the same from suppressors that sound alike.
pub proof fn lemma_sound_stays_alike<A: Arith, F: Fourier>(
    states: Seq<SuppressorState<F>>,
    others: Seq<SuppressorState<F>>,
    lefts: Seq<Single>,
    rights: Seq<Single>,
    outs: Seq<(Single, Single)>,
    pairs: Seq<(Single, Single)>,
    k: int,
)
    requires
        repeats::<A>(),
        stands_still::<A>(),
        transforms_alike::<F>(),
        run_of::<A, F>(states, lefts, rights, outs),
        run_of::<A, F>(others, lefts, rights, pairs),
        sound_alike(states[0], others[0]),
        0 <= k <= lefts.len(),
    ensures
        sound_alike(states[k], others[k]),
        k > 0 ==> same_pair(outs[k - 1], pairs[k - 1]),
    decreases k,
{
    if k > 0 {
        let j = k - 1;
        lemma_sound_stays_alike::<A, F>(states, others, lefts, rights, outs, pairs, j);
        assert(states[j].wf());
        assert(others[j].wf());
        assert(run_step_of::<A, F>(states[j], lefts[j], rights[j], states[j + 1], outs[j]));
        assert(run_step_of::<A, F>(others[j], lefts[j], rights[j], others[j + 1], pairs[j]));
        lemma_close_step::<A, F>(
            states[j],
            others[j],
            lefts[j],
            rights[j],
            states[k],
            others[k],
            outs[j],
            pairs[j],
        );
    }
}

/// Two channels of the same build: they differ at most in what they have heard and
/// in the rate that their filters run at.
pub open spec fn same_build<F: Fourier>(a: ChannelState<F>, b: ChannelState<F>) -> bool {
    &&& setups_alike(a.analysis, b.analysis)
    &&& a.detector.rate() == b.detector.rate()
    &&& same(a.detector.hop(), b.detector.hop())
    &&& layouts_same(a.bands@.layout, b.bands@.layout)
    &&& a.bands@.base_rate == b.bands@.base_rate
}

proof fn lemma_rest_is_idle(layout: BandLayout, other: BandLayout, rate: Single, on: bool, off: bool)
    requires
        layouts_same(layout, other),
    ensures
        bands_close(cascade_at_rest(layout, rate, on), cascade_at_rest(other, rate, off)),
{
    let a = cascade_at_rest(layout, rate, on);
    let b = cascade_at_rest(other, rate, off);
    assert(idle(a));
    assert(idle(b));
    assert(cascades_same(at_the_end(a, false), at_the_end(b, false)));
}

/// A reset takes a suppressor back to the start: it sounds like one that is fresh,
/// of the same build and set the same, whatever it has heard and whatever rate its
/// filters ran at.
pub proof fn lemma_reset_sounds_fresh<A: Arith, F: Fourier>(
    s: SuppressorState<F>,
    r: SuppressorState<F>,
    fresh: SuppressorState<F>,
    rate: Single,
)
    requires
        s.wf(),
        reset_of(s, r),
        fresh.fresh_channels::<A>(rate),
        fresh.crossfade == 0,
        same_settings(s, fresh),
        forall|c: int, i: int|
            0 <= c < 2 && 0 <= i < SIZES ==> same_build(#[trigger] s.channels[c][i], fresh.channels[c][i]),
    ensures
        sound_alike(r, fresh),
{
    assert forall|c: int, i: int| 0 <= c < 2 && 0 <= i < SIZES implies channels_close(
        #[trigger] r.channels[c][i],
        fresh.channels[c][i],
    ) by {
        assert(same_build(s.channels[c][i], fresh.channels[c][i]));
        assert(s.channels[c][i].wf(fft_size(i)));
        assert(fresh.channels[c][i].fresh::<A>(FFT_SIZES@[i], rate));
        assert(FFT_SIZES@[0] == 1024 && FFT_SIZES@[1] == 2048 && FFT_SIZES@[2] == 4096 && FFT_SIZES@[3]
            == 8192);
        assert(r.channels[c][i].cleared(&s.channels[c][i]));
        lemma_engine_is_whole(r.channels[c][i].analysis);
        lemma_detector_is_whole(r.channels[c][i].detector);
        lemma_detector_is_whole(fresh.channels[c][i].detector);
        lemma_rest_is_idle(
            s.channels[c][i].bands@.layout,
            fresh.channels[c][i].bands@.layout,
            s.channels[c][i].bands@.base_rate,
            s.channels[c][i].bands@.oversampled,
            false,
        );
    }
}

proof fn lemma_filters_keep_build<A: Arith>(
    s: CascadeState,
    own: Option<ChannelFrame>,
    left: Option<ChannelFrame>,
    right: Option<ChannelFrame>,
    linked: bool,
    oversampling: bool,
    g: CascadeState,
    dry: Single,
    r: CascadeState,
    wet: Single,
)
    requires
        filters_updated_of::<A>(s, own, left, right, linked, oversampling, g),
        wet_of::<A>(oversampling, g, dry, r, wet),
    ensures
        r.layout == s.layout,
        r.base_rate == s.base_rate,
{
    assert(g.layout == s.layout && g.base_rate == s.base_rate);
}

proof fn lemma_channel_is_whole<F: Fourier>(s: SuppressorState<F>, c: int, i: int)
    requires
        s.wf(),
        0 <= c < 2,
        0 <= i < SIZES,
    ensures
        equipped(s.channels[c][i].analysis),
{
    assert(s.channels[c][i].wf(fft_size(i)));
    assert(FFT_SIZES@[0] == 1024 && FFT_SIZES@[1] == 2048 && FFT_SIZES@[2] == 4096 && FFT_SIZES@[3]
        == 8192);
    lemma_engine_is_whole(s.channels[c][i].analysis);
}

/// Samples leave the build of every channel alone.
pub proof fn lemma_sample_keeps_build<A: Arith, F: Fourier>(
    s: SuppressorState<F>,
    left: Single,
    right: Single,
    r: SuppressorState<F>,
    out: (Single, Single),
    c: int,
    i: int,
)
    requires
        s.wf(),
        r.wf(),
        0 <= c < 2,
        0 <= i < SIZES,
        suppressed_of::<A, F>(s, left, right, r, out),
    ensures
        same_build(r.channels[c][i], s.channels[c][i]),
{
    lemma_sample_keeps_setup::<A, F>(s, left, right, r, out);
    lemma_channel_is_whole(s, c, i);
    lemma_channel_is_whole(r, c, i);
    if i == s.fft_index {
        let wet = lemma_sample_is_mixed::<A, F>(s, left, right, r, out);
        let (l, q) = lemma_sides::<A, F>(s, left, right, r, out, wet);
        let (g_l, g_r) = choose|g_l: CascadeState, g_r: CascadeState|
            {
                &&& #[trigger] filters_updated_of::<A>(
                    l.mid.bands@,
                    l.frame,
                    l.frame,
                    q.frame,
                    s.stereo_linked,
                    s.oversampling,
                    g_l,
                )
                &&& #[trigger] filters_updated_of::<A>(
                    q.mid.bands@,
                    q.frame,
                    l.frame,
                    q.frame,
                    s.stereo_linked,
                    s.oversampling,
                    g_r,
                )
                &&& wet_of::<A>(s.oversampling, g_l, l.dry, r.channels[0][i].bands@, wet.0)
                &&& wet_of::<A>(s.oversampling, g_r, q.dry, r.channels[1][i].bands@, wet.1)
            };
        lemma_filters_keep_build::<A>(
            l.mid.bands@,
            l.frame,
            l.frame,
            q.frame,
            s.stereo_linked,
            s.oversampling,
            g_l,
            l.dry,
            r.channels[0][i].bands@,
            wet.0,
        );
        lemma_filters_keep_build::<A>(
            q.mid.bands@,
            q.frame,
            l.frame,
            q.frame,
            s.stereo_linked,
            s.oversampling,
            g_r,
            q.dry,
            r.channels[1][i].bands@,
            wet.1,
        );
    }
}

proof fn lemma_step_keeps_build<A: Arith, F: Fourier>(
    s: SuppressorState<F>,
    left: Single,
    right: Single,
    r: SuppressorState<F>,
    out: (Single, Single),
    c: int,
    i: int,
)
    requires
        s.wf(),
        r.wf(),
        0 <= c < 2,
        0 <= i < SIZES,
        run_step_of::<A, F>(s, left, right, r, out),
    ensures
        same_build(r.channels[c][i], s.channels[c][i]),
{
    reveal(run_step_of);
    lemma_sample_keeps_build::<A, F>(s, left, right, r, out, c, i);
}

/// A run leaves the build of every channel alone.
pub proof fn lemma_run_keeps_build<A: Arith, F: Fourier>(
    states: Seq<SuppressorState<F>>,
    lefts: Seq<Single>,
    rights: Seq<Single>,
    outs: Seq<(Single, Single)>,
    k: int,
)
    requires
        run_of::<A, F>(states, lefts, rights, outs),
        0 <= k <= lefts.len(),
    ensures
        forall|c: int, i: int|
            0 <= c < 2 && 0 <= i < SIZES ==> same_build(
                #[trigger] states[k].channels[c][i],
                states[0].channels[c][i],
            ),
    decreases k,
{
    assert forall|c: int, i: int| 0 <= c < 2 && 0 <= i < SIZES implies same_build(
        #[trigger] states[0].channels[c][i],
        states[0].channels[c][i],
    ) by {
        assert(states[0].wf());
        lemma_channel_is_whole(states[0], c, i);
    }
    if k > 0 {
        let j = k - 1;
        lemma_run_keeps_build::<A, F>(states, lefts, rights, outs, j);
        assert(states[j].wf());
        assert(states[k].wf());
        assert(run_step_of::<A, F>(states[j], lefts[j], rights[j], states[j + 1], outs[j]));
        assert forall|c: int, i: int| 0 <= c < 2 && 0 <= i < SIZES implies same_build(
            #[trigger] states[k].channels[c][i],
            states[0].channels[c][i],
        ) by {
            assert(same_build(states[j].channels[c][i], states[0].channels[c][i]));
            lemma_step_keeps_build::<A, F>(states[j], lefts[j], rights[j], states[k], outs[j], c, i);
        }
    }
}

/// Whatever a fresh suppressor has heard, after a reset it gives for every signal
/// what it gave for it at first.
pub proof fn lemma_reset_goes_back_to_the_start<A: Arith, F: Fourier>(
    heard: Seq<SuppressorState<F>>,
    earlier_lefts: Seq<Single>,
    earlier_rights: Seq<Single>,
    earlier_outs: Seq<(Single, Single)>,
    rate: Single,
    states: Seq<SuppressorState<F>>,
    others: Seq<SuppressorState<F>>,
    lefts: Seq<Single>,
    rights: Seq<Single>,
    outs: Seq<(Single, Single)>,
    first_outs: Seq<(Single, Single)>,
    k: int,
)
    requires
        repeats::<A>(),
        stands_still::<A>(),
        transforms_alike::<F>(),
        heard[0].fresh_channels::<A>(rate),
        heard[0].crossfade == 0,
        run_of::<A, F>(heard, earlier_lefts, earlier_rights, earlier_outs),
        reset_of(heard.last(), states[0]),
        run_of::<A, F>(states, lefts, rights, outs),
        others[0] == heard[0],
        run_of::<A, F>(others, lefts, rights, first_outs),
        0 <= k < lefts.len(),
    ensures
        same_pair(outs[k], first_outs[k]),
{
    let n = earlier_lefts.len() as int;
    assert(heard[n].wf());
    lemma_run_keeps_build::<A, F>(heard, earlier_lefts, earlier_rights, earlier_outs, n);
    lemma_run_keeps_setup::<A, F>(heard, earlier_lefts, earlier_rights, earlier_outs, n);
    lemma_reset_sounds_fresh::<A, F>(heard.last(), states[0], heard[0], rate);
    lemma_sound_stays_alike::<A, F>(states, others, lefts, rights, outs, first_outs, k + 1);
}

} // verus!
