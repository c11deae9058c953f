//! Suppressors that nothing tells apart.
//!
//! The same signal, from states that are alike, comes out the same. The laws here
//! hold for every arithmetic that answers a question the same way every time, and
//! every transform that gives a window the same spectrum every time.

use vstd::prelude::*;
use crate::arith::Arith;
use crate::dsp::analysis::{hann_of, hann_window_of, lemma_engine_is_whole, BandAnalysis, Fourier};
use crate::dsp::determinism::{
    all_same, cascades_same, detectors_alike, engines_alike, lemma_detector_is_determined,
    lemma_double_sample_is_determined, lemma_engine_is_determined, lemma_gains_set_is_determined,
    lemma_layout_is_determined, lemma_oversampling_set, layouts_same, lemma_sample_is_determined, manned, repeats, same,
    same_pair, setups_alike, transforms_alike,
};
use crate::dsp::detector::{lemma_detector_is_whole, DetectParams};
use crate::dsp::filters::{gains_set_of, lemma_processor_is_whole, oversampling_set_of, CascadeState};
use crate::dsp::suppressor::{
    channel_step_of, faded_of, fft_size, filters_updated_of, frame_reports, fresh_gains, io_of, joined_of,
    joined_with, lemma_sample_keeps_setup, output_of, reported_of, reset_of, run_of, run_step_of, suppressed_of,
    wet_of, ChannelFrame, ChannelState, SuppressorState, FFT_SIZES, SIZES,
};
use crate::dsp::BANDS;
use crate::single::Single;

verus! {

/// Two channels that no sample tells apart.
pub open spec fn channels_alike<F: Fourier>(a: ChannelState<F>, b: ChannelState<F>) -> bool {
    &&& engines_alike(a.analysis, b.analysis)
    &&& detectors_alike(a.detector, b.detector)
    &&& cascades_same(a.bands@, b.bands@)
    &&& a.delay@ == b.delay@
}

/// The same frame of a channel.
pub open spec fn frames_same(f: ChannelFrame, g: ChannelFrame) -> bool {
    &&& all_same(f.levels@, g.levels@)
    &&& all_same(f.gains@, g.gains@)
    &&& all_same(f.concentration@, g.concentration@)
    &&& all_same(f.debug.effective_depth@, g.debug.effective_depth@)
    &&& all_same(f.debug.reduction_db@, g.debug.reduction_db@)
    &&& all_same(f.debug.target_gain@, g.debug.target_gain@)
}

/// The same frame, or none either.
pub open spec fn news_same(f: Option<ChannelFrame>, g: Option<ChannelFrame>) -> bool {
    &&& f is Some <==> g is Some
    &&& f is Some ==> frames_same(f->0, g->0)
}

pub(crate) proof fn lemma_channel_step<A: Arith, F: Fourier>(
    a: ChannelState<F>,
    b: ChannelState<F>,
    x: Single,
    p: DetectParams,
    a2: ChannelState<F>,
    b2: ChannelState<F>,
    dry_a: Single,
    dry_b: Single,
    frame_a: Option<ChannelFrame>,
    frame_b: Option<ChannelFrame>,
)
    requires
        repeats::<A>(),
        transforms_alike::<F>(),
        engines_alike(a.analysis, b.analysis),
        detectors_alike(a.detector, b.detector),
        a.delay@ == b.delay@,
        channel_step_of::<A, F>(a, x, p, a2, dry_a, frame_a),
        channel_step_of::<A, F>(b, x, p, b2, dry_b, frame_b),
    ensures
        engines_alike(a2.analysis, b2.analysis),
        detectors_alike(a2.detector, b2.detector),
        a2.delay@ == b2.delay@,
        dry_a == dry_b,
        news_same(frame_a, frame_b),
{
    let r = choose|r: Option<BandAnalysis>|
        {
            &&& #[trigger] a2.analysis.takes::<A>(&a.analysis, x, r)
            &&& r is None ==> frame_a is None && a2.detector == a.detector
            &&& r matches Some(an) ==> {
                &&& frame_a is Some
                &&& a2.detector.steps_from::<A>(a.detector, an.levels@, p, a2.analysis.layout().centers@)
                &&& frame_reports(an, a2.detector, frame_a->0)
            }
        };
    let q = choose|r: Option<BandAnalysis>|
        {
            &&& #[trigger] b2.analysis.takes::<A>(&b.analysis, x, r)
            &&& r is None ==> frame_b is None && b2.detector == b.detector
            &&& r matches Some(an) ==> {
                &&& frame_b is Some
                &&& b2.detector.steps_from::<A>(b.detector, an.levels@, p, b2.analysis.layout().centers@)
                &&& frame_reports(an, b2.detector, frame_b->0)
            }
        };
    lemma_engine_is_determined::<A, F>(a.analysis, b.analysis, x, a2.analysis, b2.analysis, r, q);
    if r is Some {
        lemma_detector_is_determined::<A>(
            a.detector,
            b.detector,
            a2.detector,
            b2.detector,
            r->0.levels@,
            q->0.levels@,
            p,
            a2.analysis.layout().centers@,
            b2.analysis.layout().centers@,
        );
    }
}

pub(crate) proof fn lemma_fresh_gains(
    own: Option<ChannelFrame>,
    left: Option<ChannelFrame>,
    right: Option<ChannelFrame>,
    own2: Option<ChannelFrame>,
    left2: Option<ChannelFrame>,
    right2: Option<ChannelFrame>,
    linked: bool,
)
    requires
        news_same(own, own2),
        news_same(left, left2),
        news_same(right, right2),
    ensures
        own is Some ==> all_same(fresh_gains(own, left, right, linked)->0, fresh_gains(own2, left2, right2, linked)->0),
        own is Some ==> fresh_gains(own, left, right, linked)->0.len() == BANDS,
        own is Some ==> fresh_gains(own, left, right, linked) is Some,
        own is Some ==> fresh_gains(own2, left2, right2, linked) is Some,
{
    if own is Some && linked && left is Some && right is Some {
        let g = fresh_gains(own, left, right, linked)->0;
        let h = fresh_gains(own2, left2, right2, linked)->0;
        assert forall|i: int| 0 <= i < BANDS implies same(g[i], h[i]) by {
            assert(same(left->0.gains@[i], left2->0.gains@[i]));
            assert(same(right->0.gains@[i], right2->0.gains@[i]));
        }
    }
}

pub(crate) proof fn lemma_filters_updated<A: Arith>(
    s: CascadeState,
    t: CascadeState,
    own: Option<ChannelFrame>,
    left: Option<ChannelFrame>,
    right: Option<ChannelFrame>,
    own2: Option<ChannelFrame>,
    left2: Option<ChannelFrame>,
    right2: Option<ChannelFrame>,
    linked: bool,
    oversampling: bool,
    a: CascadeState,
    b: CascadeState,
)
    requires
        repeats::<A>(),
        manned(s),
        cascades_same(s, t),
        news_same(own, own2),
        news_same(left, left2),
        news_same(right, right2),
        filters_updated_of::<A>(s, own, left, right, linked, oversampling, a),
        filters_updated_of::<A>(t, own2, left2, right2, linked, oversampling, b),
    ensures
        cascades_same(a, b),
        manned(a),
{
    if own is Some {
        let gains = fresh_gains(own, left, right, linked)->0;
        let gains2 = fresh_gains(own2, left2, right2, linked)->0;
        let m = choose|mid: CascadeState| #[trigger]
            oversampling_set_of::<A>(s, oversampling, mid) && gains_set_of::<A>(
                mid,
                gains,
                own->0.concentration@,
                a,
            );
        let n = choose|mid: CascadeState| #[trigger]
            oversampling_set_of::<A>(t, oversampling, mid) && gains_set_of::<A>(
                mid,
                gains2,
                own2->0.concentration@,
                b,
            );
        lemma_fresh_gains(own, left, right, own2, left2, right2, linked);
        lemma_oversampling_set::<A>(s, t, oversampling, m, n);
        lemma_gains_set_is_determined::<A>(
            m,
            n,
            gains,
            own->0.concentration@,
            gains2,
            own2->0.concentration@,
            a,
            b,
        );
    } else if left is None && right is None {
        lemma_oversampling_set::<A>(s, t, oversampling, a, b);
    }
}

pub(crate) proof fn lemma_io<A: Arith>(
    dry: Single,
    wet: Single,
    vet: Single,
    mix: Single,
    delta: bool,
    r: Single,
    q: Single,
)
    requires
        repeats::<A>(),
        same(wet, vet),
        io_of::<A>(dry, wet, mix, delta, r),
        io_of::<A>(dry, vet, mix, delta, q),
    ensures
        same(r, q),
{
}

proof fn lemma_faded<A: Arith>(remaining: usize, x: Single, y: Single, r: Single, q: Single)
    requires
        repeats::<A>(),
        same(x, y),
        faded_of::<A>(remaining, x, r),
        faded_of::<A>(remaining, y, q),
    ensures
        same(r, q),
{
}

/// Two suppressors with the same window size and the same parameters.
pub open spec fn same_settings<F: Fourier>(s: SuppressorState<F>, t: SuppressorState<F>) -> bool {
    &&& s.fft_index == t.fft_index
    &&& s.params == t.params
    &&& s.mix == t.mix
    &&& s.delta_mode == t.delta_mode
    &&& s.stereo_linked == t.stereo_linked
    &&& s.oversampling == t.oversampling
}

/// Two suppressors whose channels no sample tells apart: they hear and filter the
/// same, whatever they make of dry and wet.
pub open spec fn paths_alike<F: Fourier>(s: SuppressorState<F>, t: SuppressorState<F>) -> bool {
    &&& s.fft_index == t.fft_index
    &&& s.params == t.params
    &&& s.stereo_linked == t.stereo_linked
    &&& s.oversampling == t.oversampling
    &&& forall|c: int, i: int|
        0 <= c < 2 && 0 <= i < SIZES ==> channels_alike(
            #[trigger] s.channels[c][i],
            t.channels[c][i],
        )
}

/// The same gains in force on both channels.
pub open spec fn applied_same(a: Seq<Seq<Single>>, b: Seq<Seq<Single>>) -> bool {
    all_same(a[0], b[0]) && all_same(a[1], b[1])
}

/// Two suppressors that no sample tells apart. What the display was offered has no
/// part in it.
pub open spec fn suppressors_alike<F: Fourier>(s: SuppressorState<F>, t: SuppressorState<F>) -> bool {
    &&& paths_alike(s, t)
    &&& s.mix == t.mix
    &&& s.delta_mode == t.delta_mode
    &&& applied_same(s.applied, t.applied)
    &&& s.sample_rate == t.sample_rate
    &&& s.frame_counter == t.frame_counter
    &&& s.crossfade == t.crossfade
}

/// A suppressor is like itself.
pub proof fn lemma_alike_itself<F: Fourier>(s: SuppressorState<F>)
    requires
        s.wf(),
    ensures
        suppressors_alike(s, s),
{
    assert forall|c: int, i: int| 0 <= c < 2 && 0 <= i < SIZES implies channels_alike(
        #[trigger] s.channels[c][i],
        s.channels[c][i],
    ) by {
        assert(s.channels[c][i].wf(fft_size(i)));
        assert(FFT_SIZES@[0] == 1024 && FFT_SIZES@[1] == 2048 && FFT_SIZES@[2] == 4096 && FFT_SIZES@[3]
            == 8192);
        lemma_engine_is_whole(s.channels[c][i].analysis);
    }
}

/// What one channel made of its sample, and what came of that.
pub(crate) struct Side<F: Fourier> {
    pub(crate) mid: ChannelState<F>,
    pub(crate) dry: Single,
    pub(crate) frame: Option<ChannelFrame>,
}

pub(crate) proof fn lemma_wet<A: Arith>(
    oversampling: bool,
    s: CascadeState,
    t: CascadeState,
    dry: Single,
    a: CascadeState,
    y: Single,
    b: CascadeState,
    z: Single,
)
    requires
        repeats::<A>(),
        manned(s),
        cascades_same(s, t),
        wet_of::<A>(oversampling, s, dry, a, y),
        wet_of::<A>(oversampling, t, dry, b, z),
    ensures
        cascades_same(a, b),
        same(y, z),
{
    if oversampling {
        lemma_double_sample_is_determined::<A>(s, t, dry, a, y, b, z);
    } else {
        lemma_sample_is_determined::<A>(s, t, dry, a, y, b, z);
    }
}

/// Suppressors that mix and fade alike make the same of the same dry and wet.
pub(crate) proof fn lemma_output<A: Arith, F: Fourier>(
    s: SuppressorState<F>,
    t: SuppressorState<F>,
    dry: Single,
    wet: Single,
    vet: Single,
    r: Single,
    q: Single,
)
    requires
        repeats::<A>(),
        same(wet, vet),
        s.mix == t.mix,
        s.delta_mode == t.delta_mode,
        s.crossfade == t.crossfade,
        output_of::<A, F>(s, dry, wet, r),
        output_of::<A, F>(t, dry, vet, q),
    ensures
        same(r, q),
{
    let m = choose|mixed: Single| #[trigger]
        io_of::<A>(dry, wet, s.mix, s.delta_mode, mixed) && faded_of::<A>(s.crossfade, mixed, r);
    let n = choose|mixed: Single| #[trigger]
        io_of::<A>(dry, vet, t.mix, t.delta_mode, mixed) && faded_of::<A>(t.crossfade, mixed, q);
    lemma_io::<A>(dry, wet, vet, s.mix, s.delta_mode, m, n);
    lemma_faded::<A>(s.crossfade, m, n, r, q);
}

proof fn lemma_joined<A: Arith, F: Fourier>(
    s: SuppressorState<F>,
    t: SuppressorState<F>,
    left_s: Side<F>,
    right_s: Side<F>,
    left_t: Side<F>,
    right_t: Side<F>,
    s2: SuppressorState<F>,
    t2: SuppressorState<F>,
    out: (Single, Single),
    pair: (Single, Single),
    wet: (Single, Single),
    vet: (Single, Single),
)
    requires
        repeats::<A>(),
        s.wf(),
        t.wf(),
        paths_alike(s, t),
        channels_alike(left_s.mid, left_t.mid),
        channels_alike(right_s.mid, right_t.mid),
        left_s.dry == left_t.dry,
        right_s.dry == right_t.dry,
        news_same(left_s.frame, left_t.frame),
        news_same(right_s.frame, right_t.frame),
        joined_with::<A, F>(
            s,
            left_s.mid,
            right_s.mid,
            left_s.dry,
            right_s.dry,
            left_s.frame,
            right_s.frame,
            s2,
            out,
            wet,
        ),
        joined_with::<A, F>(
            t,
            left_t.mid,
            right_t.mid,
            left_t.dry,
            right_t.dry,
            left_t.frame,
            right_t.frame,
            t2,
            pair,
            vet,
        ),
    ensures
        same_pair(wet, vet),
        paths_alike(s2, t2),
        applied_same(s.applied, t.applied) ==> applied_same(s2.applied, t2.applied),
        s.frame_counter == t.frame_counter ==> s2.frame_counter == t2.frame_counter,
{
    let idx = s.fft_index as int;
    let (l, r) = (left_s.frame, right_s.frame);
    let (m, q) = (left_t.frame, right_t.frame);
    let (g_l, g_r) = choose|g_l: CascadeState, g_r: CascadeState|
        {
            &&& #[trigger] filters_updated_of::<A>(left_s.mid.bands@, l, l, r, s.stereo_linked, s.oversampling, g_l)
            &&& #[trigger] filters_updated_of::<A>(right_s.mid.bands@, r, l, r, s.stereo_linked, s.oversampling, g_r)
            &&& reported_of::<F>(s, l, r, left_s.mid, right_s.mid, g_l, g_r, s2)
            &&& wet_of::<A>(s.oversampling, g_l, left_s.dry, s2.channels[0][idx].bands@, wet.0)
            &&& wet_of::<A>(s.oversampling, g_r, right_s.dry, s2.channels[1][idx].bands@, wet.1)
        };
    let (h_l, h_r) = choose|g_l: CascadeState, g_r: CascadeState|
        {
            &&& #[trigger] filters_updated_of::<A>(left_t.mid.bands@, m, m, q, t.stereo_linked, t.oversampling, g_l)
            &&& #[trigger] filters_updated_of::<A>(right_t.mid.bands@, q, m, q, t.stereo_linked, t.oversampling, g_r)
            &&& reported_of::<F>(t, m, q, left_t.mid, right_t.mid, g_l, g_r, t2)
            &&& wet_of::<A>(t.oversampling, g_l, left_t.dry, t2.channels[0][idx].bands@, vet.0)
            &&& wet_of::<A>(t.oversampling, g_r, right_t.dry, t2.channels[1][idx].bands@, vet.1)
        };
    let linked = s.stereo_linked;
    lemma_processor_is_whole(left_s.mid.bands);
    lemma_processor_is_whole(right_s.mid.bands);
    lemma_filters_updated::<A>(
        left_s.mid.bands@,
        left_t.mid.bands@,
        l,
        l,
        r,
        m,
        m,
        q,
        linked,
        s.oversampling,
        g_l,
        h_l,
    );
    lemma_filters_updated::<A>(
        right_s.mid.bands@,
        right_t.mid.bands@,
        r,
        l,
        r,
        q,
        m,
        q,
        linked,
        s.oversampling,
        g_r,
        h_r,
    );
    lemma_wet::<A>(
        s.oversampling,
        g_l,
        h_l,
        left_s.dry,
        s2.channels[0][idx].bands@,
        wet.0,
        t2.channels[0][idx].bands@,
        vet.0,
    );
    lemma_wet::<A>(
        s.oversampling,
        g_r,
        h_r,
        right_s.dry,
        s2.channels[1][idx].bands@,
        wet.1,
        t2.channels[1][idx].bands@,
        vet.1,
    );
    assert forall|c: int, i: int| 0 <= c < 2 && 0 <= i < SIZES implies channels_alike(
        #[trigger] s2.channels[c][i],
        t2.channels[c][i],
    ) by {
        assert(channels_alike(s.channels[c][i], t.channels[c][i]));
    }
    lemma_fresh_gains(l, l, r, m, m, q, linked);
    lemma_fresh_gains(r, l, r, q, m, q, linked);
}

/// A pair of samples takes the suppressor from `s` to `r` and comes out as `out`;
/// `wet` is what the filters make of it.
pub open spec fn suppressed_with<A: Arith, F: Fourier>(
    s: SuppressorState<F>,
    left: Single,
    right: Single,
    r: SuppressorState<F>,
    out: (Single, Single),
    wet: (Single, Single),
) -> bool {
    let idx = s.fft_index as int;
    exists|mid_l: ChannelState<F>, mid_r: ChannelState<F>, dry_l: Single, dry_r: Single, frame_l: Option<ChannelFrame>, frame_r: Option<ChannelFrame>|
        {
            &&& #[trigger] channel_step_of::<A, F>(
                s.channels[0][idx],
                left,
                s.params,
                mid_l,
                dry_l,
                frame_l,
            )
            &&& #[trigger] channel_step_of::<A, F>(
                s.channels[1][idx],
                right,
                s.params,
                mid_r,
                dry_r,
                frame_r,
            )
            &&& joined_with::<A, F>(s, mid_l, mid_r, dry_l, dry_r, frame_l, frame_r, r, out, wet)
        }
}

/// A pair of samples comes out as a mix of what leaves the delays and what the
/// filters make of that.
pub proof fn lemma_sample_is_mixed<A: Arith, F: Fourier>(
    s: SuppressorState<F>,
    left: Single,
    right: Single,
    r: SuppressorState<F>,
    out: (Single, Single),
) -> (wet: (Single, Single))
    requires
        suppressed_of::<A, F>(s, left, right, r, out),
    ensures
        suppressed_with::<A, F>(s, left, right, r, out, wet),
        output_of::<A, F>(s, s.channels[0][s.fft_index as int].delay@[0], wet.0, out.0),
        output_of::<A, F>(s, s.channels[1][s.fft_index as int].delay@[0], wet.1, out.1),
{
    let idx = s.fft_index as int;
    let (mid_l, mid_r, dry_l, dry_r, frame_l, frame_r) = choose|mid_l: ChannelState<F>, mid_r: ChannelState<F>, dry_l: Single, dry_r: Single, frame_l: Option<ChannelFrame>, frame_r: Option<ChannelFrame>|
        {
            &&& #[trigger] channel_step_of::<A, F>(
                s.channels[0][idx],
                left,
                s.params,
                mid_l,
                dry_l,
                frame_l,
            )
            &&& #[trigger] channel_step_of::<A, F>(
                s.channels[1][idx],
                right,
                s.params,
                mid_r,
                dry_r,
                frame_r,
            )
            &&& joined_of::<A, F>(s, mid_l, mid_r, dry_l, dry_r, frame_l, frame_r, r, out)
        };
    let wet = choose|wet: (Single, Single)| #[trigger]
        joined_with::<A, F>(s, mid_l, mid_r, dry_l, dry_r, frame_l, frame_r, r, out, wet);
    wet
}

/// The same pair of samples takes suppressors whose channels are alike to
/// suppressors whose channels are alike, and the filters make the same of it.
pub proof fn lemma_path_is_determined<A: Arith, F: Fourier>(
    s: SuppressorState<F>,
    t: SuppressorState<F>,
    left: Single,
    right: Single,
    s2: SuppressorState<F>,
    t2: SuppressorState<F>,
    out: (Single, Single),
    pair: (Single, Single),
    wet: (Single, Single),
    vet: (Single, Single),
)
    requires
        repeats::<A>(),
        transforms_alike::<F>(),
        s.wf(),
        t.wf(),
        paths_alike(s, t),
        suppressed_with::<A, F>(s, left, right, s2, out, wet),
        suppressed_with::<A, F>(t, left, right, t2, pair, vet),
    ensures
        same_pair(wet, vet),
        paths_alike(s2, t2),
        applied_same(s.applied, t.applied) ==> applied_same(s2.applied, t2.applied),
        s.frame_counter == t.frame_counter ==> s2.frame_counter == t2.frame_counter,
        s.channels[0][s.fft_index as int].delay@ == t.channels[0][s.fft_index as int].delay@,
        s.channels[1][s.fft_index as int].delay@ == t.channels[1][s.fft_index as int].delay@,
{
    let idx = s.fft_index as int;
    let (l, r) = lemma_sides::<A, F>(s, left, right, s2, out, wet);
    let (m, q) = lemma_sides::<A, F>(t, left, right, t2, pair, vet);
    assert(channels_alike(s.channels[0][idx], t.channels[0][idx]));
    assert(channels_alike(s.channels[1][idx], t.channels[1][idx]));
    lemma_channel_step::<A, F>(
        s.channels[0][idx],
        t.channels[0][idx],
        left,
        s.params,
        l.mid,
        m.mid,
        l.dry,
        m.dry,
        l.frame,
        m.frame,
    );
    lemma_channel_step::<A, F>(
        s.channels[1][idx],
        t.channels[1][idx],
        right,
        s.params,
        r.mid,
        q.mid,
        r.dry,
        q.dry,
        r.frame,
        q.frame,
    );
    lemma_joined::<A, F>(s, t, l, r, m, q, s2, t2, out, pair, wet, vet);
}

/// The same pair of samples takes suppressors that are alike to suppressors that
/// are alike, and comes out the same.
pub proof fn lemma_suppressor_is_determined<A: Arith, F: Fourier>(
    s: SuppressorState<F>,
    t: SuppressorState<F>,
    left: Single,
    right: Single,
    s2: SuppressorState<F>,
    t2: SuppressorState<F>,
    out: (Single, Single),
    pair: (Single, Single),
)
    requires
        repeats::<A>(),
        transforms_alike::<F>(),
        s.wf(),
        t.wf(),
        suppressors_alike(s, t),
        suppressed_of::<A, F>(s, left, right, s2, out),
        suppressed_of::<A, F>(t, left, right, t2, pair),
    ensures
        same_pair(out, pair),
        suppressors_alike(s2, t2),
{
    let idx = s.fft_index as int;
    let wet = lemma_sample_is_mixed::<A, F>(s, left, right, s2, out);
    let vet = lemma_sample_is_mixed::<A, F>(t, left, right, t2, pair);
    lemma_path_is_determined::<A, F>(s, t, left, right, s2, t2, out, pair, wet, vet);
    lemma_output::<A, F>(s, t, s.channels[0][idx].delay@[0], wet.0, vet.0, out.0, pair.0);
    lemma_output::<A, F>(s, t, s.channels[1][idx].delay@[0], wet.1, vet.1, out.1, pair.1);
    lemma_sample_keeps_setup::<A, F>(s, left, right, s2, out);
    lemma_sample_keeps_setup::<A, F>(t, left, right, t2, pair);
}

pub(crate) proof fn lemma_sides<A: Arith, F: Fourier>(
    s: SuppressorState<F>,
    left: Single,
    right: Single,
    s2: SuppressorState<F>,
    out: (Single, Single),
    wet: (Single, Single),
) -> (sides: (Side<F>, Side<F>))
    requires
        suppressed_with::<A, F>(s, left, right, s2, out, wet),
    ensures
        channel_step_of::<A, F>(
            s.channels[0][s.fft_index as int],
            left,
            s.params,
            sides.0.mid,
            sides.0.dry,
            sides.0.frame,
        ),
        channel_step_of::<A, F>(
            s.channels[1][s.fft_index as int],
            right,
            s.params,
            sides.1.mid,
            sides.1.dry,
            sides.1.frame,
        ),
        joined_with::<A, F>(
            s,
            sides.0.mid,
            sides.1.mid,
            sides.0.dry,
            sides.1.dry,
            sides.0.frame,
            sides.1.frame,
            s2,
            out,
            wet,
        ),
{
    let idx = s.fft_index as int;
    let (mid_l, mid_r, dry_l, dry_r, frame_l, frame_r) = choose|mid_l: ChannelState<F>, mid_r: ChannelState<F>, dry_l: Single, dry_r: Single, frame_l: Option<ChannelFrame>, frame_r: Option<ChannelFrame>|
        {
            &&& #[trigger] channel_step_of::<A, F>(
                s.channels[0][idx],
                left,
                s.params,
                mid_l,
                dry_l,
                frame_l,
            )
            &&& #[trigger] channel_step_of::<A, F>(
                s.channels[1][idx],
                right,
                s.params,
                mid_r,
                dry_r,
                frame_r,
            )
            &&& joined_with::<A, F>(s, mid_l, mid_r, dry_l, dry_r, frame_l, frame_r, s2, out, wet)
        };
    (
        Side { mid: mid_l, dry: dry_l, frame: frame_l },
        Side { mid: mid_r, dry: dry_r, frame: frame_r },
    )
}

/// The same signal, from states that are alike, comes out the same.
pub proof fn lemma_same_signal_comes_out_the_same<A: Arith, F: Fourier>(
    states: Seq<SuppressorState<F>>,
    others: Seq<SuppressorState<F>>,
    lefts: Seq<Single>,
    rights: Seq<Single>,
    outs: Seq<(Single, Single)>,
    pairs: Seq<(Single, Single)>,
    k: int,
)
    requires
        repeats::<A>(),
        transforms_alike::<F>(),
        run_of::<A, F>(states, lefts, rights, outs),
        run_of::<A, F>(others, lefts, rights, pairs),
        suppressors_alike(states[0], others[0]),
        0 <= k < lefts.len(),
    ensures
        same_pair(outs[k], pairs[k]),
{
    lemma_alike_so_far::<A, F>(states, others, lefts, rights, outs, pairs, k);
    assert(run_step_of::<A, F>(states[k], lefts[k], rights[k], states[k + 1], outs[k]));
    assert(run_step_of::<A, F>(others[k], lefts[k], rights[k], others[k + 1], pairs[k]));
    lemma_alike_step::<A, F>(
        states[k],
        others[k],
        lefts[k],
        rights[k],
        states[k + 1],
        others[k + 1],
        outs[k],
        pairs[k],
    );
}

proof fn lemma_alike_step<A: Arith, F: Fourier>(
    s: SuppressorState<F>,
    t: SuppressorState<F>,
    left: Single,
    right: Single,
    s2: SuppressorState<F>,
    t2: SuppressorState<F>,
    out: (Single, Single),
    pair: (Single, Single),
)
    requires
        repeats::<A>(),
        transforms_alike::<F>(),
        s.wf(),
        t.wf(),
        suppressors_alike(s, t),
        run_step_of::<A, F>(s, left, right, s2, out),
        run_step_of::<A, F>(t, left, right, t2, pair),
    ensures
        same_pair(out, pair),
        suppressors_alike(s2, t2),
{
    reveal(run_step_of);
    lemma_suppressor_is_determined::<A, F>(s, t, left, right, s2, t2, out, pair);
}

proof fn lemma_alike_so_far<A: Arith, F: Fourier>(
    states: Seq<SuppressorState<F>>,
    others: Seq<SuppressorState<F>>,
    lefts: Seq<Single>,
    rights: Seq<Single>,
    outs: Seq<(Single, Single)>,
    pairs: Seq<(Single, Single)>,
    k: int,
)
    requires
        repeats::<A>(),
        transforms_alike::<F>(),
        run_of::<A, F>(states, lefts, rights, outs),
        run_of::<A, F>(others, lefts, rights, pairs),
        suppressors_alike(states[0], others[0]),
        0 <= k <= lefts.len(),
    ensures
        suppressors_alike(states[k], others[k]),
    decreases k,
{
    if k > 0 {
        let j = k - 1;
        lemma_alike_so_far::<A, F>(states, others, lefts, rights, outs, pairs, j);
        assert(run_step_of::<A, F>(states[j], lefts[j], rights[j], states[j + 1], outs[j]));
        assert(run_step_of::<A, F>(others[j], lefts[j], rights[j], others[j + 1], pairs[j]));
        lemma_alike_step::<A, F>(
            states[j],
            others[j],
            lefts[j],
            rights[j],
            states[k],
            others[k],
            outs[j],
            pairs[j],
        );
    }
}

// ----- Beginnings -------------------------------------------------------------

proof fn lemma_hann<A: Arith>(n: usize, i: usize, r: Single, q: Single)
    requires
        repeats::<A>(),
        hann_of::<A>(n, i, r),
        hann_of::<A>(n, i, q),
    ensures
        same(r, q),
{
}

proof fn lemma_window<A: Arith>(n: usize, a: Seq<Single>, b: Seq<Single>)
    requires
        repeats::<A>(),
        hann_window_of::<A>(n, a),
        hann_window_of::<A>(n, b),
    ensures
        all_same(a, b),
{
    if n > 1 {
        assert forall|i: int| 0 <= i < n implies same(a[i], b[i]) by {
            lemma_hann::<A>(n, i as usize, a[i], b[i]);
        }
    }
}

proof fn lemma_fresh_channels_are_alike<A: Arith, F: Fourier>(
    a: ChannelState<F>,
    b: ChannelState<F>,
    size: usize,
    rate: Single,
)
    requires
        repeats::<A>(),
        size > 0,
        a.fresh::<A>(size, rate),
        b.fresh::<A>(size, rate),
    ensures
        channels_alike(a, b),
{
    lemma_window::<A>(size, a.analysis.weights(), b.analysis.weights());
    lemma_layout_is_determined::<A>(size, rate, a.analysis.layout(), b.analysis.layout());
    lemma_layout_is_determined::<A>(size, rate, a.bands@.layout, b.bands@.layout);
    lemma_engine_is_whole(a.analysis);
    lemma_engine_is_whole(b.analysis);
    lemma_detector_is_whole(a.detector);
    lemma_detector_is_whole(b.detector);
}

/// Channels fresh from the start at the same rate are alike.
pub proof fn lemma_fresh_paths_are_alike<A: Arith, F: Fourier>(
    s: SuppressorState<F>,
    t: SuppressorState<F>,
    rate: Single,
)
    requires
        repeats::<A>(),
        s.fresh_channels::<A>(rate),
        t.fresh_channels::<A>(rate),
        same_settings(s, t),
    ensures
        paths_alike(s, t),
{
    assert forall|c: int, i: int| 0 <= c < 2 && 0 <= i < SIZES implies channels_alike(
        #[trigger] s.channels[c][i],
        t.channels[c][i],
    ) by {
        assert(FFT_SIZES@[0] == 1024 && FFT_SIZES@[1] == 2048 && FFT_SIZES@[2] == 4096 && FFT_SIZES@[3]
            == 8192);
        assert(t.channels[c][i].fresh::<A>(FFT_SIZES@[i], rate));
        lemma_fresh_channels_are_alike::<A, F>(
            s.channels[c][i],
            t.channels[c][i],
            FFT_SIZES@[i],
            rate,
        );
    }
}

/// Nothing tells two suppressors apart that are fresh from the start.
pub proof fn lemma_fresh_suppressors_are_alike<A: Arith, F: Fourier>(
    s: SuppressorState<F>,
    t: SuppressorState<F>,
    rate: Single,
)
    requires
        repeats::<A>(),
        s.fresh::<A>(rate),
        t.fresh::<A>(rate),
    ensures
        suppressors_alike(s, t),
{
    let p = s.params;
    let q = t.params;
    assert(p.node_depths =~= q.node_depths);
    assert(p.node_freqs =~= q.node_freqs);
    assert(p.node_shapes =~= q.node_shapes);
    assert(p.node_enabled =~= q.node_enabled);
    lemma_fresh_paths_are_alike::<A, F>(s, t, rate);
}

/// Two channels that differ at most in what they have heard.
pub open spec fn same_make<F: Fourier>(a: ChannelState<F>, b: ChannelState<F>) -> bool {
    &&& setups_alike(a.analysis, b.analysis)
    &&& a.detector.rate() == b.detector.rate()
    &&& same(a.detector.hop(), b.detector.hop())
    &&& layouts_same(a.bands@.layout, b.bands@.layout)
    &&& a.bands@.base_rate == b.bands@.base_rate
    &&& a.bands@.oversampled == b.bands@.oversampled
}

/// A reset forgets everything that was heard: whatever two suppressors of the same
/// make and settings have been through, nothing tells them apart afterwards.
pub proof fn lemma_reset_forgets<F: Fourier>(
    s: SuppressorState<F>,
    t: SuppressorState<F>,
    s2: SuppressorState<F>,
    t2: SuppressorState<F>,
)
    requires
        s.wf(),
        t.wf(),
        same_settings(s, t),
        s.sample_rate == t.sample_rate,
        forall|c: int, i: int|
            0 <= c < 2 && 0 <= i < SIZES ==> same_make(#[trigger] s.channels[c][i], t.channels[c][i]),
        reset_of(s, s2),
        reset_of(t, t2),
    ensures
        suppressors_alike(s2, t2),
{
    assert forall|c: int, i: int| 0 <= c < 2 && 0 <= i < SIZES implies channels_alike(
        #[trigger] s2.channels[c][i],
        t2.channels[c][i],
    ) by {
        assert(same_make(s.channels[c][i], t.channels[c][i]));
        assert(s.channels[c][i].wf(fft_size(i)));
        assert(t.channels[c][i].wf(fft_size(i)));
        assert(FFT_SIZES@[0] == 1024 && FFT_SIZES@[1] == 2048 && FFT_SIZES@[2] == 4096 && FFT_SIZES@[3]
            == 8192);
        assert(s2.channels[c][i].cleared(&s.channels[c][i]));
        assert(t2.channels[c][i].cleared(&t.channels[c][i]));
        lemma_engine_is_whole(s2.channels[c][i].analysis);
        lemma_engine_is_whole(t2.channels[c][i].analysis);
        lemma_detector_is_whole(s2.channels[c][i].detector);
        lemma_detector_is_whole(t2.channels[c][i].detector);
    }
}

} // verus!
