//! With no depth, the signal passes untouched.
//!
//! The laws here hold for every arithmetic that keeps the order of numbers, rounds to
//! the nearest, and takes ten to the power of zero to be one.

use vstd::prelude::*;
use crate::arith::Arith;
use crate::dsp::analysis::{AnalysisEngine, BandAnalysis, Fourier};
use crate::dsp::attenuation::paced;
use crate::dsp::detector::{lemma_detector_is_whole, DetectParams};
use crate::dsp::filters::UNITY_FLOOR;
use crate::dsp::monotony::monotone;
use crate::dsp::response::{
    all_moderate, asks_for_nothing, lemma_no_depth_leaves_detector, starts_at_one, untouched,
};
use crate::dsp::rounding::lemma_sizes;
use crate::dsp::suppressor::{
    channel_step_of, fft_size, frame_reports, fresh_gains, joined_of, run_of, run_step_of, suppressed_of,
    unity_gains, ChannelFrame, ChannelState, SuppressorState, FFT_SIZES, SIZES,
};
use crate::dsp::transparency::{
    at_unity, lemma_unreduced_signal_is_only_delayed, neutral, plain, unreduced,
};
use crate::dsp::BANDS;
use crate::numbers::{ONE, ZERO};
use crate::single::{lemma_magnitude_orders, Single};

verus! {

/// Every one of these is one.
pub open spec fn all_one(gains: Seq<Single>) -> bool {
    gains.len() == BANDS && forall|i: int| 0 <= i < BANDS ==> #[trigger] gains[i] == Single(ONE)
}

/// A channel that has reduced nothing yet.
pub open spec fn channel_idles<A: Arith, F: Fourier>(ch: ChannelState<F>) -> bool {
    &&& untouched(ch.detector)
    &&& all_moderate(ch.detector.baselines())
    &&& paced::<A>(ch.detector)
    &&& forall|i: int| 0 <= i < BANDS ==> (#[trigger] ch.analysis.layout().centers@[i]).finite()
}

/// A suppressor of no depth that has reduced nothing yet.
pub open spec fn idles<A: Arith, F: Fourier>(s: SuppressorState<F>) -> bool {
    &&& s.wf()
    &&& asks_for_nothing(s.params)
    &&& all_one(s.applied[0])
    &&& all_one(s.applied[1])
    &&& forall|c: int, i: int|
        0 <= c < 2 && 0 <= i < SIZES ==> channel_idles::<A, F>(#[trigger] s.channels[c][i])
}

/// A frame that the sample `x` completes has levels of ordinary size.
pub open spec fn gauged<A: Arith, F: Fourier>(engine: AnalysisEngine<F>, x: Single) -> bool {
    forall|next: AnalysisEngine<F>, a: BandAnalysis| #[trigger]
        next.takes::<A>(&engine, x, Some(a)) ==> all_moderate(a.levels@)
}

/// A suppressor fresh from the start idles once its depth is zero.
pub proof fn lemma_fresh_suppressor_idles<A: Arith, F: Fourier>(s: SuppressorState<F>, rate: Single)
    requires
        s.wf(),
        s.fresh_channels::<A>(rate),
        s.applied == unity_gains(),
        asks_for_nothing(s.params),
        forall|c: int, i: int|
            0 <= c < 2 && 0 <= i < SIZES ==> paced::<A>((#[trigger] s.channels[c][i]).detector),
        forall|c: int, i: int, b: int|
            0 <= c < 2 && 0 <= i < SIZES && 0 <= b < BANDS ==> (
            #[trigger] s.channels[c][i].analysis.layout().centers@[b]).finite(),
    ensures
        idles::<A, F>(s),
{
    lemma_sizes();
    assert forall|c: int, i: int| 0 <= c < 2 && 0 <= i < SIZES implies channel_idles::<A, F>(
        #[trigger] s.channels[c][i],
    ) by {
        assert(s.channels[c][i].fresh::<A>(FFT_SIZES@[i], rate));
    }
}

/// A sample leaves an idle channel idle, and a frame of it reduces nothing.
proof fn lemma_channel_keeps_idling<A: Arith, F: Fourier>(
    a: ChannelState<F>,
    x: Single,
    p: DetectParams,
    b: ChannelState<F>,
    dry: Single,
    frame: Option<ChannelFrame>,
)
    requires
        monotone::<A>(),
        starts_at_one::<A>(),
        asks_for_nothing(p),
        channel_idles::<A, F>(a),
        gauged::<A, F>(a.analysis, x),
        channel_step_of::<A, F>(a, x, p, b, dry, frame),
    ensures
        channel_idles::<A, F>(b),
        frame matches Some(f) ==> all_one(f.gains@),
{
    let r = choose|r: Option<BandAnalysis>|
        {
            &&& #[trigger] b.analysis.takes::<A>(&a.analysis, x, r)
            &&& r is None ==> frame is None && b.detector == a.detector
            &&& r matches Some(an) ==> {
                &&& frame is Some
                &&& b.detector.steps_from::<A>(a.detector, an.levels@, p, b.analysis.layout().centers@)
                &&& frame_reports(an, b.detector, frame->0)
            }
        };
    assert(b.analysis.layout() == a.analysis.layout());
    assert forall|i: int| 0 <= i < BANDS implies (#[trigger] b.analysis.layout().centers@[i]).finite() by {
        assert(a.analysis.layout().centers@[i].finite());
    }
    if let Some(an) = r {
        lemma_no_depth_leaves_detector::<A>(
            b.detector,
            a.detector,
            an.levels@,
            p,
            b.analysis.layout().centers@,
        );
        lemma_detector_is_whole(b.detector);
        assert forall|i: int| 0 <= i < BANDS implies #[trigger] b.detector.gains()[i] == Single(ONE) by {
            assert(b.detector.step_at(i).gain == Single(ONE));
        }
    }
}

/// Frames that reduce nothing bring gains of one, linked or not.
proof fn lemma_fresh_gains_are_one(
    own: Option<ChannelFrame>,
    left: Option<ChannelFrame>,
    right: Option<ChannelFrame>,
    linked: bool,
)
    requires
        own matches Some(f) ==> all_one(f.gains@),
        left matches Some(f) ==> all_one(f.gains@),
        right matches Some(f) ==> all_one(f.gains@),
    ensures
        fresh_gains(own, left, right, linked) matches Some(g) ==> all_one(g),
{
    if let Some(g) = fresh_gains(own, left, right, linked) {
        if linked && left is Some && right is Some {
            assert forall|i: int| 0 <= i < BANDS implies #[trigger] g[i] == Single(ONE) by {
                assert(left->0.gains@[i] == Single(ONE) && right->0.gains@[i] == Single(ONE));
            }
        }
    }
}

/// A sample leaves an idle suppressor idle.
pub proof fn lemma_idle_sample<A: Arith, F: Fourier>(
    s: SuppressorState<F>,
    left: Single,
    right: Single,
    r: SuppressorState<F>,
    out: (Single, Single),
)
    requires
        monotone::<A>(),
        starts_at_one::<A>(),
        idles::<A, F>(s),
        gauged::<A, F>(s.channels[0][s.fft_index as int].analysis, left),
        gauged::<A, F>(s.channels[1][s.fft_index as int].analysis, right),
        suppressed_of::<A, F>(s, left, right, r, out),
        r.wf(),
    ensures
        idles::<A, F>(r),
{
    let idx = s.fft_index as int;
    let (mid_l, mid_r, dry_l, dry_r, frame_l, frame_r) = choose|mid_l: ChannelState<F>, mid_r: ChannelState<F>, dry_l: Single, dry_r: Single, frame_l: Option<ChannelFrame>, frame_r: Option<ChannelFrame>|
        {
            &&& #[trigger] channel_step_of::<A, F>(
                s.channels[0][idx],
                left,
                s.params,
                mid_l,
                dry_l,
                frame_l,
            )
            &&& #[trigger] channel_step_of::<A, F>(
                s.channels[1][idx],
                right,
                s.params,
                mid_r,
                dry_r,
                frame_r,
            )
            &&& joined_of::<A, F>(s, mid_l, mid_r, dry_l, dry_r, frame_l, frame_r, r, out)
        };
    assert(channel_idles::<A, F>(s.channels[0][idx]) && channel_idles::<A, F>(s.channels[1][idx]));
    lemma_channel_keeps_idling::<A, F>(s.channels[0][idx], left, s.params, mid_l, dry_l, frame_l);
    lemma_channel_keeps_idling::<A, F>(s.channels[1][idx], right, s.params, mid_r, dry_r, frame_r);
    lemma_fresh_gains_are_one(frame_l, frame_l, frame_r, s.stereo_linked);
    lemma_fresh_gains_are_one(frame_r, frame_l, frame_r, s.stereo_linked);
    assert forall|c: int, i: int| 0 <= c < 2 && 0 <= i < SIZES implies channel_idles::<A, F>(
        #[trigger] r.channels[c][i],
    ) by {
        assert(channel_idles::<A, F>(s.channels[c][i]));
    }
}

/// However many samples there are, an idle suppressor stays idle.
pub proof fn lemma_idles_throughout<A: Arith, F: Fourier>(
    states: Seq<SuppressorState<F>>,
    lefts: Seq<Single>,
    rights: Seq<Single>,
    outs: Seq<(Single, Single)>,
    k: int,
)
    requires
        monotone::<A>(),
        starts_at_one::<A>(),
        run_of::<A, F>(states, lefts, rights, outs),
        idles::<A, F>(states[0]),
        forall|j: int|
            0 <= j < lefts.len() ==> gauged::<A, F>(
                (#[trigger] states[j]).channels[0][states[j].fft_index as int].analysis,
                lefts[j],
            ) && gauged::<A, F>(states[j].channels[1][states[j].fft_index as int].analysis, rights[j]),
        0 <= k < states.len(),
    ensures
        idles::<A, F>(states[k]),
        at_unity(states[k]),
    decreases k,
{
    if k > 0 {
        lemma_idles_throughout::<A, F>(states, lefts, rights, outs, k - 1);
        assert(states[k].wf());
        assert(run_step_of::<A, F>(
            states[k - 1],
            lefts[k - 1],
            rights[k - 1],
            states[k - 1 + 1],
            outs[k - 1],
        ));
        reveal(run_step_of);
        lemma_idle_sample::<A, F>(states[k - 1], lefts[k - 1], rights[k - 1], states[k], outs[k - 1]);
    }
    lemma_magnitude_orders(Single(UNITY_FLOOR), Single(ONE));
    lemma_magnitude_orders(Single(ZERO), Single(UNITY_FLOOR));
    assert forall|c: int, i: int| 0 <= c < 2 && 0 <= i < BANDS implies Single(UNITY_FLOOR).at_most(
        #[trigger] states[k].applied[c][i],
    ) by {
        assert(all_one(states[k].applied[c]));
    }
}

/// With no depth since the start, what comes out is what went in, exactly one window
/// later.
pub proof fn lemma_no_depth_is_only_a_delay<A: Arith, F: Fourier>(
    states: Seq<SuppressorState<F>>,
    lefts: Seq<Single>,
    rights: Seq<Single>,
    outs: Seq<(Single, Single)>,
    k: int,
)
    requires
        monotone::<A>(),
        starts_at_one::<A>(),
        neutral::<A>(),
        run_of::<A, F>(states, lefts, rights, outs),
        idles::<A, F>(states[0]),
        unreduced(states[0]),
        forall|j: int|
            0 <= j < lefts.len() ==> gauged::<A, F>(
                (#[trigger] states[j]).channels[0][states[j].fft_index as int].analysis,
                lefts[j],
            ) && gauged::<A, F>(states[j].channels[1][states[j].fft_index as int].analysis, rights[j]),
        forall|j: int| 0 <= j < lefts.len() ==> plain(#[trigger] lefts[j]),
        forall|j: int| 0 <= j < rights.len() ==> plain(#[trigger] rights[j]),
        forall|c: int, j: int|
            0 <= c < 2 && 0 <= j < fft_size(states[0].fft_index as int) ==> plain(
                #[trigger] states[0].channels[c][states[0].fft_index as int].delay@[j],
            ),
        fft_size(states[0].fft_index as int) <= k < lefts.len(),
    ensures
        outs[k].0.steps() == lefts[k - fft_size(states[0].fft_index as int)].steps(),
        outs[k].1.steps() == rights[k - fft_size(states[0].fft_index as int)].steps(),
{
    assert forall|j: int| 0 <= j < states.len() implies at_unity(#[trigger] states[j]) by {
        lemma_idles_throughout::<A, F>(states, lefts, rights, outs, j);
    }
    lemma_unreduced_signal_is_only_delayed::<A, F>(states, lefts, rights, outs, k);
}

} // verus!
