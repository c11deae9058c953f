//! What a reported frame shows.
//!
//! The laws here hold for every arithmetic that keeps the order of numbers, and
//! rounds to the nearest.

use vstd::prelude::*;
use crate::arith::{log10_of, minus_of, plus_of, times_of, Arith};
use crate::dsp::analysis::{lemma_concentration_bounds, AnalysisFrame, BandAnalysis, Fourier};
use crate::dsp::attenuation::{
    all_unit, downward, lemma_band_is_only_reduced, lemma_channel_only_reduces, lemma_fresh_gains_are_unit,
    lemma_suppressor_only_reduces, lemma_unit_is_finite, only_reduces, paced, unit, within,
};
use crate::dsp::bands::{
    band_of, center_of, layout_of, layout_terms_of, lemma_quality_bounds, BandLayout, LayoutTerms, NOMINAL_Q_CEILING,
};
use crate::dsp::determinism::lemma_step_parts;
use crate::dsp::detector::{
    band_step_of, frame_terms_of, lemma_detector_is_whole, median, window, DetectParams, Detector, FrameTerms,
};
use crate::dsp::filters::{
    filter_target_of, gains_set_of, oversampling_set_of, synth_rate_of, CascadeState, FilterTarget, Q_BOOST_MAX,
    UNITY_FLOOR,
};
use crate::dsp::monotony::{lemma_difference, lemma_sum, monotone};
use crate::dsp::rounding::{lemma_not_subnormal, lemma_sizes, ROUNDING_LIMIT};
use crate::dsp::shaping::{in_place, lemma_node_shape_is_unit};
use crate::dsp::suppressor::{
    channel_step_of, filters_updated_of, frame_reports, fresh_gains, joined_of, joined_with, report_of, reported_of,
    suppressed_of, wet_of, ChannelFrame, ChannelState, SuppressorState,
};
use crate::dsp::BANDS;
use crate::numbers::{EIGHTEEN, ONE, ONE_TEN_THOUSANDTH, THIRTY_SIX, THOUSAND, THREE_TENTHS, TWELVE, TWENTY, ZERO};
use crate::single::{lemma_held_between, lemma_magnitude_orders, Single};

verus! {

/// Parameters in their range, with every node in its place.
pub open spec fn in_range(p: DetectParams) -> bool {
    &&& downward(p)
    &&& unit(p.depth)
    &&& in_place(p.node_freqs@, p.node_depths@, p.node_enabled@)
}

/// A layout whose centers are numbers, and whose qualities lie between 0.3 and their
/// ceilings.
pub open spec fn tuned(layout: BandLayout) -> bool {
    forall|i: int|
        0 <= i < BANDS ==> (#[trigger] layout.centers@[i]).finite() && Single(THREE_TENTHS).at_most(layout.q@[i])
            && layout.q@[i].at_most(layout.q_ceiling@[i]) && layout.q_ceiling@[i].finite()
}

/// A layout of numbers is [`tuned`].
pub proof fn lemma_layout_is_tuned<A: Arith>(fft_size: usize, rate: Single, layout: BandLayout)
    requires
        layout_of::<A>(fft_size, rate, layout),
        forall|i: int|
            0 <= i < BANDS ==> (#[trigger] layout.centers@[i]).finite() && !layout.q@[i].nan(),
    ensures
        tuned(layout),
{
    assert forall|i: int| 0 <= i < BANDS implies (#[trigger] layout.centers@[i]).finite() && Single(
        THREE_TENTHS,
    ).at_most(layout.q@[i]) && layout.q@[i].at_most(layout.q_ceiling@[i]) && layout.q_ceiling@[i].finite() by {
        let t = choose|t: LayoutTerms|
            {
                &&& #[trigger] layout_terms_of::<A>(fft_size, rate, t)
                &&& forall|i: int|
                    0 <= i < BANDS ==> center_of::<A>(t, i as usize, #[trigger] layout.centers@[i])
                &&& forall|i: int| 0 <= i < BANDS ==> #[trigger] band_of::<A>(t, fft_size, layout, i)
            };
        assert(band_of::<A>(t, fft_size, layout, i));
        lemma_quality_bounds::<A>(fft_size, rate, layout, i);
        lemma_magnitude_orders(Single(EIGHTEEN), layout.q@[i]);
        lemma_magnitude_orders(Single(ZERO), Single(THREE_TENTHS));
        lemma_magnitude_orders(Single(NOMINAL_Q_CEILING), layout.q_ceiling@[i]);
    }
}

/// Every channel in use goes by a layout that is [`tuned`].
pub open spec fn all_tuned<F: Fourier>(s: SuppressorState<F>) -> bool {
    forall|c: int|
        0 <= c < 2 ==> tuned((#[trigger] s.channels[c])[s.fft_index as int].analysis.layout()) && tuned(
            s.channels[c][s.fft_index as int].bands@.layout,
        )
}

/// What a report says of band `i` lies where it can be shown: a depth from 0 to 1, a
/// reduction from 0 to 36 dB, gains from 0 to 1, a gain in dB of at most 0, and a
/// quality that is a positive number.
pub open spec fn shows(f: AnalysisFrame, i: int) -> bool {
    &&& unit(f.effective_depth@[i])
    &&& Single(ZERO).at_most(f.reduction_db@[i])
    &&& f.reduction_db@[i].at_most(Single(THIRTY_SIX))
    &&& unit(f.target_gain@[i])
    &&& unit(f.reduction@[i])
    &&& f.gain_db@[i].at_most(Single(ZERO))
    &&& Single(ZERO).below(f.effective_q@[i])
    &&& f.effective_q@[i].finite()
}

// ----- The detector -----------------------------------------------------------

/// What a frame leaves in a band.
proof fn lemma_band_in_range<A: Arith>(
    after: Detector,
    before: Detector,
    levels: Seq<Single>,
    p: DetectParams,
    centers: Seq<Single>,
    i: int,
)
    requires
        monotone::<A>(),
        in_range(p),
        paced::<A>(before),
        all_unit(before.gains()),
        0 <= i < BANDS,
        centers[i].finite(),
        after.steps_from::<A>(before, levels, p, centers),
    ensures
        unit(after.effective_depths()[i]),
        Single(ZERO).at_most(after.reductions()[i]),
        after.reductions()[i].at_most(Single(THIRTY_SIX)),
        unit(after.target_gains()[i]),
{
    lemma_detector_is_whole(before);
    let t = choose|t: FrameTerms|
        {
            &&& #[trigger] frame_terms_of::<A>(before.hop(), before.rate(), p, t)
            &&& forall|i: int|
                0 <= i < BANDS ==> band_step_of::<A>(
                    t,
                    p,
                    centers[i],
                    levels[i],
                    median(window(levels, i)),
                    before.baselines()[i],
                    before.gains()[i],
                    #[trigger] after.step_at(i),
                )
        };
    let s = after.step_at(i);
    let m = median(window(levels, i));
    assert(band_step_of::<A>(t, p, centers[i], levels[i], m, before.baselines()[i], before.gains()[i], s));
    assert(unit(before.gains()[i]));
    lemma_band_is_only_reduced::<A>(t, p, centers[i], levels[i], m, before.baselines()[i], before.gains()[i], s);
    let (_, region) = lemma_step_parts::<A>(
        t,
        p,
        centers[i],
        levels[i],
        m,
        before.baselines()[i],
        before.gains()[i],
        s,
    );
    lemma_node_shape_is_unit::<A>(
        centers[i],
        p.node_freqs@,
        p.node_depths@,
        p.node_shapes@,
        p.node_enabled@,
        region,
    );
    lemma_sizes();
    lemma_unit_is_finite(p.depth);
    assert(within(s.effective_depth, p.depth));
}

// ----- The filters ------------------------------------------------------------

/// What is asked of a filter: no boost, at a quality that is a positive number.
pub proof fn lemma_filter_in_range<A: Arith>(
    center: Single,
    q: Single,
    q_ceiling: Single,
    gain: Single,
    concentration: Single,
    fs: Single,
    f: FilterTarget,
)
    requires
        monotone::<A>(),
        Single(THREE_TENTHS).at_most(q),
        q.at_most(q_ceiling),
        q_ceiling.finite(),
        unit(gain),
        unit(concentration),
        filter_target_of::<A>(center, q, q_ceiling, gain, concentration, fs, f),
    ensures
        f.gain_db.at_most(Single(ZERO)),
        Single(THREE_TENTHS).at_most(f.effective_q),
        f.effective_q.at_most(q_ceiling),
{
    lemma_sizes();
    if !Single(UNITY_FLOOR).at_most(gain) {
        let level = gain.larger(Single(ONE_TEN_THOUSANDTH));
        let log = choose|log: Single| #[trigger]
            log10_of::<A>(level, log) && times_of::<A>(Single(TWENTY), log, f.gain_db);
        assert(unit(level));
        lemma_not_subnormal(Single(TWENTY));
        assert(log.at_most(Single(ZERO)));
        assert(f.gain_db.at_most(Single(ZERO)));
        let (span, boost, factor, raw) = choose|span: Single, boost: Single, factor: Single, raw: Single|
            {
                &&& #[trigger] minus_of::<A>(Single(Q_BOOST_MAX), Single(ONE), span)
                &&& #[trigger] times_of::<A>(concentration, span, boost)
                &&& #[trigger] plus_of::<A>(Single(ONE), boost, factor)
                &&& #[trigger] times_of::<A>(q, factor, raw)
                &&& f.effective_q == raw.held(Single(THREE_TENTHS), q_ceiling)
            };
        lemma_magnitude_orders(Single(ONE), Single(Q_BOOST_MAX));
        lemma_magnitude_orders(Single(Q_BOOST_MAX), Single(TWELVE));
        lemma_difference::<A>(Single(Q_BOOST_MAX), Single(ONE), span, Single(THOUSAND));
        assert(within(boost, span));
        lemma_sum::<A>(Single(ONE), boost, factor, Single(ROUNDING_LIMIT));
        lemma_magnitude_orders(q_ceiling, q);
        lemma_magnitude_orders(Single(ZERO), Single(THREE_TENTHS));
        assert(q.finite());
        assert(!raw.nan());
        lemma_held_between(raw, Single(THREE_TENTHS), q_ceiling);
    }
}

/// What new gains ask of filter `i`.
proof fn lemma_filters_in_range<A: Arith>(
    s: CascadeState,
    gains: Seq<Single>,
    concentration: Seq<Single>,
    r: CascadeState,
    i: int,
)
    requires
        monotone::<A>(),
        tuned(s.layout),
        gains.len() == BANDS,
        concentration.len() == BANDS,
        all_unit(gains),
        all_unit(concentration),
        gains_set_of::<A>(s, gains, concentration, r),
        0 <= i < BANDS,
    ensures
        r.gain_db[i].at_most(Single(ZERO)),
        Single(ZERO).below(r.effective_q[i]),
        r.effective_q[i].finite(),
{
    let fs = choose|fs: Single|
        {
            &&& #[trigger] synth_rate_of::<A>(s, fs)
            &&& forall|i: int|
                0 <= i < BANDS ==> filter_target_of::<A>(
                    s.layout.centers@[i],
                    s.layout.q@[i],
                    s.layout.q_ceiling@[i],
                    gains[i],
                    concentration[i],
                    fs,
                    #[trigger] r.target_at(i),
                )
        };
    let f = r.target_at(i);
    assert(s.layout.centers@[i].finite());
    assert(unit(gains[i]) && unit(concentration[i]));
    lemma_filter_in_range::<A>(
        s.layout.centers@[i],
        s.layout.q@[i],
        s.layout.q_ceiling@[i],
        gains[i],
        concentration[i],
        fs,
        f,
    );
    lemma_sizes();
    lemma_magnitude_orders(Single(ZERO), Single(THREE_TENTHS));
    lemma_magnitude_orders(s.layout.q_ceiling@[i], f.effective_q);
}

// ----- The report -------------------------------------------------------------

/// What the frame of a channel and its filters show, one by one.
proof fn lemma_channel_shows<A: Arith, F: Fourier>(
    ch: ChannelState<F>,
    x: Single,
    p: DetectParams,
    mid: ChannelState<F>,
    dry: Single,
    frame: ChannelFrame,
    gains: Seq<Single>,
    oversampling: bool,
    wide: CascadeState,
    g: CascadeState,
    i: int,
)
    requires
        monotone::<A>(),
        in_range(p),
        paced::<A>(ch.detector),
        all_unit(ch.detector.gains()),
        tuned(ch.analysis.layout()),
        tuned(ch.bands@.layout),
        channel_step_of::<A, F>(ch, x, p, mid, dry, Some(frame)),
        forall|i: int| 0 <= i < BANDS ==> !(#[trigger] frame.concentration@[i]).nan(),
        gains.len() == BANDS,
        all_unit(gains),
        oversampling_set_of::<A>(mid.bands@, oversampling, wide),
        gains_set_of::<A>(wide, gains, frame.concentration@, g),
        0 <= i < BANDS,
    ensures
        unit(frame.debug.effective_depth@[i]),
        Single(ZERO).at_most(frame.debug.reduction_db@[i]),
        frame.debug.reduction_db@[i].at_most(Single(THIRTY_SIX)),
        unit(frame.debug.target_gain@[i]),
        g.gain_db[i].at_most(Single(ZERO)),
        Single(ZERO).below(g.effective_q[i]),
        g.effective_q[i].finite(),
{
    let r = choose|r: Option<BandAnalysis>|
        {
            &&& #[trigger] mid.analysis.takes::<A>(&ch.analysis, x, r)
            &&& r is None ==> Some(frame) is None && mid.detector == ch.detector
            &&& r matches Some(an) ==> {
                &&& Some(frame) is Some
                &&& mid.detector.steps_from::<A>(ch.detector, an.levels@, p, mid.analysis.layout().centers@)
                &&& frame_reports(an, mid.detector, frame)
            }
        };
    let an = r->0;
    assert(mid.analysis.layout() == ch.analysis.layout());
    assert(mid.analysis.layout().centers@[i].finite());
    lemma_band_in_range::<A>(mid.detector, ch.detector, an.levels@, p, mid.analysis.layout().centers@, i);
    assert forall|k: int| 0 <= k < BANDS implies unit(#[trigger] frame.concentration@[k]) by {
        lemma_concentration_bounds::<A>(mid.analysis.bins(), mid.analysis.layout(), an, k);
    }
    assert(wide.layout == ch.bands@.layout);
    lemma_filters_in_range::<A>(wide, gains, frame.concentration@, g, i);
}

/// The gains that a frame brings are as many as there are bands.
proof fn lemma_fresh_gains_are_whole(
    own: ChannelFrame,
    left: Option<ChannelFrame>,
    right: Option<ChannelFrame>,
    linked: bool,
)
    ensures
        fresh_gains(Some(own), left, right, linked) is Some,
        fresh_gains(Some(own), left, right, linked)->0.len() == BANDS,
{
}

/// A reported frame lies in range in every band, if its concentrations are numbers.
pub proof fn lemma_report_is_in_range<A: Arith, F: Fourier>(
    s: SuppressorState<F>,
    left: Single,
    right: Single,
    r: SuppressorState<F>,
    out: (Single, Single),
    f: AnalysisFrame,
    through: bool,
    i: int,
)
    requires
        monotone::<A>(),
        s.wf(),
        in_range(s.params),
        only_reduces::<A, F>(s),
        all_tuned(s),
        suppressed_of::<A, F>(s, left, right, r, out),
        r.offered == s.offered.push((f, through)),
        forall|i: int| 0 <= i < BANDS ==> !(#[trigger] f.concentration@[i]).nan(),
        0 <= i < BANDS,
    ensures
        shows(f, i),
{
    let idx = s.fft_index as int;
    lemma_suppressor_only_reduces::<A, F>(s, left, right, r, out);
    let (mid_l, mid_r, dry_l, dry_r, frame_l, frame_r) = choose|mid_l: ChannelState<F>, mid_r: ChannelState<F>, dry_l: Single, dry_r: Single, frame_l: Option<ChannelFrame>, frame_r: Option<ChannelFrame>|
        {
            &&& #[trigger] channel_step_of::<A, F>(
                s.channels[0][idx],
                left,
                s.params,
                mid_l,
                dry_l,
                frame_l,
            )
            &&& #[trigger] channel_step_of::<A, F>(
                s.channels[1][idx],
                right,
                s.params,
                mid_r,
                dry_r,
                frame_r,
            )
            &&& joined_of::<A, F>(s, mid_l, mid_r, dry_l, dry_r, frame_l, frame_r, r, out)
        };
    let wet = choose|wet: (Single, Single)| #[trigger]
        joined_with::<A, F>(s, mid_l, mid_r, dry_l, dry_r, frame_l, frame_r, r, out, wet);
    let new_l = r.channels[0][idx];
    let new_r = r.channels[1][idx];
    let (g_l, g_r) = choose|g_l: CascadeState, g_r: CascadeState|
        {
            &&& #[trigger] filters_updated_of::<A>(
                mid_l.bands@,
                frame_l,
                frame_l,
                frame_r,
                s.stereo_linked,
                s.oversampling,
                g_l,
            )
            &&& #[trigger] filters_updated_of::<A>(
                mid_r.bands@,
                frame_r,
                frame_l,
                frame_r,
                s.stereo_linked,
                s.oversampling,
                g_r,
            )
            &&& reported_of::<F>(s, frame_l, frame_r, mid_l, mid_r, g_l, g_r, r)
            &&& wet_of::<A>(s.oversampling, g_l, dry_l, new_l.bands@, wet.0)
            &&& wet_of::<A>(s.oversampling, g_r, dry_r, new_r.bands@, wet.1)
        };
    assert(all_unit(s.channels[0][idx].detector.gains()) && all_unit(s.channels[1][idx].detector.gains()));
    lemma_channel_only_reduces::<A, F>(s.channels[0][idx], left, s.params, mid_l, dry_l, frame_l);
    lemma_channel_only_reduces::<A, F>(s.channels[1][idx], right, s.params, mid_r, dry_r, frame_r);
    lemma_fresh_gains_are_unit(frame_l, frame_l, frame_r, s.stereo_linked);
    lemma_fresh_gains_are_unit(frame_r, frame_l, frame_r, s.stereo_linked);
    assert(r.offered.last() == (f, through));
    assert(tuned(s.channels[0][idx].analysis.layout()) && tuned(s.channels[1][idx].analysis.layout()));
    assert(unit(r.applied[0][i]));
    if frame_l is Some {
        let frame = frame_l->0;
        let (f2, through2) = choose|f2: AnalysisFrame, through2: bool| #[trigger]
            s.offered.push((f2, through2)) == r.offered && report_of::<F>(
                frame,
                r.applied[0],
                mid_l,
                g_l,
                s.sample_rate,
                s.frame_counter,
                f2,
            );
        assert(r.offered.last() == (f2, through2));
        let gains = fresh_gains(frame_l, frame_l, frame_r, s.stereo_linked)->0;
        lemma_fresh_gains_are_whole(frame, frame_l, frame_r, s.stereo_linked);
        let wide = choose|mid: CascadeState| #[trigger]
            oversampling_set_of::<A>(mid_l.bands@, s.oversampling, mid) && gains_set_of::<A>(
                mid,
                gains,
                frame.concentration@,
                g_l,
            );
        lemma_channel_shows::<A, F>(
            s.channels[0][idx],
            left,
            s.params,
            mid_l,
            dry_l,
            frame,
            gains,
            s.oversampling,
            wide,
            g_l,
            i,
        );
    } else {
        let frame = frame_r->0;
        let (f2, through2) = choose|f2: AnalysisFrame, through2: bool| #[trigger]
            s.offered.push((f2, through2)) == r.offered && report_of::<F>(
                frame,
                r.applied[0],
                mid_r,
                g_r,
                s.sample_rate,
                s.frame_counter,
                f2,
            );
        assert(frame_r is Some);
        assert(r.offered.last() == (f2, through2));
        let gains = fresh_gains(frame_r, frame_l, frame_r, s.stereo_linked)->0;
        lemma_fresh_gains_are_whole(frame, frame_l, frame_r, s.stereo_linked);
        let wide = choose|mid: CascadeState| #[trigger]
            oversampling_set_of::<A>(mid_r.bands@, s.oversampling, mid) && gains_set_of::<A>(
                mid,
                gains,
                frame.concentration@,
                g_r,
            );
        lemma_channel_shows::<A, F>(
            s.channels[1][idx],
            right,
            s.params,
            mid_r,
            dry_r,
            frame,
            gains,
            s.oversampling,
            wide,
            g_r,
            i,
        );
    }
}

} // verus!
