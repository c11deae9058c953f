//! Two channels of analysis, detection and filtering, and what joins them.

use vstd::prelude::*;
use crate::arith::{count_of, minus_of, over_of, plus_of, pow_of, times_of, Arith};
use crate::dsp::analysis::{
    bin_count, frame_due, hann_window_of, hop_of, plan_of, silent_bins, AnalysisEngine, AnalysisFrame,
    BandAnalysis, Fourier,
};
use crate::dsp::bands::{compute_band_layout, layout_of};
use crate::dsp::delay::{silence, DelayLine};
use crate::dsp::detector::{
    all_bands, default_node_depths, default_node_enabled, default_node_freqs, default_node_shapes,
    fresh_node_depths, fresh_node_enabled, fresh_node_freqs, fresh_node_shapes, in_all_bands, DetectParams,
    Detector,
};
use crate::dsp::filters::{
    cascade_at_rest, double_sample_of, gains_set_of, oversampling_set_of, sample_of, BandProcessor,
    CascadeState,
};
use crate::dsp::{BANDS, MAX_NODES};
use crate::numbers::{HALF, HUNDRED, ONE, TEN, TENTH, TWENTY, ZERO};
use crate::single::{lemma_held_between, lemma_magnitude_orders, Single};

verus! {

/// The window sizes to choose from.
pub const FFT_SIZES: [usize; 4] = [1024, 2048, 4096, 8192];

/// Number of window sizes.
pub const SIZES: usize = 4;

/// Samples over which the output fades in after a change of state.
pub const CROSSFADE_LEN: usize = 512;

// ----- Parameters -------------------------------------------------------------

/// What the suppressor goes by.
#[derive(Clone, Copy)]
pub struct DspParams {
    pub depth: Single,
    pub sharpness: Single,
    pub selectivity: Single,
    pub attack_ms: Single,
    pub release_ms: Single,
    pub mix: Single,
    pub soft_mode: bool,
    pub delta_mode: bool,
    /// Depth multiplier of every node slot.
    pub node_depths: [Single; MAX_NODES],
    /// Center frequency of every node slot, in Hz.
    pub node_freqs: [Single; MAX_NODES],
    /// Shape of every node slot: 0 is a bell, 1 a low shelf, 2 a high shelf.
    pub node_shapes: [usize; MAX_NODES],
    /// Whether a node slot takes part at all.
    pub node_enabled: [bool; MAX_NODES],
    /// Both channels take the lower gain of the two in every band.
    pub stereo_linked: bool,
    /// The filters run at twice the rate.
    pub oversampling: bool,
}

impl DspParams {
    /// These are the parameters that everything starts from.
    pub open spec fn is_default(self) -> bool {
        &&& self.depth == Single(HALF)
        &&& self.sharpness == Single(HALF)
        &&& self.selectivity == Single(HALF)
        &&& self.attack_ms == Single(TEN)
        &&& self.release_ms == Single(HUNDRED)
        &&& self.mix == Single(ONE)
        &&& !self.soft_mode
        &&& !self.delta_mode
        &&& self.node_depths@ == default_node_depths()
        &&& self.node_freqs@ == default_node_freqs()
        &&& self.node_shapes@ == default_node_shapes()
        &&& self.node_enabled@ == default_node_enabled()
        &&& self.stereo_linked
        &&& !self.oversampling
    }

    /// The part that the detector goes by, held to its range.
    pub open spec fn for_detector(self) -> DetectParams {
        DetectParams {
            depth: self.depth.held(Single(ZERO), Single(ONE)),
            sharpness: self.sharpness.held(Single(ZERO), Single(ONE)),
            selectivity: self.selectivity.held(Single(ZERO), Single(ONE)),
            attack_ms: self.attack_ms.larger(Single(TENTH)),
            release_ms: self.release_ms.larger(Single(ONE)),
            soft_mode: self.soft_mode,
            node_depths: self.node_depths,
            node_freqs: self.node_freqs,
            node_shapes: self.node_shapes,
            node_enabled: self.node_enabled,
        }
    }
}

impl Default for DspParams {
    fn default() -> (r: Self)
        ensures
            r.is_default(),
    {
        DspParams {
            depth: Single(HALF),
            sharpness: Single(HALF),
            selectivity: Single(HALF),
            attack_ms: Single(TEN),
            release_ms: Single(HUNDRED),
            mix: Single(ONE),
            soft_mode: false,
            delta_mode: false,
            node_depths: fresh_node_depths(),
            node_freqs: fresh_node_freqs(),
            node_shapes: fresh_node_shapes(),
            node_enabled: fresh_node_enabled(),
            stereo_linked: true,
            oversampling: false,
        }
    }
}

// ----- The way to the display -------------------------------------------------

/// `rtrb::Producer`, the end of a ring buffer that is written.
#[verifier::external_type_specification]
#[verifier::external_body]
#[verifier::reject_recursive_types(T)]
pub struct ExProducer<T>(rtrb::Producer<T>);

/// The calls of `rtrb::Producer::push` made on this end of the ring buffer, in
/// order: the frame handed over, and whether it went in.
pub uninterp spec fn frames_offered(p: rtrb::Producer<AnalysisFrame>) -> Seq<(AnalysisFrame, bool)>;

/// `rtrb::Producer::push`. The frame either goes in, or is handed back as it was
/// because the ring buffer is full; either way the call is on record. Whether the
/// ring buffer is full depends on the thread that reads, so nothing is said of that.
#[verifier::external_body]
fn push_frame(p: &mut rtrb::Producer<AnalysisFrame>, f: AnalysisFrame) -> (r: Result<(), AnalysisFrame>)
    ensures
        frames_offered(*final(p)) == frames_offered(*old(p)).push((f, r is Ok)),
        r matches Err(g) ==> g == f,
{
    match p.push(f) {
        Ok(()) => Ok(()),
        Err(rtrb::PushError::Full(g)) => Err(g),
    }
}

// ----- One channel at one window size -----------------------------------------

/// The state of one channel for one window size.
pub struct ChannelState<F: Fourier> {
    pub analysis: AnalysisEngine<F>,
    pub detector: Detector,
    pub bands: BandProcessor,
    pub delay: DelayLine,
}

impl<F: Fourier> ChannelState<F> {
    /// The delay is exactly as long as the window.
    pub open spec fn wf(&self, size: nat) -> bool {
        &&& self.analysis.wf()
        &&& self.analysis.size() == size
        &&& self.delay.wf()
        &&& self.delay@.len() == size
    }

    /// Fresh from the start, for windows of `size` samples.
    pub open spec fn fresh<A: Arith>(&self, size: usize, rate: Single) -> bool {
        &&& self.wf(size as nat)
        &&& self.analysis.at_rest()
        &&& plan_of::<F>(size, self.analysis.transform())
        &&& hann_window_of::<A>(size, self.analysis.weights())
        &&& layout_of::<A>(size, rate, self.analysis.layout())
        &&& self.analysis.bins() == silent_bins(bin_count(size as nat))
        &&& self.detector.at_rest()
        &&& self.detector.rate() == rate
        &&& count_of::<A>(hop_of(size as nat) as usize, self.detector.hop())
        &&& layout_of::<A>(size, rate, self.bands@.layout)
        &&& self.bands@ == cascade_at_rest(self.bands@.layout, rate, false)
        &&& self.delay@ == silence(size as nat)
    }

    /// `self` is `before` with all samples forgotten.
    pub open spec fn cleared(&self, before: &Self) -> bool {
        &&& self.wf(before.analysis.size())
        &&& self.analysis.same_setup(&before.analysis)
        &&& self.analysis.at_rest()
        &&& self.analysis.bins() == before.analysis.bins()
        &&& self.detector.at_rest()
        &&& self.detector.rate() == before.detector.rate()
        &&& self.detector.hop() == before.detector.hop()
        &&& self.bands@ == cascade_at_rest(
            before.bands@.layout,
            before.bands@.base_rate,
            before.bands@.oversampled,
        )
        &&& self.delay@ == silence(before.delay@.len())
    }

    fn new<A: Arith>(fft_size: usize, sample_rate: Single) -> (c: Self)
        requires
            fft_size > 0,
        ensures
            c.fresh::<A>(fft_size, sample_rate),
    {
        let layout = compute_band_layout::<A>(fft_size, sample_rate);
        let analysis = AnalysisEngine::<F>::new::<A>(fft_size, sample_rate);
        let hop = analysis.hop();
        ChannelState {
            analysis,
            detector: Detector::new::<A>(hop, sample_rate),
            bands: BandProcessor::new(layout, sample_rate),
            delay: DelayLine::new(fft_size),
        }
    }

    fn reset(&mut self)
        requires
            old(self).wf(old(self).analysis.size()),
        ensures
            final(self).cleared(&*old(self)),
    {
        self.analysis.reset();
        self.detector.reset();
        self.bands.reset();
        self.delay.reset();
    }
}

/// What a channel's detector went through in its last frame.
#[derive(Clone, Copy)]
pub struct DepthDebug {
    pub effective_depth: [Single; BANDS],
    pub reduction_db: [Single; BANDS],
    pub target_gain: [Single; BANDS],
}

/// What a channel's frame comes to.
#[derive(Clone, Copy)]
pub struct ChannelFrame {
    pub levels: [Single; BANDS],
    pub gains: [Single; BANDS],
    pub concentration: [Single; BANDS],
    pub debug: DepthDebug,
}

/// `f` is what the frame `a` came to in the detector `d`.
pub open spec fn frame_reports(a: BandAnalysis, d: Detector, f: ChannelFrame) -> bool {
    &&& f.levels == a.levels
    &&& f.concentration == a.concentration
    &&& f.gains@ == d.gains()
    &&& f.debug.effective_depth@ == d.effective_depths()
    &&& f.debug.reduction_db@ == d.reductions()
    &&& f.debug.target_gain@ == d.target_gains()
}

/// The sample `x` takes a channel from `before` to `after`: it comes out as
/// `dry` after the delay, and `frame` is what its analysis came to.
pub open spec fn channel_step_of<A: Arith, F: Fourier>(
    before: ChannelState<F>,
    x: Single,
    p: DetectParams,
    after: ChannelState<F>,
    dry: Single,
    frame: Option<ChannelFrame>,
) -> bool {
    &&& exists|a: Option<BandAnalysis>|
        {
            &&& #[trigger] after.analysis.takes::<A>(&before.analysis, x, a)
            &&& a is None ==> frame is None && after.detector == before.detector
            &&& a matches Some(an) ==> {
                &&& frame is Some
                &&& after.detector.steps_from::<A>(
                    before.detector,
                    an.levels@,
                    p,
                    after.analysis.layout().centers@,
                )
                &&& frame_reports(an, after.detector, frame->0)
            }
        }
    &&& dry == before.delay@[0]
    &&& after.delay@ == before.delay@.drop_first().push(x)
    &&& after.bands == before.bands
}

fn process_channel<A: Arith, F: Fourier>(
    st: &mut ChannelState<F>,
    x: Single,
    params: &DetectParams,
) -> (r: (Single, Option<ChannelFrame>))
    requires
        old(st).wf(old(st).analysis.size()),
        old(st).analysis.size() > 0,
    ensures
        final(st).wf(old(st).analysis.size()),
        channel_step_of::<A, F>(*old(st), x, *params, *final(st), r.0, r.1),
{
    let mut frame: Option<ChannelFrame> = None;
    let a = st.analysis.process_sample::<A>(x);
    if let Some(analysis) = a {
        let centers = st.analysis.bands().centers;
        let gains = st.detector.process_frame::<A>(&analysis.levels, params, &centers);
        frame = Some(
            ChannelFrame {
                levels: analysis.levels,
                gains,
                concentration: analysis.concentration,
                debug: DepthDebug {
                    effective_depth: *st.detector.last_effective_depth(),
                    reduction_db: *st.detector.last_reduction_db(),
                    target_gain: *st.detector.last_target_gain(),
                },
            },
        );
    }
    let dry = st.delay.push_pop(x);
    assert(st.analysis.takes::<A>(&old(st).analysis, x, a));
    (dry, frame)
}

// ----- Gains ------------------------------------------------------------------

/// The lower gain of the two in every band.
pub open spec fn lower_gains(a: Seq<Single>, b: Seq<Single>) -> Seq<Single> {
    Seq::new(BANDS as nat, |i: int| a[i].smaller(b[i]))
}

/// The lower gain of the two in every band: the stronger reduction wins.
pub fn linked_gains(a: &[Single; BANDS], b: &[Single; BANDS]) -> (r: [Single; BANDS])
    ensures
        r@ == lower_gains(a@, b@),
{
    let mut r = in_all_bands(Single(ONE));
    for i in 0..BANDS
        invariant
            forall|m: int| 0 <= m < i ==> r@[m] == #[trigger] a@[m].smaller(b@[m]),
    {
        r[i] = a[i].min(b[i]);
    }
    assert(r@ =~= lower_gains(a@, b@));
    r
}

/// The gains that a channel's new frame brings: its own, or the lower of both
/// channels where they are linked. `own` belongs to the channel.
pub open spec fn fresh_gains(
    own: Option<ChannelFrame>,
    left: Option<ChannelFrame>,
    right: Option<ChannelFrame>,
    linked: bool,
) -> Option<Seq<Single>> {
    if own is None {
        None
    } else if linked && left is Some && right is Some {
        Some(lower_gains(left->0.gains@, right->0.gains@))
    } else {
        Some(own->0.gains@)
    }
}

fn gains_for(
    own: &ChannelFrame,
    left: &Option<ChannelFrame>,
    right: &Option<ChannelFrame>,
    linked: bool,
) -> (r: [Single; BANDS])
    ensures
        fresh_gains(Some(*own), *left, *right, linked) == Some(r@),
{
    match (left, right) {
        (Some(l), Some(r)) => if linked {
            linked_gains(&l.gains, &r.gains)
        } else {
            own.gains
        },
        _ => own.gains,
    }
}

/// A channel's filters go from `s` to `r`. New gains are set at the rate asked
/// for; without news on either channel a change of that rate still takes effect.
pub open spec fn filters_updated_of<A: Arith>(
    s: CascadeState,
    own: Option<ChannelFrame>,
    left: Option<ChannelFrame>,
    right: Option<ChannelFrame>,
    linked: bool,
    oversampling: bool,
    r: CascadeState,
) -> bool {
    match own {
        Some(f) => exists|mid: CascadeState| #[trigger]
            oversampling_set_of::<A>(s, oversampling, mid) && gains_set_of::<A>(
                mid,
                fresh_gains(own, left, right, linked)->0,
                f.concentration@,
                r,
            ),
        None => if left is Some || right is Some {
            r == s
        } else {
            oversampling_set_of::<A>(s, oversampling, r)
        },
    }
}

/// Sets new gains at the rate asked for.
fn apply_gains<A: Arith>(
    bands: &mut BandProcessor,
    gains: &[Single; BANDS],
    concentration: &[Single; BANDS],
    oversampled: bool,
)
    ensures
        exists|mid: CascadeState| #[trigger]
            oversampling_set_of::<A>(old(bands)@, oversampled, mid) && gains_set_of::<A>(
                mid,
                gains@,
                concentration@,
                final(bands)@,
            ),
{
    bands.set_oversampled::<A>(oversampled);
    let ghost mid = bands@;
    bands.set_gains::<A>(gains, concentration);
    assert(oversampling_set_of::<A>(old(bands)@, oversampled, mid));
}

/// A channel's gains in force, and its filters, after a pair of frames.
fn update_filters<A: Arith>(
    bands: &mut BandProcessor,
    applied: &mut [Single; BANDS],
    own: &Option<ChannelFrame>,
    left: &Option<ChannelFrame>,
    right: &Option<ChannelFrame>,
    linked: bool,
    oversampling: bool,
)
    ensures
        filters_updated_of::<A>(
            old(bands)@,
            *own,
            *left,
            *right,
            linked,
            oversampling,
            final(bands)@,
        ),
        final(applied)@ == gains_in_force(
            old(applied)@,
            fresh_gains(*own, *left, *right, linked),
        ),
{
    match own {
        Some(f) => {
            let gains = gains_for(f, left, right, linked);
            apply_gains::<A>(bands, &gains, &f.concentration, oversampling);
            *applied = gains;
        },
        None => {
            if left.is_none() && right.is_none() {
                bands.set_oversampled::<A>(oversampling);
            }
        },
    }
}

/// The gains in force: the new ones where there are any.
pub open spec fn gains_in_force(before: Seq<Single>, fresh: Option<Seq<Single>>) -> Seq<Single> {
    match fresh {
        Some(g) => g,
        None => before,
    }
}

// ----- Output -----------------------------------------------------------------

/// `r` mixes `dry` and `wet`, or is what was taken out of `dry`.
pub open spec fn io_of<A: Arith>(dry: Single, wet: Single, mix: Single, delta: bool, r: Single) -> bool {
    if delta {
        minus_of::<A>(dry, wet, r)
    } else {
        exists|rest: Single, p: Single, q: Single|
            {
                &&& #[trigger] minus_of::<A>(Single(ONE), mix, rest)
                &&& #[trigger] times_of::<A>(dry, rest, p)
                &&& #[trigger] times_of::<A>(wet, mix, q)
                &&& plus_of::<A>(p, q, r)
            }
    }
}

/// Mixes `dry` and `wet`, or gives what was taken out of `dry`.
pub fn apply_io<A: Arith>(dry: Single, wet: Single, mix: Single, delta: bool) -> (r: Single)
    ensures
        io_of::<A>(dry, wet, mix, delta, r),
{
    if delta {
        A::minus(dry, wet)
    } else {
        A::plus(A::times(dry, A::minus(Single(ONE), mix)), A::times(wet, mix))
    }
}

/// `g` is how loud the output is with `remaining` samples of a fade still to go.
pub open spec fn fade_gain_of<A: Arith>(remaining: usize, g: Single) -> bool {
    exists|a: Single, b: Single, share: Single|
        {
            &&& #[trigger] count_of::<A>(remaining, a)
            &&& #[trigger] count_of::<A>(CROSSFADE_LEN, b)
            &&& #[trigger] over_of::<A>(a, b, share)
            &&& minus_of::<A>(Single(ONE), share, g)
        }
}

/// `r` is `x` at the loudness of a fade with `remaining` samples before this one.
pub open spec fn faded_of<A: Arith>(remaining: usize, x: Single, r: Single) -> bool {
    if remaining > 0 {
        exists|g: Single| #[trigger]
            fade_gain_of::<A>((remaining - 1) as usize, g) && times_of::<A>(x, g, r)
    } else {
        r == x
    }
}

/// `r` is the linear factor of `db` decibels.
pub open spec fn linear_of<A: Arith>(db: Single, r: Single) -> bool {
    exists|e: Single| #[trigger]
        over_of::<A>(db, Single(TWENTY), e) && pow_of::<A>(Single(TEN), e, r)
}

/// The linear factor of `db` decibels.
pub fn db_to_linear<A: Arith>(db: Single) -> (r: Single)
    ensures
        linear_of::<A>(db, r),
{
    A::pow(Single(TEN), A::over(db, Single(TWENTY)))
}

/// A sample goes through the filters at the rate asked for.
pub open spec fn wet_of<A: Arith>(
    oversampling: bool,
    s: CascadeState,
    dry: Single,
    r: CascadeState,
    wet: Single,
) -> bool {
    if oversampling {
        double_sample_of::<A>(s, dry, r, wet)
    } else {
        sample_of::<A>(s, dry, r, wet)
    }
}

fn filter_sample<A: Arith>(
    bands: &mut BandProcessor,
    dry: Single,
    gains: &[Single; BANDS],
    oversampling: bool,
) -> (wet: Single)
    ensures
        wet_of::<A>(oversampling, old(bands)@, dry, final(bands)@, wet),
{
    if oversampling {
        bands.process_sample_2x::<A>(dry, gains)
    } else {
        bands.process_sample::<A>(dry)
    }
}

// ----- The suppressor ---------------------------------------------------------

/// All that a [`ResonanceSuppressor`] holds.
#[verifier::ext_equal]
pub struct SuppressorState<F: Fourier> {
    /// Every channel at every window size.
    pub channels: Seq<Seq<ChannelState<F>>>,
    /// Which window size is in use.
    pub fft_index: usize,
    pub params: DetectParams,
    pub mix: Single,
    pub delta_mode: bool,
    pub stereo_linked: bool,
    pub oversampling: bool,
    /// The gains in force on every channel.
    pub applied: Seq<Seq<Single>>,
    pub sample_rate: Single,
    /// Frames that the display was offered, each with whether they went through.
    pub offered: Seq<(AnalysisFrame, bool)>,
    /// Number of the next frame.
    pub frame_counter: u32,
    /// Samples of a fade still to go.
    pub crossfade: usize,
}

/// The window size number `i`.
pub open spec fn fft_size(i: int) -> nat {
    FFT_SIZES@[i] as nat
}

impl<F: Fourier> SuppressorState<F> {
    /// Every channel is whole, and both have seen the same number of samples at
    /// every window size.
    pub open spec fn wf(self) -> bool {
        &&& self.fft_index < SIZES
        &&& self.crossfade <= CROSSFADE_LEN
        &&& self.channels.len() == 2
        &&& self.applied.len() == 2
        &&& forall|c: int|
            0 <= c < 2 ==> (#[trigger] self.channels[c]).len() == SIZES && self.applied[c].len()
                == BANDS
        &&& forall|c: int, i: int|
            0 <= c < 2 && 0 <= i < SIZES ==> (#[trigger] self.channels[c][i]).wf(fft_size(i))
        &&& forall|i: int|
            0 <= i < SIZES ==> (#[trigger] self.channels[0][i]).analysis.taken()
                == self.channels[1][i].analysis.taken()
    }

    /// Every channel is fresh from the start.
    pub open spec fn fresh_channels<A: Arith>(self, rate: Single) -> bool {
        forall|c: int, i: int|
            0 <= c < 2 && 0 <= i < SIZES ==> (#[trigger] self.channels[c][i]).fresh::<A>(
                FFT_SIZES@[i],
                rate,
            )
    }

    /// Fresh from the start, at 2048 samples a window, with parameters as they
    /// come.
    pub open spec fn fresh<A: Arith>(self, rate: Single) -> bool {
        &&& self.fresh_channels::<A>(rate)
        &&& self.fft_index == 1
        &&& self.params.is_default()
        &&& self.mix == Single(ONE)
        &&& !self.delta_mode
        &&& self.stereo_linked
        &&& !self.oversampling
        &&& self.applied == unity_gains()
        &&& self.sample_rate == rate
        &&& self.frame_counter == 0
        &&& self.crossfade == 0
    }
}

/// The suppressor with other parameters, held to their ranges.
pub open spec fn with_params<F: Fourier>(s: SuppressorState<F>, p: DspParams) -> SuppressorState<F> {
    SuppressorState {
        params: p.for_detector(),
        mix: p.mix.held(Single(ZERO), Single(ONE)),
        delta_mode: p.delta_mode,
        stereo_linked: p.stereo_linked,
        oversampling: p.oversampling,
        ..s
    }
}

/// The suppressor at window size number `idx`; a number past the last one means
/// the last one. A change starts a fade.
pub open spec fn with_fft_index<F: Fourier>(s: SuppressorState<F>, idx: int) -> SuppressorState<F> {
    let new = if idx < SIZES {
        idx
    } else {
        SIZES - 1
    };
    if new == s.fft_index {
        s
    } else {
        SuppressorState { fft_index: new as usize, crossfade: CROSSFADE_LEN, ..s }
    }
}

/// `r` is the suppressor at another sample rate: it starts over and fades in. A
/// change by less than one is none.
pub open spec fn rate_set_of<A: Arith, F: Fourier>(
    s: SuppressorState<F>,
    rate: Single,
    r: SuppressorState<F>,
) -> bool {
    exists|d: Single| #[trigger]
        minus_of::<A>(s.sample_rate, rate, d) && if d.absolute().below(Single(ONE)) {
            r == s
        } else {
            &&& r.fresh_channels::<A>(rate)
            &&& r == (SuppressorState {
                channels: r.channels,
                sample_rate: rate,
                crossfade: CROSSFADE_LEN,
                ..s
            })
        }
}

/// `r` is the suppressor with all samples forgotten; parameters stay.
pub open spec fn reset_of<F: Fourier>(s: SuppressorState<F>, r: SuppressorState<F>) -> bool {
    &&& forall|c: int, i: int|
        0 <= c < 2 && 0 <= i < SIZES ==> (#[trigger] r.channels[c][i]).cleared(&s.channels[c][i])
    &&& r == (SuppressorState {
        channels: r.channels,
        applied: unity_gains(),
        frame_counter: 0,
        crossfade: 0,
        ..s
    })
}

/// The gains of both channels at unity.
pub open spec fn unity_gains() -> Seq<Seq<Single>> {
    seq![all_bands(Single(ONE)), all_bands(Single(ONE))]
}

/// `f` is the report on a frame of the channel `ch`, whose filters stand at `g`.
pub open spec fn report_of<F: Fourier>(
    source: ChannelFrame,
    reduction: Seq<Single>,
    ch: ChannelState<F>,
    g: CascadeState,
    rate: Single,
    number: u32,
    f: AnalysisFrame,
) -> bool {
    &&& f.spectrum == source.levels
    &&& f.reduction@ == reduction
    &&& f.centers == ch.analysis.layout().centers
    &&& f.concentration == source.concentration
    &&& f.sample_rate == rate
    &&& f.frame_idx == number
    &&& f.effective_depth == source.debug.effective_depth
    &&& f.reduction_db == source.debug.reduction_db
    &&& f.target_gain == source.debug.target_gain
    &&& f.gain_db@ == g.gain_db
    &&& f.effective_q@ == g.effective_q
}

/// One report more has been offered.
pub open spec fn report_offered<F: Fourier>(
    before: Seq<(AnalysisFrame, bool)>,
    source: ChannelFrame,
    reduction: Seq<Single>,
    ch: ChannelState<F>,
    g: CascadeState,
    rate: Single,
    number: u32,
    after: Seq<(AnalysisFrame, bool)>,
) -> bool {
    exists|f: AnalysisFrame, through: bool| #[trigger]
        before.push((f, through)) == after && report_of::<F>(
            source,
            reduction,
            ch,
            g,
            rate,
            number,
            f,
        )
}

/// A frame is numbered and reported once, whether or not the report goes through.
/// The left channel is reported where it has a frame; the reduction is always
/// that of the left channel.
pub open spec fn reported_of<F: Fourier>(
    s: SuppressorState<F>,
    frame_l: Option<ChannelFrame>,
    frame_r: Option<ChannelFrame>,
    ch_l: ChannelState<F>,
    ch_r: ChannelState<F>,
    g_l: CascadeState,
    g_r: CascadeState,
    r: SuppressorState<F>,
) -> bool {
    if frame_l is None && frame_r is None {
        r.offered == s.offered && r.frame_counter == s.frame_counter
    } else {
        &&& r.frame_counter == if s.frame_counter == u32::MAX {
            0
        } else {
            s.frame_counter + 1
        }
        &&& frame_l is Some ==> report_offered::<F>(
            s.offered,
            frame_l->0,
            r.applied[0],
            ch_l,
            g_l,
            s.sample_rate,
            s.frame_counter,
            r.offered,
        )
        &&& frame_l is None ==> report_offered::<F>(
            s.offered,
            frame_r->0,
            r.applied[0],
            ch_r,
            g_r,
            s.sample_rate,
            s.frame_counter,
            r.offered,
        )
    }
}

/// `out` is the output on a channel.
pub open spec fn output_of<A: Arith, F: Fourier>(
    s: SuppressorState<F>,
    dry: Single,
    wet: Single,
    out: Single,
) -> bool {
    exists|mixed: Single| #[trigger]
        io_of::<A>(dry, wet, s.mix, s.delta_mode, mixed) && faded_of::<A>(s.crossfade, mixed, out)
}

/// Given what both channels made of their samples, the suppressor goes from `s`
/// to `r`, the filters give `wet`, and `out` comes out.
pub open spec fn joined_with<A: Arith, F: Fourier>(
    s: SuppressorState<F>,
    mid_l: ChannelState<F>,
    mid_r: ChannelState<F>,
    dry_l: Single,
    dry_r: Single,
    frame_l: Option<ChannelFrame>,
    frame_r: Option<ChannelFrame>,
    r: SuppressorState<F>,
    out: (Single, Single),
    wet: (Single, Single),
) -> bool {
    let idx = s.fft_index as int;
    let new_l = r.channels[0][idx];
    let new_r = r.channels[1][idx];
    let gains_l = fresh_gains(frame_l, frame_l, frame_r, s.stereo_linked);
    let gains_r = fresh_gains(frame_r, frame_l, frame_r, s.stereo_linked);
    &&& exists|g_l: CascadeState, g_r: CascadeState|
        {
            &&& #[trigger] filters_updated_of::<A>(
                mid_l.bands@,
                frame_l,
                frame_l,
                frame_r,
                s.stereo_linked,
                s.oversampling,
                g_l,
            )
            &&& #[trigger] filters_updated_of::<A>(
                mid_r.bands@,
                frame_r,
                frame_l,
                frame_r,
                s.stereo_linked,
                s.oversampling,
                g_r,
            )
            &&& reported_of::<F>(s, frame_l, frame_r, mid_l, mid_r, g_l, g_r, r)
            &&& wet_of::<A>(s.oversampling, g_l, dry_l, new_l.bands@, wet.0)
            &&& wet_of::<A>(s.oversampling, g_r, dry_r, new_r.bands@, wet.1)
        }
    &&& output_of::<A, F>(s, dry_l, wet.0, out.0)
    &&& output_of::<A, F>(s, dry_r, wet.1, out.1)
    &&& new_l == (ChannelState { bands: new_l.bands, ..mid_l })
    &&& new_r == (ChannelState { bands: new_r.bands, ..mid_r })
    &&& r == (SuppressorState {
        channels: s.channels.update(0, s.channels[0].update(idx, new_l)).update(
            1,
            s.channels[1].update(idx, new_r),
        ),
        applied: seq![
            gains_in_force(s.applied[0], gains_l),
            gains_in_force(s.applied[1], gains_r),
        ],
        offered: r.offered,
        frame_counter: r.frame_counter,
        crossfade: if s.crossfade > 0 {
            (s.crossfade - 1) as usize
        } else {
            0
        },
        ..s
    })
}

/// Given what both channels made of their samples, the suppressor goes from `s`
/// to `r`, and `out` comes out.
pub open spec fn joined_of<A: Arith, F: Fourier>(
    s: SuppressorState<F>,
    mid_l: ChannelState<F>,
    mid_r: ChannelState<F>,
    dry_l: Single,
    dry_r: Single,
    frame_l: Option<ChannelFrame>,
    frame_r: Option<ChannelFrame>,
    r: SuppressorState<F>,
    out: (Single, Single),
) -> bool {
    exists|wet: (Single, Single)| #[trigger]
        joined_with::<A, F>(s, mid_l, mid_r, dry_l, dry_r, frame_l, frame_r, r, out, wet)
}

/// A pair of samples takes the suppressor from `s` to `r` and comes out as `out`.
pub open spec fn suppressed_of<A: Arith, F: Fourier>(
    s: SuppressorState<F>,
    left: Single,
    right: Single,
    r: SuppressorState<F>,
    out: (Single, Single),
) -> bool {
    let idx = s.fft_index as int;
    exists|mid_l: ChannelState<F>, mid_r: ChannelState<F>, dry_l: Single, dry_r: Single, frame_l: Option<ChannelFrame>, frame_r: Option<ChannelFrame>|
        {
            &&& #[trigger] channel_step_of::<A, F>(
                s.channels[0][idx],
                left,
                s.params,
                mid_l,
                dry_l,
                frame_l,
            )
            &&& #[trigger] channel_step_of::<A, F>(
                s.channels[1][idx],
                right,
                s.params,
                mid_r,
                dry_r,
                frame_r,
            )
            &&& joined_of::<A, F>(s, mid_l, mid_r, dry_l, dry_r, frame_l, frame_r, r, out)
        }
}

/// One channel at all window sizes.
struct ChannelBundle<F: Fourier> {
    states: [ChannelState<F>; 4],
}

impl<F: Fourier> ChannelBundle<F> {
    fn new<A: Arith>(sample_rate: Single) -> (b: Self)
        ensures
            forall|i: int|
                0 <= i < SIZES ==> (#[trigger] b.states@[i]).fresh::<A>(
                    FFT_SIZES@[i],
                    sample_rate,
                ),
    {
        ChannelBundle {
            states: [
                ChannelState::new::<A>(FFT_SIZES[0], sample_rate),
                ChannelState::new::<A>(FFT_SIZES[1], sample_rate),
                ChannelState::new::<A>(FFT_SIZES[2], sample_rate),
                ChannelState::new::<A>(FFT_SIZES[3], sample_rate),
            ],
        }
    }

    fn reset(&mut self)
        requires
            forall|i: int| 0 <= i < SIZES ==> (#[trigger] old(self).states@[i]).wf(fft_size(i)),
        ensures
            forall|i: int|
                0 <= i < SIZES ==> (#[trigger] final(self).states@[i]).cleared(&old(self).states@[i]),
    {
        for i in 0..SIZES
            invariant
                forall|m: int| 0 <= m < SIZES ==> (#[trigger] old(self).states@[m]).wf(fft_size(m)),
                forall|m: int|
                    0 <= m < i ==> (#[trigger] self.states@[m]).cleared(&old(self).states@[m]),
                forall|m: int| i <= m < SIZES ==> #[trigger] self.states@[m] == old(self).states@[m],
        {
            let ghost before = self.states@[i as int];
            assert(before == old(self).states@[i as int]);
            self.states[i].reset();
        }
    }
}

/// Takes resonances out of a stereo signal.
pub struct ResonanceSuppressor<F: Fourier> {
    channels: [ChannelBundle<F>; 2],
    fft_index: usize,
    detect_params: DetectParams,
    mix: Single,
    delta_mode: bool,
    stereo_linked: bool,
    oversampling: bool,
    applied_gains: [[Single; BANDS]; 2],
    sample_rate: Single,
    viz_producer: rtrb::Producer<AnalysisFrame>,
    frame_counter: u32,
    crossfade_remaining: usize,
}

impl<F: Fourier> View for ResonanceSuppressor<F> {
    type V = SuppressorState<F>;

    closed spec fn view(&self) -> SuppressorState<F> {
        SuppressorState {
            channels: seq![self.channels@[0].states@, self.channels@[1].states@],
            fft_index: self.fft_index,
            params: self.detect_params,
            mix: self.mix,
            delta_mode: self.delta_mode,
            stereo_linked: self.stereo_linked,
            oversampling: self.oversampling,
            applied: seq![self.applied_gains@[0]@, self.applied_gains@[1]@],
            sample_rate: self.sample_rate,
            offered: frames_offered(self.viz_producer),
            frame_counter: self.frame_counter,
            crossfade: self.crossfade_remaining,
        }
    }
}

impl<F: Fourier> ResonanceSuppressor<F> {
    /// A suppressor at 2048 samples a window, with parameters as they come.
    pub fn new<A: Arith>(sample_rate: Single, viz_producer: rtrb::Producer<AnalysisFrame>) -> (r: Self)
        ensures
            r@.wf(),
            r@.fresh::<A>(sample_rate),
            r@.offered == frames_offered(viz_producer),
    {
        let r = ResonanceSuppressor {
            channels: [
                ChannelBundle::new::<A>(sample_rate),
                ChannelBundle::new::<A>(sample_rate),
            ],
            fft_index: 1,
            detect_params: DetectParams::default(),
            mix: Single(ONE),
            delta_mode: false,
            stereo_linked: true,
            oversampling: false,
            applied_gains: [in_all_bands(Single(ONE)), in_all_bands(Single(ONE))],
            sample_rate,
            viz_producer,
            frame_counter: 0,
            crossfade_remaining: 0,
        };
        assert(r@.applied =~= unity_gains());
        r
    }

    /// Samples by which the output lags behind the input.
    pub fn latency(&self) -> (n: usize)
        requires
            self@.wf(),
        ensures
            n == fft_size(self@.fft_index as int),
    {
        FFT_SIZES[self.fft_index]
    }

    /// Samples of a fade still to go.
    pub fn crossfade_remaining(&self) -> (n: usize)
        ensures
            n == self@.crossfade,
    {
        self.crossfade_remaining
    }

    /// The gains in force on both channels.
    pub fn applied_gains(&self) -> (r: &[[Single; BANDS]; 2])
        ensures
            self@.applied == seq![r@[0]@, r@[1]@],
    {
        &self.applied_gains
    }

    /// Starts over at another sample rate. A change by less than one is none.
    pub fn set_sample_rate<A: Arith>(&mut self, sample_rate: Single)
        requires
            old(self)@.wf(),
        ensures
            final(self)@.wf(),
            rate_set_of::<A, F>(old(self)@, sample_rate, final(self)@),
    {
        let d = A::minus(self.sample_rate, sample_rate);
        assert(minus_of::<A>(old(self)@.sample_rate, sample_rate, d));
        if d.abs().lt(Single(ONE)) {
            return;
        }
        self.sample_rate = sample_rate;
        self.channels = [
            ChannelBundle::new::<A>(sample_rate),
            ChannelBundle::new::<A>(sample_rate),
        ];
        self.crossfade_remaining = CROSSFADE_LEN;
        assert(self@ =~= (SuppressorState {
            channels: self@.channels,
            sample_rate,
            crossfade: CROSSFADE_LEN,
            ..old(self)@
        }));
    }

    /// Chooses a window size; a number past the last one means the last one.
    pub fn set_fft_size_index(&mut self, idx: usize)
        requires
            old(self)@.wf(),
        ensures
            final(self)@.wf(),
            final(self)@ == with_fft_index(old(self)@, idx as int),
    {
        let new: usize = if idx < SIZES {
            idx
        } else {
            SIZES - 1
        };
        if new != self.fft_index {
            self.fft_index = new;
            self.crossfade_remaining = CROSSFADE_LEN;
            assert(self@ =~= (SuppressorState {
                fft_index: new,
                crossfade: CROSSFADE_LEN,
                ..old(self)@
            }));
        }
    }

    /// Takes over parameters, held to their ranges.
    pub fn set_params(&mut self, p: DspParams)
        requires
            old(self)@.wf(),
        ensures
            final(self)@.wf(),
            final(self)@ == with_params(old(self)@, p),
    {
        self.detect_params = DetectParams {
            depth: p.depth.clamp(Single(ZERO), Single(ONE)),
            sharpness: p.sharpness.clamp(Single(ZERO), Single(ONE)),
            selectivity: p.selectivity.clamp(Single(ZERO), Single(ONE)),
            attack_ms: p.attack_ms.max(Single(TENTH)),
            release_ms: p.release_ms.max(Single(ONE)),
            soft_mode: p.soft_mode,
            node_depths: p.node_depths,
            node_freqs: p.node_freqs,
            node_shapes: p.node_shapes,
            node_enabled: p.node_enabled,
        };
        self.mix = p.mix.clamp(Single(ZERO), Single(ONE));
        self.delta_mode = p.delta_mode;
        self.stereo_linked = p.stereo_linked;
        self.oversampling = p.oversampling;
        assert(self@ =~= with_params(old(self)@, p));
    }

    /// Forgets all samples; parameters stay.
    pub fn reset(&mut self)
        requires
            old(self)@.wf(),
        ensures
            final(self)@.wf(),
            reset_of(old(self)@, final(self)@),
    {
        assert(forall|i: int|
            0 <= i < SIZES ==> #[trigger] self.channels@[0].states@[i] == self@.channels[0][i]);
        assert(forall|i: int|
            0 <= i < SIZES ==> #[trigger] self.channels@[1].states@[i] == self@.channels[1][i]);
        self.channels[0].reset();
        self.channels[1].reset();
        self.applied_gains = [in_all_bands(Single(ONE)), in_all_bands(Single(ONE))];
        self.frame_counter = 0;
        self.crossfade_remaining = 0;
        assert(self@.applied =~= unity_gains());
        assert(self@ =~= (SuppressorState {
            channels: self@.channels,
            applied: unity_gains(),
            frame_counter: 0,
            crossfade: 0,
            ..old(self)@
        }));
    }

    /// Takes in a pair of samples and gives back a pair.
    ///
    /// Both detectors come before either channel's filters, so that linked
    /// channels can agree on their gains.
    pub fn process_sample<A: Arith>(&mut self, left: Single, right: Single) -> (out: (Single, Single))
        requires
            old(self)@.wf(),
        ensures
            final(self)@.wf(),
            suppressed_of::<A, F>(old(self)@, left, right, final(self)@, out),
    {
        let idx = self.fft_index;
        let params = self.detect_params;
        let linked = self.stereo_linked;
        let oversampling = self.oversampling;
        let ghost s = self@;
        assert(s.channels[0][idx as int].wf(fft_size(idx as int)));
        assert(s.channels[1][idx as int].wf(fft_size(idx as int)));
        let (dry_l, frame_l) = process_channel::<A, F>(
            &mut self.channels[0].states[idx],
            left,
            &params,
        );
        let (dry_r, frame_r) = process_channel::<A, F>(
            &mut self.channels[1].states[idx],
            right,
            &params,
        );
        let ghost mid_l = self.channels@[0].states@[idx as int];
        let ghost mid_r = self.channels@[1].states@[idx as int];
        update_filters::<A>(
            &mut self.channels[0].states[idx].bands,
            &mut self.applied_gains[0],
            &frame_l,
            &frame_l,
            &frame_r,
            linked,
            oversampling,
        );
        update_filters::<A>(
            &mut self.channels[1].states[idx].bands,
            &mut self.applied_gains[1],
            &frame_r,
            &frame_l,
            &frame_r,
            linked,
            oversampling,
        );
        let ghost g_l = self.channels@[0].states@[idx as int].bands@;
        let ghost g_r = self.channels@[1].states@[idx as int].bands@;
        if let Some(f) = frame_l {
            self.push_depth_frame(idx, 0, &f);
        } else if let Some(f) = frame_r {
            self.push_depth_frame(idx, 1, &f);
        }
        let wet_l = filter_sample::<A>(
            &mut self.channels[0].states[idx].bands,
            dry_l,
            &self.applied_gains[0],
            oversampling,
        );
        let wet_r = filter_sample::<A>(
            &mut self.channels[1].states[idx].bands,
            dry_r,
            &self.applied_gains[1],
            oversampling,
        );
        let mixed_l = apply_io::<A>(dry_l, wet_l, self.mix, self.delta_mode);
        let mixed_r = apply_io::<A>(dry_r, wet_r, self.mix, self.delta_mode);
        let out = if self.crossfade_remaining > 0 {
            self.crossfade_remaining = self.crossfade_remaining - 1;
            let share = A::over(A::of_count(self.crossfade_remaining), A::of_count(CROSSFADE_LEN));
            let g = A::minus(Single(ONE), share);
            assert(fade_gain_of::<A>(self.crossfade_remaining, g));
            (A::times(mixed_l, g), A::times(mixed_r, g))
        } else {
            (mixed_l, mixed_r)
        };
        proof {
            let r = self@;
            let new_l = r.channels[0][idx as int];
            let new_r = r.channels[1][idx as int];
            assert(channel_step_of::<A, F>(
                s.channels[0][idx as int],
                left,
                s.params,
                mid_l,
                dry_l,
                frame_l,
            ));
            assert(channel_step_of::<A, F>(
                s.channels[1][idx as int],
                right,
                s.params,
                mid_r,
                dry_r,
                frame_r,
            ));
            assert(filters_updated_of::<A>(
                mid_l.bands@,
                frame_l,
                frame_l,
                frame_r,
                s.stereo_linked,
                s.oversampling,
                g_l,
            ));
            assert(filters_updated_of::<A>(
                mid_r.bands@,
                frame_r,
                frame_l,
                frame_r,
                s.stereo_linked,
                s.oversampling,
                g_r,
            ));
            assert(wet_of::<A>(s.oversampling, g_l, dry_l, new_l.bands@, wet_l));
            assert(wet_of::<A>(s.oversampling, g_r, dry_r, new_r.bands@, wet_r));
            assert(io_of::<A>(dry_l, wet_l, s.mix, s.delta_mode, mixed_l));
            assert(io_of::<A>(dry_r, wet_r, s.mix, s.delta_mode, mixed_r));
            assert(output_of::<A, F>(s, dry_l, wet_l, out.0));
            assert(output_of::<A, F>(s, dry_r, wet_r, out.1));
            assert(reported_of::<F>(s, frame_l, frame_r, mid_l, mid_r, g_l, g_r, r));
            assert(r.channels[0] =~= s.channels[0].update(idx as int, new_l));
            assert(r.channels[1] =~= s.channels[1].update(idx as int, new_r));
            assert(r.channels =~= s.channels.update(
                0,
                s.channels[0].update(idx as int, new_l),
            ).update(1, s.channels[1].update(idx as int, new_r)));
            assert(joined_with::<A, F>(
                s,
                mid_l,
                mid_r,
                dry_l,
                dry_r,
                frame_l,
                frame_r,
                r,
                out,
                (wet_l, wet_r),
            ));
        }
        out
    }

    /// Numbers a frame of channel `ch` and sends the display a report on it.
    fn push_depth_frame(&mut self, idx: usize, ch: usize, source: &ChannelFrame)
        requires
            idx < SIZES,
            ch < 2,
        ensures
            final(self).channels == old(self).channels,
            final(self).fft_index == old(self).fft_index,
            final(self).detect_params == old(self).detect_params,
            final(self).mix == old(self).mix,
            final(self).delta_mode == old(self).delta_mode,
            final(self).stereo_linked == old(self).stereo_linked,
            final(self).oversampling == old(self).oversampling,
            final(self).applied_gains == old(self).applied_gains,
            final(self).sample_rate == old(self).sample_rate,
            final(self).crossfade_remaining == old(self).crossfade_remaining,
            final(self).frame_counter == if old(self).frame_counter == u32::MAX {
                0
            } else {
                old(self).frame_counter + 1
            },
            report_offered::<F>(
                frames_offered(old(self).viz_producer),
                *source,
                old(self).applied_gains@[0]@,
                old(self).channels@[ch as int].states@[idx as int],
                old(self).channels@[ch as int].states@[idx as int].bands@,
                old(self).sample_rate,
                old(self).frame_counter,
                frames_offered(final(self).viz_producer),
            ),
    {
        let frame_idx = self.frame_counter;
        self.frame_counter = if frame_idx == u32::MAX {
            0
        } else {
            frame_idx + 1
        };
        let st = &self.channels[ch].states[idx];
        let f = AnalysisFrame {
            spectrum: source.levels,
            reduction: self.applied_gains[0],
            centers: st.analysis.bands().centers,
            concentration: source.concentration,
            sample_rate: self.sample_rate,
            frame_idx,
            effective_depth: source.debug.effective_depth,
            reduction_db: source.debug.reduction_db,
            target_gain: source.debug.target_gain,
            gain_db: *st.bands.last_gain_db(),
            effective_q: *st.bands.last_effective_q(),
        };
        let _ = push_frame(&mut self.viz_producer, f);
    }
}

// ----- Laws -------------------------------------------------------------------

/// Whether the next pair of samples brings a frame.
pub open spec fn frame_comes<F: Fourier>(s: SuppressorState<F>) -> bool {
    let idx = s.fft_index as int;
    frame_due(fft_size(idx), s.channels[0][idx].analysis.taken() + 1)
}

/// Both channels have their frames at the same samples.
pub proof fn lemma_frames_in_lockstep<A: Arith, F: Fourier>(
    s: SuppressorState<F>,
    left: Single,
    right: Single,
    mid_l: ChannelState<F>,
    mid_r: ChannelState<F>,
    dry_l: Single,
    dry_r: Single,
    frame_l: Option<ChannelFrame>,
    frame_r: Option<ChannelFrame>,
)
    requires
        s.wf(),
        channel_step_of::<A, F>(
            s.channels[0][s.fft_index as int],
            left,
            s.params,
            mid_l,
            dry_l,
            frame_l,
        ),
        channel_step_of::<A, F>(
            s.channels[1][s.fft_index as int],
            right,
            s.params,
            mid_r,
            dry_r,
            frame_r,
        ),
    ensures
        frame_l is Some <==> frame_comes(s),
        frame_r is Some <==> frame_comes(s),
{
    let idx = s.fft_index as int;
    assert(s.channels[0][idx].wf(fft_size(idx)));
    assert(s.channels[1][idx].wf(fft_size(idx)));
    assert(s.channels[0][idx].analysis.taken() == s.channels[1][idx].analysis.taken());
}

/// Linked channels come out of every frame with the same gains.
pub proof fn lemma_linked_channels_agree<A: Arith, F: Fourier>(
    s: SuppressorState<F>,
    left: Single,
    right: Single,
    r: SuppressorState<F>,
    out: (Single, Single),
)
    requires
        s.wf(),
        s.stereo_linked,
        suppressed_of::<A, F>(s, left, right, r, out),
        frame_comes(s) || s.applied[0] == s.applied[1],
    ensures
        r.applied[0] == r.applied[1],
{
    lemma_frame_effects::<A, F>(s, left, right, r, out);
}

/// A frame moves the frame number on by one, and nothing else does. Every frame is
/// offered to the display once, under the number before.
pub proof fn lemma_frames_are_numbered<A: Arith, F: Fourier>(
    s: SuppressorState<F>,
    left: Single,
    right: Single,
    r: SuppressorState<F>,
    out: (Single, Single),
)
    requires
        s.wf(),
        suppressed_of::<A, F>(s, left, right, r, out),
    ensures
        !frame_comes(s) ==> r.frame_counter == s.frame_counter && r.offered == s.offered,
        frame_comes(s) ==> r.frame_counter == if s.frame_counter == u32::MAX {
            0
        } else {
            s.frame_counter + 1
        },
        frame_comes(s) ==> r.offered.len() == s.offered.len() + 1 && r.offered.drop_last() == s.offered
            && r.offered.last().0.frame_idx == s.frame_counter && r.offered.last().0.reduction@
            == r.applied[0],
{
    lemma_frame_effects::<A, F>(s, left, right, r, out);
}

/// Without a frame the gains in force stay.
pub proof fn lemma_gains_stay_between_frames<A: Arith, F: Fourier>(
    s: SuppressorState<F>,
    left: Single,
    right: Single,
    r: SuppressorState<F>,
    out: (Single, Single),
)
    requires
        s.wf(),
        suppressed_of::<A, F>(s, left, right, r, out),
        !frame_comes(s),
    ensures
        r.applied == s.applied,
{
    lemma_frame_effects::<A, F>(s, left, right, r, out);
    assert(r.applied =~= s.applied);
}

proof fn lemma_frame_effects<A: Arith, F: Fourier>(
    s: SuppressorState<F>,
    left: Single,
    right: Single,
    r: SuppressorState<F>,
    out: (Single, Single),
)
    requires
        s.wf(),
        suppressed_of::<A, F>(s, left, right, r, out),
    ensures
        r.applied.len() == 2,
        !frame_comes(s) ==> r.applied[0] == s.applied[0] && r.applied[1] == s.applied[1],
        frame_comes(s) && s.stereo_linked ==> r.applied[0] == r.applied[1],
        !frame_comes(s) ==> r.frame_counter == s.frame_counter && r.offered == s.offered,
        frame_comes(s) ==> r.frame_counter == if s.frame_counter == u32::MAX {
            0
        } else {
            s.frame_counter + 1
        },
        frame_comes(s) ==> r.offered.len() == s.offered.len() + 1 && r.offered.drop_last() == s.offered
            && r.offered.last().0.frame_idx == s.frame_counter && r.offered.last().0.reduction@
            == r.applied[0],
{
    let idx = s.fft_index as int;
    let (mid_l, mid_r, dry_l, dry_r, frame_l, frame_r) = choose|mid_l: ChannelState<F>, mid_r: ChannelState<F>, dry_l: Single, dry_r: Single, frame_l: Option<ChannelFrame>, frame_r: Option<ChannelFrame>|
        {
            &&& #[trigger] channel_step_of::<A, F>(
                s.channels[0][idx],
                left,
                s.params,
                mid_l,
                dry_l,
                frame_l,
            )
            &&& #[trigger] channel_step_of::<A, F>(
                s.channels[1][idx],
                right,
                s.params,
                mid_r,
                dry_r,
                frame_r,
            )
            &&& joined_of::<A, F>(s, mid_l, mid_r, dry_l, dry_r, frame_l, frame_r, r, out)
        };
    lemma_frames_in_lockstep::<A, F>(
        s,
        left,
        right,
        mid_l,
        mid_r,
        dry_l,
        dry_r,
        frame_l,
        frame_r,
    );
    if frame_comes(s) {
        let (f, through) = choose|f: AnalysisFrame, through: bool|
            #[trigger] s.offered.push((f, through)) == r.offered && f.frame_idx == s.frame_counter
                && f.reduction@ == r.applied[0];
        assert(s.offered.push((f, through)).drop_last() =~= s.offered);
    }
}

/// A sample counts a fade down by one; everything else about the setup stays, and
/// so do all window sizes not in use.
pub proof fn lemma_sample_keeps_setup<A: Arith, F: Fourier>(
    s: SuppressorState<F>,
    left: Single,
    right: Single,
    r: SuppressorState<F>,
    out: (Single, Single),
)
    requires
        s.wf(),
        suppressed_of::<A, F>(s, left, right, r, out),
    ensures
        r.crossfade == if s.crossfade > 0 {
            s.crossfade - 1
        } else {
            0
        },
        r.fft_index == s.fft_index,
        r.params == s.params,
        r.mix == s.mix,
        r.delta_mode == s.delta_mode,
        r.stereo_linked == s.stereo_linked,
        r.oversampling == s.oversampling,
        r.sample_rate == s.sample_rate,
        forall|c: int, i: int|
            0 <= c < 2 && 0 <= i < SIZES && i != s.fft_index ==> #[trigger] r.channels[c][i]
                == s.channels[c][i],
{
}

/// One step of a run.
#[verifier::opaque]
pub open spec fn run_step_of<A: Arith, F: Fourier>(
    s: SuppressorState<F>,
    left: Single,
    right: Single,
    r: SuppressorState<F>,
    out: (Single, Single),
) -> bool {
    suppressed_of::<A, F>(s, left, right, r, out)
}

proof fn lemma_run_step<A: Arith, F: Fourier>(
    s: SuppressorState<F>,
    left: Single,
    right: Single,
    r: SuppressorState<F>,
    out: (Single, Single),
)
    requires
        s.wf(),
        run_step_of::<A, F>(s, left, right, r, out),
    ensures
        r.crossfade == if s.crossfade > 0 {
            s.crossfade - 1
        } else {
            0
        },
        r.fft_index == s.fft_index,
        r.params == s.params,
        r.mix == s.mix,
        r.delta_mode == s.delta_mode,
        r.stereo_linked == s.stereo_linked,
        r.oversampling == s.oversampling,
        r.sample_rate == s.sample_rate,
        r.channels[0][s.fft_index as int].delay@
            == s.channels[0][s.fft_index as int].delay@.drop_first().push(left),
        r.channels[1][s.fft_index as int].delay@
            == s.channels[1][s.fft_index as int].delay@.drop_first().push(right),
{
    reveal(run_step_of);
    lemma_sample_keeps_setup::<A, F>(s, left, right, r, out);
    lemma_delays_are_fed::<A, F>(s, left, right, r, out);
}

/// Samples take the suppressor from each state to the next.
pub open spec fn run_of<A: Arith, F: Fourier>(
    states: Seq<SuppressorState<F>>,
    lefts: Seq<Single>,
    rights: Seq<Single>,
    outs: Seq<(Single, Single)>,
) -> bool {
    &&& states.len() == lefts.len() + 1
    &&& rights.len() == lefts.len()
    &&& outs.len() == lefts.len()
    &&& forall|k: int| 0 <= k < states.len() ==> (#[trigger] states[k]).wf()
    &&& forall|k: int|
        0 <= k < lefts.len() ==> run_step_of::<A, F>(
            #[trigger] states[k],
            lefts[k],
            rights[k],
            states[k + 1],
            outs[k],
        )
}

/// Any fade is over after [`CROSSFADE_LEN`] samples.
pub proof fn lemma_fade_finishes<A: Arith, F: Fourier>(
    states: Seq<SuppressorState<F>>,
    lefts: Seq<Single>,
    rights: Seq<Single>,
    outs: Seq<(Single, Single)>,
)
    requires
        run_of::<A, F>(states, lefts, rights, outs),
        lefts.len() >= CROSSFADE_LEN,
    ensures
        states.last().crossfade == 0,
{
    lemma_run_keeps_setup::<A, F>(states, lefts, rights, outs, lefts.len() as int);
}

/// A run counts a fade down and leaves the setup alone.
pub proof fn lemma_run_keeps_setup<A: Arith, F: Fourier>(
    states: Seq<SuppressorState<F>>,
    lefts: Seq<Single>,
    rights: Seq<Single>,
    outs: Seq<(Single, Single)>,
    k: int,
)
    requires
        run_of::<A, F>(states, lefts, rights, outs),
        0 <= k <= lefts.len(),
    ensures
        states[k].crossfade == if states[0].crossfade > k {
            states[0].crossfade - k
        } else {
            0
        },
        states[k].fft_index == states[0].fft_index,
        states[k].params == states[0].params,
        states[k].mix == states[0].mix,
        states[k].delta_mode == states[0].delta_mode,
        states[k].stereo_linked == states[0].stereo_linked,
        states[k].oversampling == states[0].oversampling,
        states[k].sample_rate == states[0].sample_rate,
    decreases k,
{
    assert(states[0].wf());
    if k > 0 {
        lemma_run_keeps_setup::<A, F>(states, lefts, rights, outs, k - 1);
        lemma_run_step::<A, F>(
            states[k - 1],
            lefts[k - 1],
            rights[k - 1],
            states[k],
            outs[k - 1],
        );
    }
}

/// Each channel's delay takes in the sample and gives up its oldest one.
pub proof fn lemma_delays_are_fed<A: Arith, F: Fourier>(
    s: SuppressorState<F>,
    left: Single,
    right: Single,
    r: SuppressorState<F>,
    out: (Single, Single),
)
    requires
        s.wf(),
        suppressed_of::<A, F>(s, left, right, r, out),
    ensures
        r.channels[0][s.fft_index as int].delay@
            == s.channels[0][s.fft_index as int].delay@.drop_first().push(left),
        r.channels[1][s.fft_index as int].delay@
            == s.channels[1][s.fft_index as int].delay@.drop_first().push(right),
{
}

/// What leaves a channel's delay at sample `k` is what it held at first, and then
/// what it was fed.
pub proof fn lemma_delay_contents<A: Arith, F: Fourier>(
    states: Seq<SuppressorState<F>>,
    lefts: Seq<Single>,
    rights: Seq<Single>,
    outs: Seq<(Single, Single)>,
    k: int,
)
    requires
        run_of::<A, F>(states, lefts, rights, outs),
        0 <= k < lefts.len(),
    ensures
        ({
            let idx = states[0].fft_index as int;
            &&& states[k].fft_index == idx
            &&& states[k].channels[0][idx].delay@[0] == if k < fft_size(idx) {
                states[0].channels[0][idx].delay@[k]
            } else {
                lefts[k - fft_size(idx)]
            }
            &&& states[k].channels[1][idx].delay@[0] == if k < fft_size(idx) {
                states[0].channels[1][idx].delay@[k]
            } else {
                rights[k - fft_size(idx)]
            }
        }),
{
    let idx = states[0].fft_index as int;
    assert(states[0].wf());
    assert(states[0].channels[0][idx].wf(fft_size(idx)));
    assert(states[0].channels[1][idx].wf(fft_size(idx)));
    lemma_run_keeps_setup::<A, F>(states, lefts, rights, outs, k);
    let lines_l = Seq::new(states.len(), |j: int| states[j].channels[0][idx].delay@);
    let lines_r = Seq::new(states.len(), |j: int| states[j].channels[1][idx].delay@);
    let outs_l = Seq::new(lefts.len(), |j: int| lines_l[j][0]);
    let outs_r = Seq::new(lefts.len(), |j: int| lines_r[j][0]);
    assert forall|j: int| 0 <= j < lefts.len() implies lines_l[j + 1]
        == lines_l[j].drop_first().push(lefts[j]) && lines_r[j + 1]
        == lines_r[j].drop_first().push(rights[j]) by {
        lemma_run_keeps_setup::<A, F>(states, lefts, rights, outs, j);
        lemma_run_step::<A, F>(states[j], lefts[j], rights[j], states[j + 1], outs[j]);
    }
    crate::dsp::delay::lemma_exact_delay(lines_l, lefts, outs_l, k);
    crate::dsp::delay::lemma_exact_delay(lines_r, rights, outs_r, k);
}

/// The sample that leaves a channel's delay is the one that entered exactly as
/// many samples before as the latency says.
pub proof fn lemma_latency_is_exact<A: Arith, F: Fourier>(
    states: Seq<SuppressorState<F>>,
    lefts: Seq<Single>,
    rights: Seq<Single>,
    outs: Seq<(Single, Single)>,
    k: int,
)
    requires
        run_of::<A, F>(states, lefts, rights, outs),
        fft_size(states[0].fft_index as int) <= k < lefts.len(),
    ensures
        ({
            let idx = states[0].fft_index as int;
            &&& states[k].fft_index == idx
            &&& states[k].channels[0][idx].delay@[0] == lefts[k - fft_size(idx)]
            &&& states[k].channels[1][idx].delay@[0] == rights[k - fft_size(idx)]
        }),
{
    lemma_delay_contents::<A, F>(states, lefts, rights, outs, k);
}

/// The latency is the length of the window and of the delay.
pub proof fn lemma_latency_is_window<F: Fourier>(s: SuppressorState<F>, c: int)
    requires
        s.wf(),
        0 <= c < 2,
    ensures
        s.channels[c][s.fft_index as int].delay@.len() == fft_size(s.fft_index as int),
        s.channels[c][s.fft_index as int].analysis.size() == fft_size(s.fft_index as int),
{
    assert(s.channels[c][s.fft_index as int].wf(fft_size(s.fft_index as int)));
}

/// A number held between 0 and 1 lies there.
proof fn lemma_held_to_one(x: Single)
    requires
        !x.nan(),
    ensures
        Single(ZERO).at_most(x.held(Single(ZERO), Single(ONE))),
        x.held(Single(ZERO), Single(ONE)).at_most(Single(ONE)),
{
    lemma_magnitude_orders(Single(ZERO), Single(ONE));
    lemma_held_between(x, Single(ZERO), Single(ONE));
}

/// Whatever parameters are asked for, the detector's lie in their ranges.
pub proof fn lemma_params_in_range(p: DspParams)
    ensures
        !p.depth.nan() ==> Single(ZERO).at_most(p.for_detector().depth)
            && p.for_detector().depth.at_most(Single(ONE)),
        !p.sharpness.nan() ==> Single(ZERO).at_most(p.for_detector().sharpness)
            && p.for_detector().sharpness.at_most(Single(ONE)),
        !p.selectivity.nan() ==> Single(ZERO).at_most(p.for_detector().selectivity)
            && p.for_detector().selectivity.at_most(Single(ONE)),
        Single(TENTH).at_most(p.for_detector().attack_ms),
        Single(ONE).at_most(p.for_detector().release_ms),
{
    if !p.depth.nan() {
        lemma_held_to_one(p.depth);
    }
    if !p.sharpness.nan() {
        lemma_held_to_one(p.sharpness);
    }
    if !p.selectivity.nan() {
        lemma_held_to_one(p.selectivity);
    }
    lemma_larger_is_at_least(p.attack_ms, Single(TENTH));
    lemma_larger_is_at_least(p.release_ms, Single(ONE));
}

proof fn lemma_larger_is_at_least(x: Single, least: Single)
    requires
        !least.nan(),
    ensures
        least.at_most(x.larger(least)),
{
}

/// Both channels get the lower gain, so neither is louder than its own gain.
pub proof fn lemma_lower_gains(a: Seq<Single>, b: Seq<Single>, i: int)
    requires
        0 <= i < BANDS,
        !a[i].nan(),
        !b[i].nan(),
    ensures
        lower_gains(a, b)[i].at_most(a[i]),
        lower_gains(a, b)[i].at_most(b[i]),
        lower_gains(a, b)[i] == a[i] || lower_gains(a, b)[i] == b[i],
{
}

} // verus!
