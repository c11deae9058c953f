//! From samples to band levels: overlapping windows, their spectra, and what
//! every band of a spectrum amounts to.
//!
//! Once the first window is full, a frame comes out every half window.

use vstd::prelude::*;
use vstd::arithmetic::div_mod::{lemma_fundamental_div_mod, lemma_fundamental_div_mod_converse};
use crate::arith::{
    cos_of, count_of, log10_of, minus_of, over_of, plus_of, sqrt_of, times_of, Arith,
};
use crate::dsp::bands::{compute_band_layout, layout_of, BandLayout};
use crate::dsp::delay::{silence, DelayLine};
use crate::dsp::BANDS;
use crate::numbers::{HALF, ONE, ONE_BILLIONTH, TWENTY, TWO_PI, ZERO};
use crate::single::Single;

verus! {

/// Peak over average in dB that counts as evenly spread, `2`.
pub const PAR_LOW_DB: u32 = 0x4000_0000;
/// Peak over average in dB that counts as a single tone, `9`.
pub const PAR_HIGH_DB: u32 = 0x4110_0000;

/// What one frame says of every band.
#[derive(Clone, Copy)]
pub struct BandAnalysis {
    /// Levels in dB.
    pub levels: [Single; BANDS],
    /// How much each band is dominated by a single bin, from 0 to 1. It
    /// sharpens filters and never decides what is detected.
    pub concentration: [Single; BANDS],
}

/// A snapshot of the signal path for the display.
#[derive(Clone, Copy)]
pub struct AnalysisFrame {
    /// Level of every band in dB.
    pub spectrum: [Single; BANDS],
    /// Linear gain applied to every band.
    pub reduction: [Single; BANDS],
    /// Center of every band in Hz.
    pub centers: [Single; BANDS],
    /// Concentration of every band.
    pub concentration: [Single; BANDS],
    pub sample_rate: Single,
    /// Running number of the frame.
    pub frame_idx: u32,
    /// Global depth times the depth that the nodes give to every band.
    pub effective_depth: [Single; BANDS],
    /// Reduction of every band in dB.
    pub reduction_db: [Single; BANDS],
    /// Linear gain that every band is headed for.
    pub target_gain: [Single; BANDS],
    /// Gain of every filter in dB.
    pub gain_db: [Single; BANDS],
    /// Quality of every filter.
    pub effective_q: [Single; BANDS],
}

// ----- The transform ----------------------------------------------------------

/// One bin of a spectrum.
#[derive(Clone, Copy, PartialEq, Eq, Structural, Debug)]
pub struct Bin {
    pub re: Single,
    pub im: Single,
}

/// A Fourier transform of real samples. The library asks for spectra and relies
/// on nothing about them.
pub trait Fourier: Sized {
    /// Prepares for windows of `size` samples.
    fn plan(size: usize) -> Self;

    /// The bins of a window from 0 to Nyquist, in the storage of `out`.
    fn forward(&self, input: &Vec<Single>, out: Vec<Bin>) -> Vec<Bin>;
}

/// `plan` is a transform of `size` samples.
pub open spec fn plan_of<F: Fourier>(size: usize, plan: F) -> bool {
    call_ensures(F::plan, (size,), plan)
}

/// Silence in all of `n` bins.
pub open spec fn silent_bins(n: nat) -> Seq<Bin> {
    Seq::new(n, |k: int| Bin { re: Single(ZERO), im: Single(ZERO) })
}

/// `bins` is the spectrum of `input`, computed into the storage that held
/// `prior`. An answer of the wrong length counts as silence.
pub open spec fn spectrum_of<F: Fourier>(
    plan: F,
    input: Seq<Single>,
    prior: Seq<Bin>,
    bins: Seq<Bin>,
) -> bool {
    exists|i: Vec<Single>, p: Vec<Bin>, r: Vec<Bin>|
        {
            &&& #[trigger] call_ensures(F::forward, (&plan, &i, p), r)
            &&& i@ == input
            &&& p@ == prior
            &&& bins == if r@.len() == bin_count(input.len()) {
                r@
            } else {
                silent_bins(bin_count(input.len()))
            }
        }
}

/// Bins from 0 to Nyquist.
pub open spec fn bin_count(size: nat) -> nat {
    size / 2 + 1
}

fn make_silent_bins(n: usize) -> (r: Vec<Bin>)
    ensures
        r@ == silent_bins(n as nat),
{
    let mut r: Vec<Bin> = Vec::with_capacity(n);
    for k in 0..n
        invariant
            r@ == silent_bins(k as nat),
    {
        r.push(Bin { re: Single(ZERO), im: Single(ZERO) });
        assert(r@ =~= silent_bins((k + 1) as nat));
    }
    r
}

// ----- The window -------------------------------------------------------------

/// `r` is weight `i` of a Hann window of `n` samples. The window is periodic: one
/// turn of the cosine takes `n` samples, so windows half their length apart add up
/// to the same everywhere.
pub open spec fn hann_of<A: Arith>(n: usize, i: usize, r: Single) -> bool {
    exists|at: Single, turn: Single, len: Single, angle: Single, c: Single, rest: Single|
        {
            &&& #[trigger] count_of::<A>(i, at)
            &&& #[trigger] times_of::<A>(Single(TWO_PI), at, turn)
            &&& #[trigger] count_of::<A>(n, len)
            &&& #[trigger] over_of::<A>(turn, len, angle)
            &&& #[trigger] cos_of::<A>(angle, c)
            &&& #[trigger] minus_of::<A>(Single(ONE), c, rest)
            &&& times_of::<A>(Single(HALF), rest, r)
        }
}

/// `w` is a Hann window of `n` samples; one of a single sample is silent.
pub open spec fn hann_window_of<A: Arith>(n: usize, w: Seq<Single>) -> bool {
    &&& w.len() == n
    &&& n <= 1 ==> w == silence(n as nat)
    &&& n > 1 ==> forall|i: int| 0 <= i < n ==> hann_of::<A>(n, i as usize, #[trigger] w[i])
}

/// A Hann window of `n` samples.
pub fn make_hann<A: Arith>(n: usize) -> (w: Vec<Single>)
    ensures
        hann_window_of::<A>(n, w@),
{
    let mut w: Vec<Single> = Vec::with_capacity(n);
    for i in 0..n
        invariant
            w@.len() == i,
            n <= 1 ==> w@ == silence(i as nat),
            n > 1 ==> forall|m: int|
                0 <= m < i ==> hann_of::<A>(n, m as usize, #[trigger] w@[m]),
    {
        let weight = if n <= 1 {
            Single(ZERO)
        } else {
            let turn = A::times(Single(TWO_PI), A::of_count(i));
            let c = A::cos(A::over(turn, A::of_count(n)));
            A::times(Single(HALF), A::minus(Single(ONE), c))
        };
        w.push(weight);
        assert(n <= 1 ==> w@ =~= silence((i + 1) as nat));
    }
    w
}

/// `input` is `history` under the window.
pub open spec fn windowed_of<A: Arith>(history: Seq<Single>, window: Seq<Single>, input: Seq<Single>) -> bool {
    &&& input.len() == history.len()
    &&& forall|i: int|
        0 <= i < history.len() ==> times_of::<A>(history[i], window[i], #[trigger] input[i])
}

// ----- Bands of a spectrum ----------------------------------------------------

/// `m` is the magnitude of a bin.
pub open spec fn magnitude_of<A: Arith>(c: Bin, m: Single) -> bool {
    exists|a: Single, b: Single, s: Single|
        {
            &&& #[trigger] times_of::<A>(c.re, c.re, a)
            &&& #[trigger] times_of::<A>(c.im, c.im, b)
            &&& #[trigger] plus_of::<A>(a, b, s)
            &&& sqrt_of::<A>(s, m)
        }
}

fn magnitude<A: Arith>(c: Bin) -> (m: Single)
    ensures
        magnitude_of::<A>(c, m),
{
    A::sqrt(A::plus(A::times(c.re, c.re), A::times(c.im, c.im)))
}

/// The largest of the magnitudes, from zero up.
pub open spec fn loudest(mags: Seq<Single>) -> Single
    decreases mags.len(),
{
    if mags.len() == 0 {
        Single(ZERO)
    } else if loudest(mags.drop_last()).below(mags.last()) {
        mags.last()
    } else {
        loudest(mags.drop_last())
    }
}

/// `mags` are the magnitudes of the bins from `lo` on, and `sums` their running
/// sums.
pub open spec fn magnitudes_of<A: Arith>(
    bins: Seq<Bin>,
    lo: int,
    mags: Seq<Single>,
    sums: Seq<Single>,
) -> bool {
    &&& sums.len() == mags.len() + 1
    &&& sums[0] == Single(ZERO)
    &&& forall|k: int|
        0 <= k < mags.len() ==> #[trigger] magnitude_of::<A>(bins[lo + k], mags[k]) && plus_of::<A>(
            sums[k],
            mags[k],
            sums[k + 1],
        )
}

/// Sum and peak of the magnitudes from bin `lo` to bin `hi`.
fn sum_and_peak<A: Arith>(bins: &Vec<Bin>, lo: usize, hi: usize) -> (r: (Single, Single))
    requires
        lo <= hi < bins@.len(),
    ensures
        exists|mags: Seq<Single>, sums: Seq<Single>|
            {
                &&& #[trigger] magnitudes_of::<A>(bins@, lo as int, mags, sums)
                &&& mags.len() == hi - lo + 1
                &&& r.0 == sums.last()
                &&& r.1 == loudest(mags)
            },
{
    let mut sum = Single(ZERO);
    let mut peak = Single(ZERO);
    let ghost mut mags: Seq<Single> = seq![];
    let ghost mut sums = seq![sum];
    let n: usize = bins.len();
    let mut k: usize = lo;
    while k <= hi
        invariant
            lo <= k <= hi + 1,
            hi < n,
            n == bins@.len(),
            mags.len() == k - lo,
            magnitudes_of::<A>(bins@, lo as int, mags, sums),
            sum == sums.last(),
            peak == loudest(mags),
        decreases hi + 1 - k,
    {
        let mag = magnitude::<A>(bins[k]);
        sum = A::plus(sum, mag);
        if peak.lt(mag) {
            peak = mag;
        }
        proof {
            let mags2 = mags.push(mag);
            let sums2 = sums.push(sum);
            assert(mags2.drop_last() =~= mags);
            assert forall|j: int| 0 <= j < mags2.len() implies #[trigger] magnitude_of::<A>(
                bins@[lo + j],
                mags2[j],
            ) && plus_of::<A>(sums2[j], mags2[j], sums2[j + 1]) by {
                if j < mags.len() {
                    assert(magnitude_of::<A>(bins@[lo + j], mags[j]));
                }
            }
            mags = mags2;
            sums = sums2;
        }
        k = k + 1;
    }
    (sum, peak)
}

/// `r` is `20 * log10` of `x`.
pub open spec fn decibels_of<A: Arith>(x: Single, r: Single) -> bool {
    exists|log: Single| #[trigger]
        log10_of::<A>(x, log) && times_of::<A>(Single(TWENTY), log, r)
}

fn decibels<A: Arith>(x: Single) -> (r: Single)
    ensures
        decibels_of::<A>(x, r),
{
    A::times(Single(TWENTY), A::log10(x))
}

/// `level` and `concentration` describe a band of `n` bins with this sum and peak.
pub open spec fn described_of<A: Arith>(
    sum: Single,
    peak: Single,
    n: usize,
    level: Single,
    concentration: Single,
) -> bool {
    exists|count: Single, mean: Single, floor: Single, top: Single, ratio: Single, par: Single, over: Single, span: Single, raw: Single|
        {
            &&& #[trigger] count_of::<A>(n, count)
            &&& #[trigger] over_of::<A>(sum, count, mean)
            &&& #[trigger] plus_of::<A>(mean, Single(ONE_BILLIONTH), floor)
            &&& #[trigger] plus_of::<A>(peak, Single(ONE_BILLIONTH), top)
            &&& decibels_of::<A>(floor, level)
            &&& #[trigger] over_of::<A>(top, floor, ratio)
            &&& #[trigger] decibels_of::<A>(ratio, par)
            &&& #[trigger] minus_of::<A>(par, Single(PAR_LOW_DB), over)
            &&& #[trigger] minus_of::<A>(Single(PAR_HIGH_DB), Single(PAR_LOW_DB), span)
            &&& #[trigger] over_of::<A>(over, span, raw)
            &&& concentration == raw.held(Single(ZERO), Single(ONE))
        }
}

fn described<A: Arith>(sum: Single, peak: Single, n: usize) -> (r: (Single, Single))
    ensures
        described_of::<A>(sum, peak, n, r.0, r.1),
{
    let mean = A::over(sum, A::of_count(n));
    let floor = A::plus(mean, Single(ONE_BILLIONTH));
    let top = A::plus(peak, Single(ONE_BILLIONTH));
    let level = decibels::<A>(floor);
    let par = decibels::<A>(A::over(top, floor));
    let span = A::minus(Single(PAR_HIGH_DB), Single(PAR_LOW_DB));
    let raw = A::over(A::minus(par, Single(PAR_LOW_DB)), span);
    (level, raw.clamp(Single(ZERO), Single(ONE)))
}

/// Last bin of a band: `hi`, or the last bin there is.
pub open spec fn last_bin(hi: int, n_bins: int) -> int {
    if hi < n_bins {
        hi
    } else {
        n_bins - 1
    }
}

/// `level` and `concentration` describe the bins of band `b`.
pub open spec fn band_described_of<A: Arith>(
    bins: Seq<Bin>,
    layout: BandLayout,
    b: int,
    level: Single,
    concentration: Single,
) -> bool {
    let lo = layout.bin_lo@[b] as int;
    let hi = last_bin(layout.bin_hi@[b] as int, bins.len() as int);
    exists|mags: Seq<Single>, sums: Seq<Single>|
        {
            &&& #[trigger] magnitudes_of::<A>(bins, lo, mags, sums)
            &&& mags.len() == hi - lo + 1
            &&& described_of::<A>(
                sums.last(),
                loudest(mags),
                (hi - lo + 1) as usize,
                level,
                concentration,
            )
        }
}

/// `a` describes every band of the spectrum `bins`.
pub open spec fn analysis_of<A: Arith>(bins: Seq<Bin>, layout: BandLayout, a: BandAnalysis) -> bool {
    forall|b: int|
        #![trigger a.levels@[b]]
        #![trigger a.concentration@[b]]
        0 <= b < BANDS ==> band_described_of::<A>(
            bins,
            layout,
            b,
            a.levels@[b],
            a.concentration@[b],
        )
}

/// Describes every band of a spectrum.
pub fn describe_bands<A: Arith>(bins: &Vec<Bin>, layout: &BandLayout, fft_size: usize) -> (a: BandAnalysis)
    requires
        layout.fits(fft_size as nat),
        bins@.len() == bin_count(fft_size as nat),
    ensures
        analysis_of::<A>(bins@, *layout, a),
{
    let mut a = BandAnalysis {
        levels: [Single(ZERO); BANDS],
        concentration: [Single(ZERO); BANDS],
    };
    for b in 0..BANDS
        invariant
            layout.fits(fft_size as nat),
            bins@.len() == bin_count(fft_size as nat),
            forall|m: int|
                #![trigger a.levels@[m]]
                #![trigger a.concentration@[m]]
                0 <= m < b ==> band_described_of::<A>(
                    bins@,
                    *layout,
                    m,
                    a.levels@[m],
                    a.concentration@[m],
                ),
    {
        let lo = layout.bin_lo[b];
        let top = layout.bin_hi[b];
        assert(layout.bin_lo@[b as int] < layout.bin_hi@[b as int]);
        let hi: usize = if top < bins.len() {
            top
        } else {
            bins.len() - 1
        };
        let (sum, peak) = sum_and_peak::<A>(bins, lo, hi);
        let (level, concentration) = described::<A>(sum, peak, hi - lo + 1);
        a.levels[b] = level;
        a.concentration[b] = concentration;
        assert(band_described_of::<A>(bins@, *layout, b as int, level, concentration));
    }
    a
}

// ----- The engine -------------------------------------------------------------

/// Samples from one frame to the next: half a window.
pub open spec fn hop_of(size: nat) -> nat {
    if size / 2 == 0 {
        1
    } else {
        size / 2
    }
}

/// Whether a frame comes out with the sample that makes it `samples` in all: the
/// first one when a window is full, and then one every hop.
pub open spec fn frame_due(size: nat, samples: nat) -> bool {
    samples >= size && (samples - size) % (hop_of(size) as int) == 0
}

/// Samples still missing for the next frame after `samples` in all.
pub open spec fn samples_to_frame(size: nat, samples: nat) -> int {
    if samples < size {
        size - samples
    } else {
        hop_of(size) - (samples - size) % (hop_of(size) as int)
    }
}

proof fn lemma_wait(size: nat, samples: nat)
    requires
        size > 0,
    ensures
        samples_to_frame(size, samples) >= 1,
        frame_due(size, samples + 1) <==> samples_to_frame(size, samples) == 1,
        samples_to_frame(size, samples + 1) == if frame_due(size, samples + 1) {
            hop_of(size) as int
        } else {
            samples_to_frame(size, samples) - 1
        },
{
    let h = hop_of(size) as int;
    if samples >= size {
        let a = samples - size;
        lemma_fundamental_div_mod(a, h);
        if a % h + 1 < h {
            lemma_fundamental_div_mod_converse(a + 1, h, a / h, a % h + 1);
        } else {
            assert(h * (a / h) + h == h * (a / h + 1)) by (nonlinear_arith);
            lemma_fundamental_div_mod_converse(a + 1, h, a / h + 1, 0);
        }
    } else if samples + 1 == size {
        assert(0int % h == 0);
    }
}

/// Analyses a stream of samples in windows of one size.
pub struct AnalysisEngine<F: Fourier> {
    fft_size: usize,
    hop: usize,
    plan: F,
    window: Vec<Single>,
    /// The last window of samples.
    history: DelayLine,
    input: Vec<Single>,
    spectrum: Vec<Bin>,
    /// Samples still missing for the next frame.
    wait: usize,
    /// Samples taken in so far.
    samples: Ghost<nat>,
    bands: BandLayout,
}

impl<F: Fourier> AnalysisEngine<F> {
    /// Samples in a window.
    pub closed spec fn size(&self) -> nat {
        self.fft_size as nat
    }

    /// The transform in use.
    pub closed spec fn transform(&self) -> F {
        self.plan
    }

    /// The weights of a window.
    pub closed spec fn weights(&self) -> Seq<Single> {
        self.window@
    }

    /// The last window of samples, the oldest first.
    pub closed spec fn recent(&self) -> Seq<Single> {
        self.history@
    }

    /// The spectrum of the last frame.
    pub closed spec fn bins(&self) -> Seq<Bin> {
        self.spectrum@
    }

    /// Samples taken in so far.
    pub closed spec fn taken(&self) -> nat {
        self.samples@
    }

    /// The bands that frames are told in.
    pub closed spec fn layout(&self) -> BandLayout {
        self.bands
    }

    /// All buffers have the size of a window, and the next frame comes when it is
    /// due.
    pub closed spec fn wf(&self) -> bool {
        &&& plan_of::<F>(self.fft_size, self.plan)
        &&& self.hop == hop_of(self.fft_size as nat)
        &&& self.window@.len() == self.fft_size
        &&& self.input@.len() == self.fft_size
        &&& self.spectrum@.len() == bin_count(self.fft_size as nat)
        &&& self.history.wf()
        &&& self.bands.fits(self.fft_size as nat)
        &&& self.fft_size > 0 ==> self.history@.len() == self.fft_size
        &&& self.fft_size > 0 ==> self.wait == samples_to_frame(self.fft_size as nat, self.samples@)
    }

    /// What stays the same for as long as the engine lives.
    pub open spec fn same_setup(&self, other: &Self) -> bool {
        &&& self.size() == other.size()
        &&& self.transform() == other.transform()
        &&& self.weights() == other.weights()
        &&& self.layout() == other.layout()
    }

    /// No sample has been taken in yet.
    pub open spec fn at_rest(&self) -> bool {
        &&& self.taken() == 0
        &&& self.size() > 0 ==> self.recent() == silence(self.size())
    }

    /// An engine for windows of `fft_size` samples.
    pub fn new<A: Arith>(fft_size: usize, sample_rate: Single) -> (e: Self)
        ensures
            e.wf(),
            e.at_rest(),
            e.size() == fft_size,
            plan_of::<F>(fft_size, e.transform()),
            hann_window_of::<A>(fft_size, e.weights()),
            layout_of::<A>(fft_size, sample_rate, e.layout()),
            e.bins() == silent_bins(bin_count(fft_size as nat)),
    {
        let hop: usize = if fft_size / 2 == 0 {
            1
        } else {
            fft_size / 2
        };
        let mut input: Vec<Single> = Vec::with_capacity(fft_size);
        for i in 0..fft_size
            invariant
                input@.len() == i,
        {
            input.push(Single(ZERO));
        }
        AnalysisEngine {
            fft_size,
            hop,
            plan: F::plan(fft_size),
            window: make_hann::<A>(fft_size),
            history: DelayLine::new(fft_size),
            input,
            spectrum: make_silent_bins(fft_size / 2 + 1),
            wait: fft_size,
            samples: Ghost(0),
            bands: compute_band_layout::<A>(fft_size, sample_rate),
        }
    }

    /// The bands that frames are told in.
    pub fn bands(&self) -> (r: &BandLayout)
        ensures
            *r == self.layout(),
    {
        &self.bands
    }

    /// Samples from one frame to the next.
    pub fn hop(&self) -> (r: usize)
        requires
            self.wf(),
        ensures
            r == hop_of(self.size()),
    {
        self.hop
    }

    /// A sample takes the engine from `before` to `self`, with `r` as its result.
    pub open spec fn takes<A: Arith>(&self, before: &Self, x: Single, r: Option<BandAnalysis>) -> bool {
        &&& self.same_setup(before)
        &&& self.taken() == before.taken() + 1
        &&& self.recent() == before.recent().drop_first().push(x)
        &&& r is Some <==> frame_due(self.size(), self.taken())
        &&& r is None ==> self.bins() == before.bins()
        &&& r matches Some(a) ==> {
            &&& exists|input: Seq<Single>| #[trigger]
                windowed_of::<A>(self.recent(), self.weights(), input) && spectrum_of::<F>(
                    self.transform(),
                    input,
                    before.bins(),
                    self.bins(),
                )
            &&& analysis_of::<A>(self.bins(), self.layout(), a)
        }
    }

    /// Takes in one sample. A frame comes out when one is due.
    pub fn process_sample<A: Arith>(&mut self, x: Single) -> (r: Option<BandAnalysis>)
        requires
            old(self).wf(),
            old(self).size() > 0,
        ensures
            final(self).wf(),
            final(self).takes::<A>(&*old(self), x, r),
    {
        proof {
            lemma_wait(self.fft_size as nat, self.samples@);
        }
        let _ = self.history.push_pop(x);
        self.wait = self.wait - 1;
        self.samples = Ghost((self.samples@ + 1) as nat);
        if self.wait > 0 {
            return None;
        }
        self.wait = self.hop;
        self.apply_window::<A>();
        self.transform_input();
        Some(describe_bands::<A>(&self.spectrum, &self.bands, self.fft_size))
    }

    /// Puts the last window of samples under its weights.
    fn apply_window<A: Arith>(&mut self)
        requires
            old(self).wf(),
            old(self).size() > 0,
        ensures
            final(self).wf(),
            final(self).same_setup(&*old(self)),
            final(self).taken() == old(self).taken(),
            final(self).recent() == old(self).recent(),
            final(self).bins() == old(self).bins(),
            windowed_of::<A>(old(self).recent(), old(self).weights(), final(self).input@),
    {
        let n: usize = self.fft_size;
        for i in 0..n
            invariant
                self.wf(),
                n == self.fft_size,
                n > 0,
                self.same_setup(&*old(self)),
                self.fft_size == old(self).fft_size,
                self.samples == old(self).samples,
                self.history == old(self).history,
                self.spectrum == old(self).spectrum,
                forall|m: int|
                    0 <= m < i ==> times_of::<A>(
                        self.history@[m],
                        self.window@[m],
                        #[trigger] self.input@[m],
                    ),
        {
            let weighted = A::times(self.history.get(i), self.window[i]);
            self.input.set(i, weighted);
        }
    }

    /// Replaces the spectrum by that of the weighted window.
    fn transform_input(&mut self)
        requires
            old(self).wf(),
        ensures
            final(self).wf(),
            final(self).same_setup(&*old(self)),
            final(self).taken() == old(self).taken(),
            final(self).recent() == old(self).recent(),
            spectrum_of::<F>(
                old(self).transform(),
                old(self).input@,
                old(self).bins(),
                final(self).bins(),
            ),
    {
        let mut prior: Vec<Bin> = Vec::new();
        std::mem::swap(&mut prior, &mut self.spectrum);
        let r = F::forward(&self.plan, &self.input, prior);
        assert(call_ensures(F::forward, (&self.plan, &self.input, prior), r));
        let n: usize = self.fft_size / 2 + 1;
        self.spectrum = if r.len() == n {
            r
        } else {
            make_silent_bins(n)
        };
    }

    /// Forgets all samples.
    pub fn reset(&mut self)
        requires
            old(self).wf(),
        ensures
            final(self).wf(),
            final(self).same_setup(&*old(self)),
            final(self).at_rest(),
            final(self).bins() == old(self).bins(),
    {
        self.history.reset();
        self.wait = self.fft_size;
        self.samples = Ghost(0);
    }
}

// ----- Laws -------------------------------------------------------------------

/// The first frame comes when the first window is full.
pub proof fn lemma_first_frame(size: nat, samples: nat)
    requires
        size > 0,
        samples <= size,
    ensures
        frame_due(size, samples) <==> samples == size,
{
    assert(0int % (hop_of(size) as int) == 0);
}

/// After a frame the next one comes exactly one hop later.
pub proof fn lemma_frame_every_hop(size: nat, samples: nat, more: nat)
    requires
        size > 0,
        frame_due(size, samples),
        0 < more <= hop_of(size),
    ensures
        frame_due(size, samples + more) <==> more == hop_of(size),
{
    let h = hop_of(size) as int;
    let a = samples - size;
    lemma_fundamental_div_mod(a, h);
    if more < h {
        lemma_fundamental_div_mod_converse(a + more, h, a / h, more as int);
    } else {
        assert(h * (a / h) + h == h * (a / h + 1)) by (nonlinear_arith);
        lemma_fundamental_div_mod_converse(a + more, h, a / h + 1, 0);
    }
}

/// Concentrations lie between 0 and 1.
pub proof fn lemma_concentration_bounds<A: Arith>(
    bins: Seq<Bin>,
    layout: BandLayout,
    a: BandAnalysis,
    b: int,
)
    requires
        analysis_of::<A>(bins, layout, a),
        0 <= b < BANDS,
        !a.concentration@[b].nan(),
    ensures
        Single(ZERO).at_most(a.concentration@[b]),
        a.concentration@[b].at_most(Single(ONE)),
{
    assert(band_described_of::<A>(bins, layout, b, a.levels@[b], a.concentration@[b]));
    crate::single::lemma_magnitude_orders(Single(ZERO), Single(ONE));
}

/// The loudest magnitude is one of them, or zero, and none is above it.
pub proof fn lemma_loudest(mags: Seq<Single>)
    ensures
        loudest(mags) == Single(ZERO) || mags.contains(loudest(mags)),
        !loudest(mags).nan(),
        forall|k: int| 0 <= k < mags.len() ==> !loudest(mags).below(#[trigger] mags[k]),
    decreases mags.len(),
{
    if mags.len() > 0 {
        let rest = mags.drop_last();
        lemma_loudest(rest);
        assert(forall|k: int| 0 <= k < rest.len() ==> mags[k] == #[trigger] rest[k]);
        assert(mags[mags.len() - 1] == mags.last());
        assert forall|k: int| 0 <= k < mags.len() implies !loudest(mags).below(
            #[trigger] mags[k],
        ) by {
            if k < rest.len() {
                assert(!loudest(rest).below(rest[k]));
            }
        }
        if loudest(rest) != Single(ZERO) {
            let j = choose|j: int| 0 <= j < rest.len() && rest[j] == loudest(rest);
            assert(mags[j] == loudest(rest));
        }
    }
}

/// An engine has its buffers, and its transform was planned for its windows.
pub proof fn lemma_engine_is_whole<F: Fourier>(e: AnalysisEngine<F>)
    requires
        e.wf(),
    ensures
        e.size() <= usize::MAX,
        plan_of::<F>(e.size() as usize, e.transform()),
        e.weights().len() == e.size(),
        e.size() > 0 ==> e.recent().len() == e.size(),
        e.bins().len() == bin_count(e.size()),
{
}

} // verus!
