//! The log-spaced frequency bands that analysis and filters share.

use vstd::prelude::*;
use crate::arith::{
    count_of, exp_of, ln_of, minus_of, over_of, plus_of, pow_of, sqrt_of, times_of, Arith,
};
use crate::dsp::BANDS;
use crate::numbers::{
    HALF, LN_2, ONE, PI, THOUSAND, THREE_TENTHS, EIGHTEEN, TWENTY, TWENTY_THOUSAND, TWO,
    ZERO,
};
use crate::single::Single;

verus! {

/// Longest time that a cut may ring on until it has decayed by 60 dB, `100` ms.
pub const MAX_RING_MS: u32 = 0x42c8_0000;
/// Decay times until -60 dB, the natural logarithm of 1000, `6.907755`.
pub const RING_TIME_LN_FACTOR: u32 = 0x40dd_0c54;
/// Sharpest filter that ringing alone would allow, `90`.
pub const NOMINAL_Q_CEILING: u32 = 0x42b4_0000;
/// Share of the spectrum below Nyquist that is used, `0.96`.
pub const USED_SHARE: u32 = 0x3f75_c28f;

/// Index of the last band.
pub const LAST_BAND: usize = 63;

/// The geometry of the bands for one FFT size and sample rate.
#[derive(Clone, Copy)]
pub struct BandLayout {
    /// Center frequencies in Hz.
    pub centers: [Single; BANDS],
    /// First bin of every band.
    pub bin_lo: [usize; BANDS],
    /// Last bin of every band; it may lie one past the last bin of the spectrum.
    pub bin_hi: [usize; BANDS],
    /// Nominal filter quality of every band.
    pub q: [Single; BANDS],
    /// Sharpest filter that every band is given.
    pub q_ceiling: [Single; BANDS],
}

impl BandLayout {
    /// The bins of every band lie in the spectrum of `fft_size` samples.
    pub open spec fn fits(self, fft_size: nat) -> bool {
        forall|i: int|
            #![trigger self.bin_lo@[i]]
            #![trigger self.bin_hi@[i]]
            0 <= i < BANDS ==> self.bin_lo@[i] < self.bin_hi@[i] && self.bin_lo@[i] <= fft_size / 2
                && self.bin_hi@[i] <= fft_size / 2 + 1
    }
}

/// What all bands of a layout share.
#[derive(Clone, Copy)]
pub struct LayoutTerms {
    /// Upper end of the last band in Hz.
    pub f_max: Single,
    /// Logarithm of the lower end of the first band.
    pub log_min: Single,
    /// Distance from there to the logarithm of the upper end.
    pub log_span: Single,
    /// Index of the last band.
    pub last: Single,
    /// Hz from one bin to the next.
    pub bin_res: Single,
}

/// `t` holds the terms of a layout.
pub open spec fn layout_terms_of<A: Arith>(fft_size: usize, rate: Single, t: LayoutTerms) -> bool {
    &&& exists|nyquist: Single, top: Single|
        {
            &&& #[trigger] times_of::<A>(rate, Single(HALF), nyquist)
            &&& #[trigger] times_of::<A>(nyquist, Single(USED_SHARE), top)
            &&& t.f_max == top.smaller(Single(TWENTY_THOUSAND))
        }
    &&& ln_of::<A>(Single(TWENTY), t.log_min)
    &&& exists|log_max: Single| #[trigger]
        ln_of::<A>(t.f_max, log_max) && minus_of::<A>(log_max, t.log_min, t.log_span)
    &&& count_of::<A>(LAST_BAND, t.last)
    &&& exists|size: Single| #[trigger]
        count_of::<A>(fft_size, size) && over_of::<A>(rate, size, t.bin_res)
}

fn layout_terms<A: Arith>(fft_size: usize, rate: Single) -> (t: LayoutTerms)
    ensures
        layout_terms_of::<A>(fft_size, rate, t),
{
    let nyquist = A::times(rate, Single(HALF));
    let f_max = A::times(nyquist, Single(USED_SHARE)).min(Single(TWENTY_THOUSAND));
    let log_min = A::ln(Single(TWENTY));
    let log_max = A::ln(f_max);
    let size = A::of_count(fft_size);
    let t = LayoutTerms {
        f_max,
        log_min,
        log_span: A::minus(log_max, log_min),
        last: A::of_count(LAST_BAND),
        bin_res: A::over(rate, size),
    };
    assert(ln_of::<A>(t.f_max, log_max));
    assert(count_of::<A>(fft_size, size));
    t
}

/// `r` is the center of band `i`, evenly spaced in the logarithm.
pub open spec fn center_of<A: Arith>(t: LayoutTerms, i: usize, r: Single) -> bool {
    exists|n: Single, share: Single, way: Single, log: Single|
        {
            &&& #[trigger] count_of::<A>(i, n)
            &&& #[trigger] over_of::<A>(n, t.last, share)
            &&& #[trigger] times_of::<A>(share, t.log_span, way)
            &&& #[trigger] plus_of::<A>(t.log_min, way, log)
            &&& exp_of::<A>(log, r)
        }
}

/// `r` is the geometric mean of two neighbouring centers.
pub open spec fn edge_of<A: Arith>(a: Single, b: Single, r: Single) -> bool {
    exists|p: Single| #[trigger] times_of::<A>(a, b, p) && sqrt_of::<A>(p, r)
}

fn edge<A: Arith>(a: Single, b: Single) -> (r: Single)
    ensures
        edge_of::<A>(a, b, r),
{
    A::sqrt(A::times(a, b))
}

/// `r` is where band `i` begins.
pub open spec fn low_edge_of<A: Arith>(centers: Seq<Single>, i: int, r: Single) -> bool {
    if i == 0 {
        r == Single(TWENTY)
    } else {
        edge_of::<A>(centers[i - 1], centers[i], r)
    }
}

/// `r` is where band `i` ends.
pub open spec fn high_edge_of<A: Arith>(t: LayoutTerms, centers: Seq<Single>, i: int, r: Single) -> bool {
    if i == LAST_BAND {
        r == t.f_max
    } else {
        edge_of::<A>(centers[i], centers[i + 1], r)
    }
}

/// `r` is the bin nearest to `freq`, at most the one at Nyquist.
pub open spec fn bin_of<A: Arith>(bin_res: Single, fft_size: usize, freq: Single, r: nat) -> bool {
    exists|b: Single| #[trigger]
        over_of::<A>(freq, bin_res, b) && r == if b.index_near() <= fft_size as nat / 2 {
            b.index_near()
        } else {
            fft_size as nat / 2
        }
}

fn bin<A: Arith>(bin_res: Single, fft_size: usize, freq: Single) -> (r: usize)
    ensures
        bin_of::<A>(bin_res, fft_size, freq, r as nat),
        r <= fft_size / 2,
{
    let b = A::over(freq, bin_res).nearest_index();
    if b <= fft_size / 2 {
        b
    } else {
        fft_size / 2
    }
}

/// `r` is the quality of a filter as wide as the band from `lo` to `hi`.
pub open spec fn quality_of<A: Arith>(lo: Single, hi: Single, r: Single) -> bool {
    exists|ratio: Single, log: Single, oct: Single, width: Single, root: Single, less: Single, raw: Single|
        {
            &&& #[trigger] over_of::<A>(hi, lo, ratio)
            &&& #[trigger] ln_of::<A>(ratio, log)
            &&& #[trigger] over_of::<A>(log, Single(LN_2), oct)
            &&& #[trigger] pow_of::<A>(Single(TWO), oct, width)
            &&& #[trigger] sqrt_of::<A>(width, root)
            &&& #[trigger] minus_of::<A>(width, Single(ONE), less)
            &&& #[trigger] over_of::<A>(root, less, raw)
            &&& r == raw.held(Single(THREE_TENTHS), Single(EIGHTEEN))
        }
}

fn quality<A: Arith>(lo: Single, hi: Single) -> (r: Single)
    ensures
        quality_of::<A>(lo, hi, r),
{
    let oct = A::over(A::ln(A::over(hi, lo)), Single(LN_2));
    let width = A::pow(Single(TWO), oct);
    let raw = A::over(A::sqrt(width), A::minus(width, Single(ONE)));
    raw.clamp(Single(THREE_TENTHS), Single(EIGHTEEN))
}

/// `r` is the quality at which a filter at `center` just rings for
/// [`MAX_RING_MS`], held to [`NOMINAL_Q_CEILING`] and never below `q`.
pub open spec fn ceiling_of<A: Arith>(center: Single, q: Single, r: Single) -> bool {
    exists|secs: Single, turn: Single, top: Single, ring: Single|
        {
            &&& #[trigger] over_of::<A>(Single(MAX_RING_MS), Single(THOUSAND), secs)
            &&& #[trigger] times_of::<A>(secs, Single(PI), turn)
            &&& #[trigger] times_of::<A>(turn, center, top)
            &&& #[trigger] over_of::<A>(top, Single(RING_TIME_LN_FACTOR), ring)
            &&& r == ring.smaller(Single(NOMINAL_Q_CEILING)).larger(q)
        }
}

fn ceiling<A: Arith>(center: Single, q: Single) -> (r: Single)
    ensures
        ceiling_of::<A>(center, q, r),
{
    let secs = A::over(Single(MAX_RING_MS), Single(THOUSAND));
    let top = A::times(A::times(secs, Single(PI)), center);
    let ring = A::over(top, Single(RING_TIME_LN_FACTOR));
    ring.min(Single(NOMINAL_Q_CEILING)).max(q)
}

/// One band: where it lies in the spectrum and how sharp its filter is.
#[derive(Clone, Copy)]
pub struct Band {
    pub bin_lo: usize,
    pub bin_hi: usize,
    pub q: Single,
    pub q_ceiling: Single,
}

/// `band` is what lies around `center` between `lo` and `hi`; it spans at least
/// one bin.
pub open spec fn band_between<A: Arith>(
    t: LayoutTerms,
    fft_size: usize,
    center: Single,
    lo: Single,
    hi: Single,
    band: Band,
) -> bool {
    &&& bin_of::<A>(t.bin_res, fft_size, lo, band.bin_lo as nat)
    &&& exists|b: nat| #[trigger]
        bin_of::<A>(t.bin_res, fft_size, hi, b) && band.bin_hi == if b > band.bin_lo {
            b as int
        } else {
            band.bin_lo + 1
        }
    &&& quality_of::<A>(lo, hi, band.q)
    &&& ceiling_of::<A>(center, band.q, band.q_ceiling)
}

fn band<A: Arith>(t: &LayoutTerms, fft_size: usize, center: Single, lo: Single, hi: Single) -> (r: Band)
    ensures
        band_between::<A>(*t, fft_size, center, lo, hi, r),
        r.bin_lo < r.bin_hi,
        r.bin_lo <= fft_size / 2,
        r.bin_hi <= fft_size / 2 + 1,
{
    let bin_lo = bin::<A>(t.bin_res, fft_size, lo);
    let b = bin::<A>(t.bin_res, fft_size, hi);
    let bin_hi = if b > bin_lo {
        b
    } else {
        bin_lo + 1
    };
    let q = quality::<A>(lo, hi);
    Band { bin_lo, bin_hi, q, q_ceiling: ceiling::<A>(center, q) }
}

/// Band `i` of the layout reaches from edge to edge.
pub open spec fn band_of<A: Arith>(t: LayoutTerms, fft_size: usize, layout: BandLayout, i: int) -> bool {
    exists|lo: Single, hi: Single|
        {
            &&& #[trigger] low_edge_of::<A>(layout.centers@, i, lo)
            &&& #[trigger] high_edge_of::<A>(t, layout.centers@, i, hi)
            &&& band_between::<A>(
                t,
                fft_size,
                layout.centers@[i],
                lo,
                hi,
                Band {
                    bin_lo: layout.bin_lo@[i],
                    bin_hi: layout.bin_hi@[i],
                    q: layout.q@[i],
                    q_ceiling: layout.q_ceiling@[i],
                },
            )
        }
}

/// `layout` is the layout for this FFT size and sample rate.
pub open spec fn layout_of<A: Arith>(fft_size: usize, rate: Single, layout: BandLayout) -> bool {
    exists|t: LayoutTerms|
        {
            &&& #[trigger] layout_terms_of::<A>(fft_size, rate, t)
            &&& forall|i: int|
                0 <= i < BANDS ==> center_of::<A>(t, i as usize, #[trigger] layout.centers@[i])
            &&& forall|i: int| 0 <= i < BANDS ==> #[trigger] band_of::<A>(t, fft_size, layout, i)
        }
}

/// Lays out the bands between 20 Hz and 96 percent of Nyquist, 20 kHz at most.
pub fn compute_band_layout<A: Arith>(fft_size: usize, sample_rate: Single) -> (layout: BandLayout)
    ensures
        layout_of::<A>(fft_size, sample_rate, layout),
        layout.fits(fft_size as nat),
{
    let t = layout_terms::<A>(fft_size, sample_rate);
    let mut layout = BandLayout {
        centers: [Single(ZERO); BANDS],
        bin_lo: [0; BANDS],
        bin_hi: [0; BANDS],
        q: [Single(ONE); BANDS],
        q_ceiling: [Single(ONE); BANDS],
    };
    for i in 0..BANDS
        invariant
            forall|m: int|
                0 <= m < i ==> center_of::<A>(t, m as usize, #[trigger] layout.centers@[m]),
    {
        let share = A::over(A::of_count(i), t.last);
        let center = A::exp(A::plus(t.log_min, A::times(share, t.log_span)));
        layout.centers[i] = center;
    }
    for i in 0..BANDS
        invariant
            forall|m: int|
                0 <= m < BANDS ==> center_of::<A>(t, m as usize, #[trigger] layout.centers@[m]),
            forall|m: int| 0 <= m < i ==> #[trigger] band_of::<A>(t, fft_size, layout, m),
            forall|m: int|
                #![trigger layout.bin_lo@[m]]
                #![trigger layout.bin_hi@[m]]
                0 <= m < i ==> layout.bin_lo@[m] < layout.bin_hi@[m] && layout.bin_lo@[m] <= fft_size
                    / 2 && layout.bin_hi@[m] <= fft_size / 2 + 1,
    {
        let ghost before = layout;
        let lo = if i == 0 {
            Single(TWENTY)
        } else {
            edge::<A>(layout.centers[i - 1], layout.centers[i])
        };
        let hi = if i == LAST_BAND {
            t.f_max
        } else {
            edge::<A>(layout.centers[i], layout.centers[i + 1])
        };
        let b = band::<A>(&t, fft_size, layout.centers[i], lo, hi);
        layout.bin_lo[i] = b.bin_lo;
        layout.bin_hi[i] = b.bin_hi;
        layout.q[i] = b.q;
        layout.q_ceiling[i] = b.q_ceiling;
        proof {
            assert(low_edge_of::<A>(layout.centers@, i as int, lo));
            assert(high_edge_of::<A>(t, layout.centers@, i as int, hi));
            assert forall|m: int| 0 <= m < i + 1 implies #[trigger] band_of::<A>(
                t,
                fft_size,
                layout,
                m,
            ) by {
                if m < i {
                    assert(band_of::<A>(t, fft_size, before, m));
                }
            }
        }
    }
    layout
}

/// A band's quality lies between 0.3 and 18, and its ceiling is no lower.
pub proof fn lemma_quality_bounds<A: Arith>(fft_size: usize, rate: Single, layout: BandLayout, i: int)
    requires
        layout_of::<A>(fft_size, rate, layout),
        0 <= i < BANDS,
        !layout.q@[i].nan(),
    ensures
        Single(THREE_TENTHS).at_most(layout.q@[i]),
        layout.q@[i].at_most(Single(EIGHTEEN)),
        layout.q@[i].at_most(layout.q_ceiling@[i]),
{
    let t = choose|t: LayoutTerms|
        {
            &&& #[trigger] layout_terms_of::<A>(fft_size, rate, t)
            &&& forall|i: int|
                0 <= i < BANDS ==> center_of::<A>(t, i as usize, #[trigger] layout.centers@[i])
            &&& forall|i: int| 0 <= i < BANDS ==> #[trigger] band_of::<A>(t, fft_size, layout, i)
        };
    assert(band_of::<A>(t, fft_size, layout, i));
    crate::single::lemma_magnitude_orders(Single(THREE_TENTHS), Single(EIGHTEEN));
}

} // verus!
