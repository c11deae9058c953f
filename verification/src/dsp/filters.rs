//! The cascade of peaking filters that takes the resonances out.
//!
//! Every band has a peaking filter at its center. At unity gain the filter is
//! the identity, so a signal that needs no reduction passes untouched.

use vstd::prelude::*;
use crate::arith::{
    cos_of, count_of, flushes_of, log10_of, minus_of, over_of, plus_of, pow_of, sin_of, times_of, Arith,
};
use crate::dsp::bands::BandLayout;
use crate::dsp::detector::{all_bands, follow_of, in_all_bands};
use crate::dsp::BANDS;
use crate::numbers::{
    FORTY, HALF, MINUS_TWO, ONE, ONE_TEN_THOUSANDTH, ONE_THOUSANDTH, TEN, THREE_TENTHS, TWENTY, TWO, TWO_PI,
    ZERO,
};
use crate::single::Single;

verus! {

/// Samples over which the filters glide to new coefficients.
pub const GAIN_RAMP_SAMPLES: usize = 384;

/// How much sharper a fully concentrated resonance makes its filter, `6`.
pub const Q_BOOST_MAX: u32 = 0x40c0_0000;

/// Gains from here up count as unity, `1 - 1e-6`.
pub const UNITY_FLOOR: u32 = 0x3f7f_ffef;

/// Control bits that make a processor flush subnormal results to zero and read
/// subnormal operands as zero.
pub const FLUSH_BITS: u32 = 0x8040;

// ----- Subnormal numbers ------------------------------------------------------

/// The control word `csr` with flushing switched on, and nothing else changed.
pub fn enable_flush_to_zero(csr: u32) -> (r: u32)
    ensures
        r & FLUSH_BITS == FLUSH_BITS,
        r & !FLUSH_BITS == csr & !FLUSH_BITS,
{
    let r = csr | FLUSH_BITS;
    assert(r & 0x8040 == 0x8040 && r & !0x8040u32 == csr & !0x8040u32) by (bit_vector)
        requires
            r == csr | 0x8040,
    ;
    r
}

/// `r` is `v`, or zero where `v` is subnormal and the machine would let it pass.
pub open spec fn flush_of<A: Arith>(v: Single, r: Single) -> bool {
    exists|by_machine: bool| #[trigger]
        flushes_of::<A>(by_machine) && r == if !by_machine && v.exponent() == 0 && v.fraction() != 0 {
            Single(ZERO)
        } else {
            v
        }
}

/// Keeps subnormal numbers out of the feedback where the machine does not.
pub fn flush_denormal<A: Arith>(v: Single) -> (r: Single)
    ensures
        flush_of::<A>(v, r),
{
    let by_machine = A::flushes();
    if !by_machine && v.is_subnormal() {
        Single(ZERO)
    } else {
        v
    }
}

// ----- One filter -------------------------------------------------------------

/// The coefficients of a second-order filter, normalised to `a0 = 1`.
#[derive(Clone, Copy, PartialEq, Eq, Structural, Debug)]
pub struct Coeffs {
    pub b0: Single,
    pub b1: Single,
    pub b2: Single,
    pub a1: Single,
    pub a2: Single,
}

/// The coefficients that change nothing.
pub open spec fn identity_coeffs() -> Coeffs {
    Coeffs {
        b0: Single(ONE),
        b1: Single(ZERO),
        b2: Single(ZERO),
        a1: Single(ZERO),
        a2: Single(ZERO),
    }
}

impl Coeffs {
    /// The coefficients that change nothing.
    pub fn identity() -> (c: Self)
        ensures
            c == identity_coeffs(),
    {
        Coeffs {
            b0: Single(ONE),
            b1: Single(ZERO),
            b2: Single(ZERO),
            a1: Single(ZERO),
            a2: Single(ZERO),
        }
    }
}

/// `c` are the coefficients of a peak of `gain_db` at `f0`.
pub open spec fn peak_of<A: Arith>(f0: Single, q: Single, gain_db: Single, fs: Single, c: Coeffs) -> bool {
    exists|e: Single, a: Single, turn: Single, w0: Single, cw: Single, sw: Single, width: Single, alpha: Single|
        {
            &&& #[trigger] over_of::<A>(gain_db, Single(FORTY), e)
            &&& #[trigger] pow_of::<A>(Single(TEN), e, a)
            &&& #[trigger] times_of::<A>(Single(TWO_PI), f0, turn)
            &&& #[trigger] over_of::<A>(turn, fs, w0)
            &&& #[trigger] cos_of::<A>(w0, cw)
            &&& #[trigger] sin_of::<A>(w0, sw)
            &&& #[trigger] times_of::<A>(Single(TWO), q.larger(Single(ONE_THOUSANDTH)), width)
            &&& #[trigger] over_of::<A>(sw, width, alpha)
            &&& peak_shape_of::<A>(a, cw, alpha, c)
        }
}

/// `c` are the coefficients of a peak with amplitude `a`, width `alpha` and the
/// cosine `cw` of its frequency.
pub open spec fn peak_shape_of<A: Arith>(a: Single, cw: Single, alpha: Single, c: Coeffs) -> bool {
    exists|up: Single, down: Single, b0: Single, b1: Single, b2: Single, a0: Single, a2: Single|
        {
            &&& #[trigger] times_of::<A>(alpha, a, up)
            &&& #[trigger] over_of::<A>(alpha, a, down)
            &&& #[trigger] plus_of::<A>(Single(ONE), up, b0)
            &&& #[trigger] times_of::<A>(Single(MINUS_TWO), cw, b1)
            &&& #[trigger] minus_of::<A>(Single(ONE), up, b2)
            &&& #[trigger] plus_of::<A>(Single(ONE), down, a0)
            &&& #[trigger] minus_of::<A>(Single(ONE), down, a2)
            &&& over_of::<A>(b0, a0, c.b0)
            &&& over_of::<A>(b1, a0, c.b1)
            &&& over_of::<A>(b2, a0, c.b2)
            &&& over_of::<A>(b1, a0, c.a1)
            &&& over_of::<A>(a2, a0, c.a2)
        }
}

fn peak_shape<A: Arith>(a: Single, cw: Single, alpha: Single) -> (c: Coeffs)
    ensures
        peak_shape_of::<A>(a, cw, alpha, c),
{
    let up = A::times(alpha, a);
    let down = A::over(alpha, a);
    let b0 = A::plus(Single(ONE), up);
    let b1 = A::times(Single(MINUS_TWO), cw);
    let b2 = A::minus(Single(ONE), up);
    let a0 = A::plus(Single(ONE), down);
    let a2 = A::minus(Single(ONE), down);
    Coeffs {
        b0: A::over(b0, a0),
        b1: A::over(b1, a0),
        b2: A::over(b2, a0),
        a1: A::over(b1, a0),
        a2: A::over(a2, a0),
    }
}

/// The coefficients of a peak of `gain_db` at `f0`, of quality `q`, at `fs`
/// samples per second.
pub fn peak_coeffs<A: Arith>(f0: Single, q: Single, gain_db: Single, fs: Single) -> (c: Coeffs)
    ensures
        peak_of::<A>(f0, q, gain_db, fs, c),
{
    let a = A::pow(Single(TEN), A::over(gain_db, Single(FORTY)));
    let w0 = A::over(A::times(Single(TWO_PI), f0), fs);
    let cw = A::cos(w0);
    let sw = A::sin(w0);
    let alpha = A::over(sw, A::times(Single(TWO), q.max(Single(ONE_THOUSANDTH))));
    peak_shape::<A>(a, cw, alpha)
}

/// A second-order filter with its memory of two samples either way.
#[derive(Clone, Copy)]
pub struct Biquad {
    pub coeffs: Coeffs,
    pub x1: Single,
    pub x2: Single,
    pub y1: Single,
    pub y2: Single,
}

/// The filter that changes nothing and remembers silence.
pub open spec fn identity_filter() -> Biquad {
    Biquad {
        coeffs: identity_coeffs(),
        x1: Single(ZERO),
        x2: Single(ZERO),
        y1: Single(ZERO),
        y2: Single(ZERO),
    }
}

/// `r` is what the filter makes of `x` before subnormal numbers are dropped.
pub open spec fn filtered_of<A: Arith>(f: Biquad, x: Single, r: Single) -> bool {
    exists|p0: Single, p1: Single, p2: Single, q1: Single, q2: Single, s1: Single, s2: Single, d1: Single|
        {
            &&& #[trigger] times_of::<A>(f.coeffs.b0, x, p0)
            &&& #[trigger] times_of::<A>(f.coeffs.b1, f.x1, p1)
            &&& #[trigger] times_of::<A>(f.coeffs.b2, f.x2, p2)
            &&& #[trigger] times_of::<A>(f.coeffs.a1, f.y1, q1)
            &&& #[trigger] times_of::<A>(f.coeffs.a2, f.y2, q2)
            &&& #[trigger] plus_of::<A>(p0, p1, s1)
            &&& #[trigger] plus_of::<A>(s1, p2, s2)
            &&& #[trigger] minus_of::<A>(s2, q1, d1)
            &&& minus_of::<A>(d1, q2, r)
        }
}

/// The sample `x` takes the filter from `before` to `after` and comes out as `y`.
pub open spec fn filter_step_of<A: Arith>(before: Biquad, x: Single, after: Biquad, y: Single) -> bool {
    &&& exists|raw: Single| #[trigger]
        filtered_of::<A>(before, x, raw) && flush_of::<A>(raw, y)
    &&& after == (Biquad {
        coeffs: before.coeffs,
        x1: x,
        x2: before.x1,
        y1: y,
        y2: before.y1,
    })
}

impl Biquad {
    /// The filter that changes nothing.
    pub fn identity() -> (f: Self)
        ensures
            f == identity_filter(),
    {
        Biquad {
            coeffs: Coeffs::identity(),
            x1: Single(ZERO),
            x2: Single(ZERO),
            y1: Single(ZERO),
            y2: Single(ZERO),
        }
    }

    /// Makes this a peak of `gain_db` at `f0`; the memory stays.
    pub fn set_peak<A: Arith>(&mut self, f0: Single, q: Single, gain_db: Single, fs: Single)
        ensures
            peak_of::<A>(f0, q, gain_db, fs, final(self).coeffs),
            *final(self) == (Biquad { coeffs: final(self).coeffs, ..*old(self) }),
    {
        self.apply_coeffs(peak_coeffs::<A>(f0, q, gain_db, fs));
    }

    /// The coefficients in use.
    pub fn coeffs(&self) -> (c: Coeffs)
        ensures
            c == self.coeffs,
    {
        self.coeffs
    }

    /// Takes over other coefficients; the memory stays.
    pub fn apply_coeffs(&mut self, c: Coeffs)
        ensures
            *final(self) == (Biquad { coeffs: c, ..*old(self) }),
    {
        self.coeffs = c;
    }

    /// Filters one sample.
    pub fn process<A: Arith>(&mut self, x: Single) -> (y: Single)
        ensures
            filter_step_of::<A>(*old(self), x, *final(self), y),
    {
        let c = self.coeffs;
        let p0 = A::times(c.b0, x);
        let p1 = A::times(c.b1, self.x1);
        let p2 = A::times(c.b2, self.x2);
        let q1 = A::times(c.a1, self.y1);
        let q2 = A::times(c.a2, self.y2);
        let raw = A::minus(A::minus(A::plus(A::plus(p0, p1), p2), q1), q2);
        assert(filtered_of::<A>(*old(self), x, raw));
        let y = flush_denormal::<A>(raw);
        self.x2 = self.x1;
        self.x1 = x;
        self.y2 = self.y1;
        self.y1 = y;
        y
    }
}

// ----- The cascade ------------------------------------------------------------

/// All that a [`BandProcessor`] holds.
#[verifier::ext_equal]
pub struct CascadeState {
    pub filters: Seq<Biquad>,
    pub layout: BandLayout,
    pub base_rate: Single,
    pub oversampled: bool,
    pub prev_input: Single,
    /// Gains and concentrations as last set.
    pub gains: Seq<Single>,
    pub concentration: Seq<Single>,
    /// Gains in dB and filter qualities that came of them.
    pub gain_db: Seq<Single>,
    pub effective_q: Seq<Single>,
    /// Where the coefficients glide from, where to, and how far they are.
    pub ramp_from: Seq<Coeffs>,
    pub ramp_to: Seq<Coeffs>,
    pub ramp_pos: usize,
}

/// A cascade that has been given no gains and no samples.
pub open spec fn cascade_at_rest(layout: BandLayout, base_rate: Single, oversampled: bool) -> CascadeState {
    CascadeState {
        filters: Seq::new(BANDS as nat, |i: int| identity_filter()),
        layout,
        base_rate,
        oversampled,
        prev_input: Single(ZERO),
        gains: all_bands(Single(ONE)),
        concentration: all_bands(Single(ZERO)),
        gain_db: all_bands(Single(ZERO)),
        effective_q: layout.q@,
        ramp_from: Seq::new(BANDS as nat, |i: int| identity_coeffs()),
        ramp_to: Seq::new(BANDS as nat, |i: int| identity_coeffs()),
        ramp_pos: GAIN_RAMP_SAMPLES,
    }
}

/// `r` lies the share `t` of the way from `from` to `to`.
pub open spec fn mix_of<A: Arith>(from: Coeffs, to: Coeffs, t: Single, r: Coeffs) -> bool {
    &&& follow_of::<A>(from.b0, to.b0, t, r.b0)
    &&& follow_of::<A>(from.b1, to.b1, t, r.b1)
    &&& follow_of::<A>(from.b2, to.b2, t, r.b2)
    &&& follow_of::<A>(from.a1, to.a1, t, r.a1)
    &&& follow_of::<A>(from.a2, to.a2, t, r.a2)
}

fn lerp<A: Arith>(from: Single, to: Single, t: Single) -> (r: Single)
    ensures
        follow_of::<A>(from, to, t, r),
{
    A::plus(from, A::times(A::minus(to, from), t))
}

fn mix<A: Arith>(from: Coeffs, to: Coeffs, t: Single) -> (r: Coeffs)
    ensures
        mix_of::<A>(from, to, t, r),
{
    Coeffs {
        b0: lerp::<A>(from.b0, to.b0, t),
        b1: lerp::<A>(from.b1, to.b1, t),
        b2: lerp::<A>(from.b2, to.b2, t),
        a1: lerp::<A>(from.a1, to.a1, t),
        a2: lerp::<A>(from.a2, to.a2, t),
    }
}

/// `t` is how far along the ramp `pos` samples are.
pub open spec fn ramp_share_of<A: Arith>(pos: usize, t: Single) -> bool {
    exists|p: Single, n: Single|
        {
            &&& #[trigger] count_of::<A>(pos, p)
            &&& #[trigger] count_of::<A>(GAIN_RAMP_SAMPLES, n)
            &&& over_of::<A>(p, n, t)
        }
}

/// `after` is `before` with its coefficients the share `t` along the ramp.
pub open spec fn ramped_filter_of<A: Arith>(
    before: Biquad,
    from: Coeffs,
    to: Coeffs,
    t: Single,
    after: Biquad,
) -> bool {
    &&& mix_of::<A>(from, to, t, after.coeffs)
    &&& after == (Biquad { coeffs: after.coeffs, ..before })
}

/// `filters` are the filters of `s` with their coefficients `pos` samples along
/// the ramp; what they remember stays.
pub open spec fn ramped_of<A: Arith>(s: CascadeState, pos: usize, filters: Seq<Biquad>) -> bool {
    &&& filters.len() == BANDS
    &&& exists|t: Single|
        {
            &&& #[trigger] ramp_share_of::<A>(pos, t)
            &&& forall|i: int|
                0 <= i < BANDS ==> ramped_filter_of::<A>(
                    s.filters[i],
                    s.ramp_from[i],
                    s.ramp_to[i],
                    t,
                    #[trigger] filters[i],
                )
        }
}

/// `filters` are the filters of `s` with whatever ramp is under way written into
/// them.
pub open spec fn settled_of<A: Arith>(s: CascadeState, filters: Seq<Biquad>) -> bool {
    if s.ramp_pos >= GAIN_RAMP_SAMPLES {
        filters == s.filters
    } else {
        ramped_of::<A>(s, s.ramp_pos, filters)
    }
}

/// One sample takes the ramp of `s` one step further, to `r`.
pub open spec fn ramp_step_of<A: Arith>(s: CascadeState, r: CascadeState) -> bool {
    if s.ramp_pos >= GAIN_RAMP_SAMPLES {
        r == s
    } else {
        &&& ramped_of::<A>(s, (s.ramp_pos + 1) as usize, r.filters)
        &&& r == (CascadeState {
            filters: r.filters,
            ramp_pos: (s.ramp_pos + 1) as usize,
            ..s
        })
    }
}

/// `fs` is the rate at which the filters of `s` run.
pub open spec fn synth_rate_of<A: Arith>(s: CascadeState, fs: Single) -> bool {
    if s.oversampled {
        times_of::<A>(s.base_rate, Single(TWO), fs)
    } else {
        fs == s.base_rate
    }
}

/// What a gain makes of one filter.
#[derive(Clone, Copy)]
pub struct FilterTarget {
    pub gain_db: Single,
    pub effective_q: Single,
    pub coeffs: Coeffs,
}

/// `f` is what `gain` and `concentration` ask of the filter at `center`. Unity
/// is exactly the identity. A concentrated resonance sharpens the filter, up to
/// the ceiling of its band.
pub open spec fn filter_target_of<A: Arith>(
    center: Single,
    q: Single,
    q_ceiling: Single,
    gain: Single,
    concentration: Single,
    fs: Single,
    f: FilterTarget,
) -> bool {
    if Single(UNITY_FLOOR).at_most(gain) {
        f == (FilterTarget { gain_db: Single(ZERO), effective_q: q, coeffs: identity_coeffs() })
    } else {
        &&& exists|log: Single| #[trigger]
            log10_of::<A>(gain.larger(Single(ONE_TEN_THOUSANDTH)), log) && times_of::<A>(
                Single(TWENTY),
                log,
                f.gain_db,
            )
        &&& exists|span: Single, boost: Single, factor: Single, raw: Single|
            {
                &&& #[trigger] minus_of::<A>(Single(Q_BOOST_MAX), Single(ONE), span)
                &&& #[trigger] times_of::<A>(concentration, span, boost)
                &&& #[trigger] plus_of::<A>(Single(ONE), boost, factor)
                &&& #[trigger] times_of::<A>(q, factor, raw)
                &&& f.effective_q == raw.held(Single(THREE_TENTHS), q_ceiling)
            }
        &&& peak_of::<A>(center, f.effective_q, f.gain_db, fs, f.coeffs)
    }
}

fn filter_target<A: Arith>(
    center: Single,
    q: Single,
    q_ceiling: Single,
    gain: Single,
    concentration: Single,
    fs: Single,
) -> (f: FilterTarget)
    ensures
        filter_target_of::<A>(center, q, q_ceiling, gain, concentration, fs, f),
{
    if Single(UNITY_FLOOR).le(gain) {
        FilterTarget { gain_db: Single(ZERO), effective_q: q, coeffs: Coeffs::identity() }
    } else {
        let log = A::log10(gain.max(Single(ONE_TEN_THOUSANDTH)));
        let gain_db = A::times(Single(TWENTY), log);
        let span = A::minus(Single(Q_BOOST_MAX), Single(ONE));
        let factor = A::plus(Single(ONE), A::times(concentration, span));
        let effective_q = A::times(q, factor).clamp(Single(THREE_TENTHS), q_ceiling);
        let f = FilterTarget {
            gain_db,
            effective_q,
            coeffs: peak_coeffs::<A>(center, effective_q, gain_db, fs),
        };
        assert(log10_of::<A>(gain.larger(Single(ONE_TEN_THOUSANDTH)), log));
        assert(minus_of::<A>(Single(Q_BOOST_MAX), Single(ONE), span));
        f
    }
}

/// New gains take the cascade from `s` to `r`: the ramp under way is written into
/// the filters, and a new one begins there.
pub open spec fn gains_set_of<A: Arith>(
    s: CascadeState,
    gains: Seq<Single>,
    concentration: Seq<Single>,
    r: CascadeState,
) -> bool {
    &&& settled_of::<A>(s, r.filters)
    &&& exists|fs: Single|
        {
            &&& #[trigger] synth_rate_of::<A>(s, fs)
            &&& forall|i: int|
                0 <= i < BANDS ==> filter_target_of::<A>(
                    s.layout.centers@[i],
                    s.layout.q@[i],
                    s.layout.q_ceiling@[i],
                    gains[i],
                    concentration[i],
                    fs,
                    #[trigger] r.target_at(i),
                )
        }
    &&& r.ramp_from == Seq::new(BANDS as nat, |i: int| r.filters[i].coeffs)
    &&& r.ramp_to.len() == BANDS
    &&& r.gain_db.len() == BANDS
    &&& r.effective_q.len() == BANDS
    &&& r == (CascadeState {
        filters: r.filters,
        gains,
        concentration,
        gain_db: r.gain_db,
        effective_q: r.effective_q,
        ramp_from: r.ramp_from,
        ramp_to: r.ramp_to,
        ramp_pos: 0,
        ..s
    })
}

impl CascadeState {
    /// What the last gains asked of filter `i`.
    pub open spec fn target_at(self, i: int) -> FilterTarget {
        FilterTarget {
            gain_db: self.gain_db[i],
            effective_q: self.effective_q[i],
            coeffs: self.ramp_to[i],
        }
    }
}

/// Switching the internal rate recomputes the filters from the last gains;
/// without a change nothing happens.
pub open spec fn oversampling_set_of<A: Arith>(s: CascadeState, on: bool, r: CascadeState) -> bool {
    if on == s.oversampled {
        r == s
    } else {
        gains_set_of::<A>(
            CascadeState { oversampled: on, ..s },
            s.gains,
            s.concentration,
            r,
        )
    }
}

/// `x` passes through one filter after the other and comes out as `y`.
pub open spec fn cascade_of<A: Arith>(
    before: Seq<Biquad>,
    x: Single,
    after: Seq<Biquad>,
    y: Single,
) -> bool {
    &&& after.len() == BANDS
    &&& exists|ys: Seq<Single>| #[trigger]
        ys.len() == BANDS + 1 && ys[0] == x && ys[BANDS as int] == y && cascade_steps::<A>(
            before,
            after,
            ys,
            BANDS as int,
        )
}

/// The first `n` filters take `ys` one sample further each.
pub open spec fn cascade_steps<A: Arith>(
    before: Seq<Biquad>,
    after: Seq<Biquad>,
    ys: Seq<Single>,
    n: int,
) -> bool {
    forall|i: int|
        0 <= i < n ==> #[trigger] filter_step_of::<A>(before[i], ys[i], after[i], ys[i + 1])
}

/// A sample takes the cascade from `s` to `r` and comes out as `y`.
pub open spec fn sample_of<A: Arith>(s: CascadeState, x: Single, r: CascadeState, y: Single) -> bool {
    exists|mid: CascadeState|
        {
            &&& #[trigger] ramp_step_of::<A>(s, mid)
            &&& cascade_of::<A>(mid.filters, x, r.filters, y)
            &&& r == (CascadeState { filters: r.filters, ..mid })
        }
}

/// A sample takes the cascade from `s` to `r` at twice the rate: the midpoint to
/// the sample before goes through first, and the two results are averaged.
pub open spec fn double_sample_of<A: Arith>(
    s: CascadeState,
    x: Single,
    r: CascadeState,
    y: Single,
) -> bool {
    exists|mid: CascadeState, between: Seq<Biquad>, both: Single, half: Single, y0: Single, y1: Single, sum: Single|
        {
            &&& #[trigger] ramp_step_of::<A>(s, mid)
            &&& #[trigger] plus_of::<A>(s.prev_input, x, both)
            &&& #[trigger] times_of::<A>(Single(HALF), both, half)
            &&& #[trigger] cascade_of::<A>(mid.filters, half, between, y0)
            &&& #[trigger] cascade_of::<A>(between, x, r.filters, y1)
            &&& #[trigger] plus_of::<A>(y0, y1, sum)
            &&& times_of::<A>(Single(HALF), sum, y)
            &&& r == (CascadeState { filters: r.filters, prev_input: x, ..mid })
        }
}

/// The filters of all bands, one after the other.
pub struct BandProcessor {
    biquads: [Biquad; BANDS],
    layout: BandLayout,
    base_rate: Single,
    oversampled: bool,
    prev_input: Single,
    last_gains: [Single; BANDS],
    last_concentration: [Single; BANDS],
    last_gain_db: [Single; BANDS],
    last_effective_q: [Single; BANDS],
    ramp_from: [Coeffs; BANDS],
    ramp_to: [Coeffs; BANDS],
    ramp_pos: usize,
}

impl View for BandProcessor {
    type V = CascadeState;

    closed spec fn view(&self) -> CascadeState {
        CascadeState {
            filters: self.biquads@,
            layout: self.layout,
            base_rate: self.base_rate,
            oversampled: self.oversampled,
            prev_input: self.prev_input,
            gains: self.last_gains@,
            concentration: self.last_concentration@,
            gain_db: self.last_gain_db@,
            effective_q: self.last_effective_q@,
            ramp_from: self.ramp_from@,
            ramp_to: self.ramp_to@,
            ramp_pos: self.ramp_pos,
        }
    }
}

impl BandProcessor {
    /// A cascade that passes everything untouched.
    pub fn new(layout: BandLayout, sample_rate: Single) -> (b: Self)
        ensures
            b@ == cascade_at_rest(layout, sample_rate, false),
    {
        let b = BandProcessor {
            biquads: [Biquad::identity(); BANDS],
            layout,
            base_rate: sample_rate,
            oversampled: false,
            prev_input: Single(ZERO),
            last_gains: in_all_bands(Single(ONE)),
            last_concentration: in_all_bands(Single(ZERO)),
            last_gain_db: in_all_bands(Single(ZERO)),
            last_effective_q: layout.q,
            ramp_from: [Coeffs::identity(); BANDS],
            ramp_to: [Coeffs::identity(); BANDS],
            ramp_pos: GAIN_RAMP_SAMPLES,
        };
        assert(b@ =~= cascade_at_rest(layout, sample_rate, false));
        b
    }

    /// The gain of every band in dB as last set.
    pub fn last_gain_db(&self) -> (r: &[Single; BANDS])
        ensures
            r@ == self@.gain_db,
    {
        &self.last_gain_db
    }

    /// The quality of every filter as last set.
    pub fn last_effective_q(&self) -> (r: &[Single; BANDS])
        ensures
            r@ == self@.effective_q,
    {
        &self.last_effective_q
    }

    /// The coefficients that every filter is headed for.
    pub fn ramp_target(&self) -> (r: &[Coeffs; BANDS])
        ensures
            r@ == self@.ramp_to,
    {
        &self.ramp_to
    }

    /// The rate at which the filters run.
    fn synth_rate<A: Arith>(&self) -> (fs: Single)
        ensures
            synth_rate_of::<A>(self@, fs),
    {
        if self.oversampled {
            A::times(self.base_rate, Single(TWO))
        } else {
            self.base_rate
        }
    }

    /// Runs the filters at twice the rate, or no longer.
    pub fn set_oversampled<A: Arith>(&mut self, on: bool)
        ensures
            oversampling_set_of::<A>(old(self)@, on, final(self)@),
    {
        if on != self.oversampled {
            self.oversampled = on;
            let gains = self.last_gains;
            let concentration = self.last_concentration;
            assert(self@ =~= (CascadeState { oversampled: on, ..old(self)@ }));
            self.set_gains::<A>(&gains, &concentration);
        }
    }

    /// Starts a ramp from the coefficients in use to those for `gains`. A
    /// concentrated resonance is cut with a sharper filter.
    pub fn set_gains<A: Arith>(&mut self, gains: &[Single; BANDS], concentration: &[Single; BANDS])
        ensures
            gains_set_of::<A>(old(self)@, gains@, concentration@, final(self)@),
    {
        self.materialize_current::<A>();
        let fs = self.synth_rate::<A>();
        let ghost settled = self@;
        assert(synth_rate_of::<A>(old(self)@, fs));
        self.last_gains = *gains;
        self.last_concentration = *concentration;
        self.ramp_pos = 0;
        for i in 0..BANDS
            invariant
                self@ == (CascadeState {
                    gains: gains@,
                    concentration: concentration@,
                    gain_db: self@.gain_db,
                    effective_q: self@.effective_q,
                    ramp_from: self@.ramp_from,
                    ramp_to: self@.ramp_to,
                    ramp_pos: 0,
                    ..settled
                }),
                forall|m: int|
                    0 <= m < i ==> filter_target_of::<A>(
                        settled.layout.centers@[m],
                        settled.layout.q@[m],
                        settled.layout.q_ceiling@[m],
                        gains@[m],
                        concentration@[m],
                        fs,
                        #[trigger] self@.target_at(m),
                    ),
                forall|m: int|
                    0 <= m < i ==> #[trigger] self@.ramp_from[m] == settled.filters[m].coeffs,
        {
            let ghost earlier = self@;
            let f = filter_target::<A>(
                self.layout.centers[i],
                self.layout.q[i],
                self.layout.q_ceiling[i],
                gains[i],
                concentration[i],
                fs,
            );
            self.ramp_from[i] = self.biquads[i].coeffs();
            self.ramp_to[i] = f.coeffs;
            self.last_gain_db[i] = f.gain_db;
            self.last_effective_q[i] = f.effective_q;
            proof {
                assert(self@.target_at(i as int) == f);
                assert(forall|m: int|
                    0 <= m < i ==> #[trigger] self@.target_at(m) == earlier.target_at(m));
                assert(self@ =~= (CascadeState {
                    gain_db: self@.gain_db,
                    effective_q: self@.effective_q,
                    ramp_from: self@.ramp_from,
                    ramp_to: self@.ramp_to,
                    ..earlier
                }));
            }
        }
        assert(self@.ramp_from =~= Seq::new(BANDS as nat, |i: int| self@.filters[i].coeffs));
    }

    /// Writes the ramp under way into the filters without taking it further.
    fn materialize_current<A: Arith>(&mut self)
        ensures
            settled_of::<A>(old(self)@, final(self)@.filters),
            final(self)@ == (CascadeState { filters: final(self)@.filters, ..old(self)@ }),
    {
        if self.ramp_pos < GAIN_RAMP_SAMPLES {
            self.ramp_to_position::<A>(self.ramp_pos);
        }
    }

    /// Takes the ramp one sample further.
    fn step_ramp<A: Arith>(&mut self)
        ensures
            ramp_step_of::<A>(old(self)@, final(self)@),
    {
        if self.ramp_pos < GAIN_RAMP_SAMPLES {
            self.ramp_to_position::<A>(self.ramp_pos + 1);
            self.ramp_pos = self.ramp_pos + 1;
            assert(self@ =~= (CascadeState {
                filters: self@.filters,
                ramp_pos: (old(self)@.ramp_pos + 1) as usize,
                ..old(self)@
            }));
        }
    }

    /// Gives the filters the coefficients `pos` samples along the ramp.
    fn ramp_to_position<A: Arith>(&mut self, pos: usize)
        ensures
            ramped_of::<A>(old(self)@, pos, final(self)@.filters),
            final(self)@ == (CascadeState { filters: final(self)@.filters, ..old(self)@ }),
    {
        let n = A::of_count(GAIN_RAMP_SAMPLES);
        let p = A::of_count(pos);
        let t = A::over(p, n);
        let ghost before = self@;
        assert(ramp_share_of::<A>(pos, t));
        for i in 0..BANDS
            invariant
                self@ == (CascadeState { filters: self@.filters, ..before }),
                self@.filters.len() == BANDS,
                forall|m: int| i <= m < BANDS ==> #[trigger] self@.filters[m] == before.filters[m],
                forall|m: int|
                    0 <= m < i ==> ramped_filter_of::<A>(
                        before.filters[m],
                        before.ramp_from[m],
                        before.ramp_to[m],
                        t,
                        #[trigger] self@.filters[m],
                    ),
        {
            let ghost earlier = self@;
            let mut f = self.biquads[i];
            f.apply_coeffs(mix::<A>(self.ramp_from[i], self.ramp_to[i], t));
            self.biquads[i] = f;
            assert(self@ =~= (CascadeState {
                filters: earlier.filters.update(i as int, f),
                ..earlier
            }));
        }
    }

    fn process_cascade<A: Arith>(&mut self, x: Single) -> (y: Single)
        ensures
            cascade_of::<A>(old(self)@.filters, x, final(self)@.filters, y),
            final(self)@ == (CascadeState { filters: final(self)@.filters, ..old(self)@ }),
    {
        let mut y = x;
        let ghost mut ys = seq![x];
        let ghost before = self@;
        for i in 0..BANDS
            invariant
                self@ == (CascadeState { filters: self@.filters, ..before }),
                self@.filters.len() == BANDS,
                ys.len() == i + 1,
                ys[0] == x,
                ys[i as int] == y,
                forall|m: int| i <= m < BANDS ==> #[trigger] self@.filters[m] == before.filters[m],
                cascade_steps::<A>(before.filters, self@.filters, ys, i as int),
        {
            let ghost earlier = self@;
            let mut f = self.biquads[i];
            y = f.process::<A>(y);
            self.biquads[i] = f;
            proof {
                let ys2 = ys.push(y);
                assert(self@ =~= (CascadeState {
                    filters: earlier.filters.update(i as int, f),
                    ..earlier
                }));
                assert forall|m: int| 0 <= m < i + 1 implies #[trigger] filter_step_of::<A>(
                    before.filters[m],
                    ys2[m],
                    self@.filters[m],
                    ys2[m + 1],
                ) by {
                    if m < i {
                        assert(filter_step_of::<A>(
                            before.filters[m],
                            ys[m],
                            earlier.filters[m],
                            ys[m + 1],
                        ));
                    }
                }
                ys = ys2;
            }
        }
        y
    }

    /// Filters one sample.
    pub fn process_sample<A: Arith>(&mut self, x: Single) -> (y: Single)
        ensures
            sample_of::<A>(old(self)@, x, final(self)@, y),
    {
        self.step_ramp::<A>();
        let ghost mid = self@;
        let y = self.process_cascade::<A>(x);
        assert(ramp_step_of::<A>(old(self)@, mid));
        y
    }

    /// Filters one sample at twice the rate, without delay. The ramp takes one
    /// step. `gains` are the ones in force; the ramp already leads to them.
    pub fn process_sample_2x<A: Arith>(&mut self, x: Single, gains: &[Single; BANDS]) -> (y: Single)
        ensures
            double_sample_of::<A>(old(self)@, x, final(self)@, y),
    {
        self.step_ramp::<A>();
        let ghost mid = self@;
        let both = A::plus(self.prev_input, x);
        let half = A::times(Single(HALF), both);
        self.prev_input = x;
        assert(self@ =~= (CascadeState { prev_input: x, ..mid }));
        let y0 = self.process_cascade::<A>(half);
        let ghost between = self@.filters;
        let y1 = self.process_cascade::<A>(x);
        assert(ramp_step_of::<A>(old(self)@, mid));
        assert(cascade_of::<A>(mid.filters, half, between, y0));
        A::times(Single(HALF), A::plus(y0, y1))
    }

    /// Forgets all gains and samples; the internal rate stays.
    pub fn reset(&mut self)
        ensures
            final(self)@ == cascade_at_rest(
                old(self)@.layout,
                old(self)@.base_rate,
                old(self)@.oversampled,
            ),
    {
        self.biquads = [Biquad::identity(); BANDS];
        self.prev_input = Single(ZERO);
        self.last_gains = in_all_bands(Single(ONE));
        self.last_concentration = in_all_bands(Single(ZERO));
        self.last_gain_db = in_all_bands(Single(ZERO));
        self.last_effective_q = self.layout.q;
        self.ramp_from = [Coeffs::identity(); BANDS];
        self.ramp_to = [Coeffs::identity(); BANDS];
        self.ramp_pos = GAIN_RAMP_SAMPLES;
        assert(self@ =~= cascade_at_rest(
            old(self)@.layout,
            old(self)@.base_rate,
            old(self)@.oversampled,
        ));
    }
}

// ----- Laws -------------------------------------------------------------------

/// A band at unity gain is headed for the identity, at 0 dB and its nominal
/// quality, however concentrated it is.
pub proof fn lemma_unity_is_identity<A: Arith>(
    s: CascadeState,
    gains: Seq<Single>,
    concentration: Seq<Single>,
    r: CascadeState,
    i: int,
)
    requires
        gains_set_of::<A>(s, gains, concentration, r),
        0 <= i < BANDS,
        Single(UNITY_FLOOR).at_most(gains[i]),
    ensures
        r.ramp_to[i] == identity_coeffs(),
        r.gain_db[i] == Single(ZERO),
        r.effective_q[i] == s.layout.q@[i],
{
    let f = r.target_at(i);
    assert(f.coeffs == identity_coeffs());
}

/// A band that is cut has a filter no sharper than its ceiling.
pub proof fn lemma_quality_is_held<A: Arith>(
    s: CascadeState,
    gains: Seq<Single>,
    concentration: Seq<Single>,
    r: CascadeState,
    i: int,
)
    requires
        gains_set_of::<A>(s, gains, concentration, r),
        0 <= i < BANDS,
        !Single(UNITY_FLOOR).at_most(gains[i]),
        Single(THREE_TENTHS).at_most(s.layout.q_ceiling@[i]),
        !r.effective_q[i].nan(),
    ensures
        Single(THREE_TENTHS).at_most(r.effective_q[i]),
        r.effective_q[i].at_most(s.layout.q_ceiling@[i]),
{
    let f = r.target_at(i);
    assert(f.effective_q == r.effective_q[i]);
}

/// New gains never move the coefficients in use: a ramp begins where they are.
pub proof fn lemma_ramp_begins_where_filters_are<A: Arith>(
    s: CascadeState,
    gains: Seq<Single>,
    concentration: Seq<Single>,
    r: CascadeState,
    i: int,
)
    requires
        gains_set_of::<A>(s, gains, concentration, r),
        0 <= i < BANDS,
    ensures
        r.ramp_pos == 0,
        r.ramp_from[i] == r.filters[i].coeffs,
        s.ramp_pos >= GAIN_RAMP_SAMPLES ==> r.filters == s.filters,
{
}

/// A sample takes the cascade from `s` to `r`, at either rate.
pub open spec fn either_sample_of<A: Arith>(s: CascadeState, r: CascadeState) -> bool {
    ||| exists|x: Single, y: Single| #[trigger] sample_of::<A>(s, x, r, y)
    ||| exists|x: Single, y: Single| #[trigger] double_sample_of::<A>(s, x, r, y)
}

/// A sample takes the ramp one step further, and leaves gains and targets alone.
pub proof fn lemma_sample_steps_ramp<A: Arith>(s: CascadeState, r: CascadeState)
    requires
        either_sample_of::<A>(s, r),
    ensures
        r.ramp_pos == if s.ramp_pos < GAIN_RAMP_SAMPLES {
            s.ramp_pos + 1
        } else {
            s.ramp_pos as int
        },
        r.ramp_to == s.ramp_to,
        r.gains == s.gains,
        r.concentration == s.concentration,
        r.gain_db == s.gain_db,
        r.effective_q == s.effective_q,
        r.oversampled == s.oversampled,
{
}

/// Once the ramp is over, samples leave all coefficients alone.
pub proof fn lemma_finished_ramp_stays<A: Arith>(s: CascadeState, r: CascadeState, i: int)
    requires
        either_sample_of::<A>(s, r),
        s.ramp_pos >= GAIN_RAMP_SAMPLES,
        0 <= i < BANDS,
    ensures
        r.filters[i].coeffs == s.filters[i].coeffs,
{
    if exists|x: Single, y: Single| #[trigger] sample_of::<A>(s, x, r, y) {
        let (x, y) = choose|x: Single, y: Single| #[trigger] sample_of::<A>(s, x, r, y);
        lemma_cascade_keeps_coeffs::<A>(s.filters, x, r.filters, y, i);
    } else {
        let (x, y) = choose|x: Single, y: Single| #[trigger] double_sample_of::<A>(s, x, r, y);
        let (between, half, y0, y1) = choose|between: Seq<Biquad>, half: Single, y0: Single, y1: Single|
            #[trigger] cascade_of::<A>(s.filters, half, between, y0) && #[trigger] cascade_of::<A>(
                between,
                x,
                r.filters,
                y1,
            );
        lemma_cascade_keeps_coeffs::<A>(s.filters, half, between, y0, i);
        lemma_cascade_keeps_coeffs::<A>(between, x, r.filters, y1, i);
    }
}

proof fn lemma_cascade_keeps_coeffs<A: Arith>(
    before: Seq<Biquad>,
    x: Single,
    after: Seq<Biquad>,
    y: Single,
    i: int,
)
    requires
        cascade_of::<A>(before, x, after, y),
        0 <= i < BANDS,
    ensures
        after[i].coeffs == before[i].coeffs,
{
    let ys = choose|ys: Seq<Single>| #[trigger]
        ys.len() == BANDS + 1 && ys[0] == x && ys[BANDS as int] == y && cascade_steps::<A>(
            before,
            after,
            ys,
            BANDS as int,
        );
    assert(filter_step_of::<A>(before[i], ys[i], after[i], ys[i + 1]));
}

/// From wherever it starts, a ramp is over after [`GAIN_RAMP_SAMPLES`] samples.
pub proof fn lemma_ramp_finishes<A: Arith>(states: Seq<CascadeState>)
    requires
        states.len() > GAIN_RAMP_SAMPLES,
        forall|k: int|
            0 <= k < states.len() - 1 ==> either_sample_of::<A>(
                #[trigger] states[k],
                states[k + 1],
            ),
    ensures
        states.last().ramp_pos >= GAIN_RAMP_SAMPLES,
{
    lemma_ramp_after::<A>(states, states.len() - 1);
}

proof fn lemma_ramp_after<A: Arith>(states: Seq<CascadeState>, k: int)
    requires
        0 <= k < states.len(),
        forall|k: int|
            0 <= k < states.len() - 1 ==> either_sample_of::<A>(
                #[trigger] states[k],
                states[k + 1],
            ),
    ensures
        states[k].ramp_pos >= GAIN_RAMP_SAMPLES || states[k].ramp_pos >= k,
    decreases k,
{
    if k > 0 {
        lemma_ramp_after::<A>(states, k - 1);
        lemma_sample_steps_ramp::<A>(states[k - 1], states[k]);
    }
}

/// A cascade has a filter for every band.
pub proof fn lemma_processor_is_whole(b: BandProcessor)
    ensures
        b@.filters.len() == BANDS,
        b@.ramp_from.len() == BANDS,
        b@.ramp_to.len() == BANDS,
        b@.gains.len() == BANDS,
        b@.concentration.len() == BANDS,
{
}

} // verus!
