//! The filters against signals and gains with known outcomes.

use resovoid::arith::Arith;
use resovoid::dsp::filters::{Coeffs, GAIN_RAMP_SAMPLES};
use resovoid::dsp::BANDS;
use resovoid::single::Single;

/// The machine's own arithmetic.
struct Machine;

fn s(x: f32) -> Single {
    Single(x.to_bits())
}

fn f(x: Single) -> f32 {
    f32::from_bits(x.0)
}

impl Arith for Machine {
    fn plus(a: Single, b: Single) -> Single {
        s(f(a) + f(b))
    }
    fn minus(a: Single, b: Single) -> Single {
        s(f(a) - f(b))
    }
    fn times(a: Single, b: Single) -> Single {
        s(f(a) * f(b))
    }
    fn over(a: Single, b: Single) -> Single {
        s(f(a) / f(b))
    }
    fn square(a: Single) -> Single {
        s(f(a).powi(2))
    }
    fn sqrt(a: Single) -> Single {
        s(f(a).sqrt())
    }
    fn exp(a: Single) -> Single {
        s(f(a).exp())
    }
    fn ln(a: Single) -> Single {
        s(f(a).ln())
    }
    fn log2(a: Single) -> Single {
        s(f(a).log2())
    }
    fn log10(a: Single) -> Single {
        s(f(a).log10())
    }
    fn pow(a: Single, b: Single) -> Single {
        s(f(a).powf(f(b)))
    }
    fn sin(a: Single) -> Single {
        s(f(a).sin())
    }
    fn cos(a: Single) -> Single {
        s(f(a).cos())
    }
    fn hypot(a: Single, b: Single) -> Single {
        s(f(a).hypot(f(b)))
    }
    fn of_count(n: usize) -> Single {
        s(n as f32)
    }
    fn flushes() -> bool {
        true
    }
}

fn bands_in(a: &[f32; BANDS]) -> [Single; BANDS] {
    a.map(s)
}

fn bands_out(a: &[Single; BANDS]) -> [f32; BANDS] {
    a.map(f)
}

#[derive(Clone, Copy)]
struct BandLayout {
    centers: [f32; BANDS],
    bin_lo: [usize; BANDS],
    bin_hi: [usize; BANDS],
    q: [f32; BANDS],
    q_ceiling: [f32; BANDS],
}

fn compute_band_layout(fft_size: usize, rate: f32) -> BandLayout {
    let l = resovoid::dsp::bands::compute_band_layout::<Machine>(fft_size, s(rate));
    BandLayout {
        centers: bands_out(&l.centers),
        bin_lo: l.bin_lo,
        bin_hi: l.bin_hi,
        q: bands_out(&l.q),
        q_ceiling: bands_out(&l.q_ceiling),
    }
}

const Q_BOOST_MAX: f32 = 6.0;

impl BandLayout {
    fn held(&self) -> resovoid::dsp::bands::BandLayout {
        resovoid::dsp::bands::BandLayout {
            centers: bands_in(&self.centers),
            bin_lo: self.bin_lo,
            bin_hi: self.bin_hi,
            q: bands_in(&self.q),
            q_ceiling: bands_in(&self.q_ceiling),
        }
    }
}

fn listed(c: &Coeffs) -> [f32; 5] {
    [f(c.b0), f(c.b1), f(c.b2), f(c.a1), f(c.a2)]
}

fn peak_coeffs(f0: f32, q: f32, gain_db: f32, fs: f32) -> [f32; 5] {
    listed(&resovoid::dsp::filters::peak_coeffs::<Machine>(s(f0), s(q), s(gain_db), s(fs)))
}

struct Biquad(resovoid::dsp::filters::Biquad);

impl Biquad {
    fn identity() -> Self {
        Biquad(resovoid::dsp::filters::Biquad::identity())
    }

    fn set_peak(&mut self, f0: f32, q: f32, gain_db: f32, fs: f32) {
        self.0.set_peak::<Machine>(s(f0), s(q), s(gain_db), s(fs));
    }

    fn process(&mut self, x: f32) -> f32 {
        f(self.0.process::<Machine>(s(x)))
    }
}

struct BandProcessor(resovoid::dsp::filters::BandProcessor);

impl BandProcessor {
    fn new(layout: &BandLayout, rate: f32) -> Self {
        BandProcessor(resovoid::dsp::filters::BandProcessor::new(layout.held(), s(rate)))
    }

    fn set_gains(&mut self, gains: &[f32; BANDS], concentration: &[f32; BANDS]) {
        self.0.set_gains::<Machine>(&bands_in(gains), &bands_in(concentration));
    }

    fn set_oversampled(&mut self, on: bool) {
        self.0.set_oversampled::<Machine>(on);
    }

    fn process_sample(&mut self, x: f32) -> f32 {
        f(self.0.process_sample::<Machine>(s(x)))
    }

    fn process_sample_2x(&mut self, x: f32, gains: &[f32; BANDS]) -> f32 {
        f(self.0.process_sample_2x::<Machine>(s(x), &bands_in(gains)))
    }

    fn ramp_to(&self) -> [[f32; 5]; BANDS] {
        self.0.ramp_target().map(|c| listed(&c))
    }
}

/// Setting all gains to 1.0 (0 dB) should produce an identity round-trip:
/// output == input for every sample.  This guards the biquad coefficient
/// math against regressions that would break unity gain.
#[test]
fn identity_round_trip() {
    let layout = compute_band_layout(2048, 44100.0);
    let mut bp = BandProcessor::new(&layout, 44100.0);

    let unity = [1.0f32; BANDS];
    bp.set_gains(&unity, &[0.0f32; BANDS]);

    // Run a constant DC signal to let all 64 biquads settle, then verify
    // that the output matches the input in steady state.
    let input = 0.5f32;
    // Settle: 64 biquads × ~32 samples each ≈ 2048 samples to be safe.
    for _ in 0..2048 {
        bp.process_sample(input);
    }
    // Now verify steady-state identity.
    let mut max_err = 0.0f32;
    for _ in 0..1024 {
        let y = bp.process_sample(input);
        let err = (y - input).abs();
        if err > max_err {
            max_err = err;
        }
    }
    assert!(
        max_err < 1e-4,
        "identity round-trip steady-state error too large: {max_err}"
    );
}

#[test]
fn biquad_identity_passthrough() {
    let mut b = Biquad::identity();
    let out = b.process(0.5);
    assert!((out - 0.5).abs() < 1e-10);
}

#[test]
fn oversampled_unity_passes_sine_transparently() {
    // Sine (not DC) input: high-Q low bands amplify f32 rounding of a
    // DC component into a slow ±1e-2 wander, which is orthogonal to the
    // sine and vanishes from an RMS comparison.
    let layout = compute_band_layout(2048, 44100.0);
    let mut bp = BandProcessor::new(&layout, 44100.0);
    bp.set_oversampled(true);
    bp.set_gains(&[1.0f32; BANDS], &[0.0f32; BANDS]);
    let unity = [1.0f32; BANDS];
    let mut sum_xx = 0.0f64;
    let mut sum_yy = 0.0f64;
    let mut peak = 0.0f32;
    for n in 0..16384 {
        let x = 0.5 * (2.0 * std::f32::consts::PI * 1000.0 * n as f32 / 44100.0).sin();
        let y = bp.process_sample_2x(x, &unity);
        assert!(y.is_finite(), "2x output must stay finite");
        peak = peak.max(y.abs());
        if n >= 12288 {
            sum_xx += (x as f64) * (x as f64);
            sum_yy += (y as f64) * (y as f64);
        }
    }
    let rms_ratio = (sum_yy / sum_xx).sqrt();
    assert!(
        (rms_ratio - 1.0).abs() < 0.05,
        "2x unity must pass a 1 kHz sine transparently, rms ratio {rms_ratio}"
    );
    assert!(peak < 0.65, "no overshoot/blowup, peak {peak}");
}

#[test]
fn oversample_toggle_recomputes_without_nan() {
    let layout = compute_band_layout(2048, 44100.0);
    let mut bp = BandProcessor::new(&layout, 44100.0);
    let mut cut = [1.0f32; BANDS];
    cut[10] = 0.1;
    bp.set_gains(&cut, &[0.0f32; BANDS]);
    bp.set_oversampled(true);
    bp.set_oversampled(false);
    let y = bp.process_sample(0.5);
    assert!(y.is_finite(), "output must stay finite across toggles");
}

#[test]
fn biquad_peak_zero_db_is_identity() {
    let mut b = Biquad::identity();
    b.set_peak(1000.0, 1.0, 0.0, 44100.0);
    // After settling, a constant input should pass through at unity.
    let mut y = 0.0;
    for _ in 0..256 {
        y = b.process(1.0);
    }
    assert!((y - 1.0).abs() < 1e-5, "0 dB peak should be identity, got {y}");
}

#[test]
fn concentration_narrows_q_target() {
    // NOTE: with the real 20 Hz..20 kHz layout, LF bands (e.g. index 10
    // at ~60 Hz) have q_ceiling == q by design (ringing limit below the
    // nominal Q), so a boost there is intentionally inert. To isolate the
    // concentration->Q path at index 10, use a synthetic layout with
    // headroom at that index.
    let mut layout = compute_band_layout(2048, 44100.0);
    layout.q[10] = 2.0;
    layout.q_ceiling[10] = 12.0;
    let mut lo = BandProcessor::new(&layout, 44100.0);
    let mut hi = BandProcessor::new(&layout, 44100.0);
    let mut gains = [1.0f32; BANDS];
    gains[10] = 0.1;
    let conc_lo = [0.0f32; BANDS];
    let mut conc_hi = [0.0f32; BANDS];
    conc_hi[10] = 1.0;
    lo.set_gains(&gains, &conc_lo);
    hi.set_gains(&gains, &conc_hi);
    assert!(
        lo.ramp_to()[10] != hi.ramp_to()[10],
        "concentrated cut must narrow Q (different target coeffs)"
    );
    // And on the real layout a mid band with ceiling headroom also narrows.
    let real = compute_band_layout(2048, 44100.0);
    assert!(
        real.q_ceiling[40] > real.q[40],
        "mid band should have boost headroom"
    );
    let mut lo2 = BandProcessor::new(&real, 44100.0);
    let mut hi2 = BandProcessor::new(&real, 44100.0);
    let mut gains2 = [1.0f32; BANDS];
    gains2[40] = 0.1;
    let mut conc2 = [0.0f32; BANDS];
    conc2[40] = 1.0;
    lo2.set_gains(&gains2, &[0.0f32; BANDS]);
    hi2.set_gains(&gains2, &conc2);
    assert!(
        lo2.ramp_to()[40] != hi2.ramp_to()[40],
        "real-layout mid-band concentrated cut must narrow Q"
    );
}

#[test]
fn high_band_boost_hits_nominal_ceiling() {
    let layout = compute_band_layout(2048, 44100.0);
    let last = BANDS - 1;
    assert!(
        layout.q_ceiling[last] > 85.0,
        "top band ceiling should be near 90, got {}",
        layout.q_ceiling[last]
    );
    let mut bp = BandProcessor::new(&layout, 44100.0);
    let mut gains = [1.0f32; BANDS];
    gains[last] = 0.01;
    let mut conc = [0.0f32; BANDS];
    conc[last] = 1.0;
    bp.set_gains(&gains, &conc);
    let effective_q =
        (layout.q[last] * Q_BOOST_MAX).clamp(0.3, layout.q_ceiling[last]);
    assert!(
        (effective_q - 90.0).abs() < 6.0,
        "high-band effective Q should reach near 90, got {effective_q}"
    );
    // The stored target must match peak coeffs at the boosted Q.
    let gain_db = 20.0 * gains[last].max(1e-4).log10();
    let expected = peak_coeffs(layout.centers[last], effective_q, gain_db, 44100.0);
    for k in 0..5 {
        assert!(
            (bp.ramp_to()[last][k] - expected[k]).abs() < 1e-6,
            "ramp target must use boosted Q (coeff {k} mismatch)"
        );
    }
}

#[test]
fn lf_cut_ringing_decays_within_limit() {
    let sr = 44100.0;
    let layout = compute_band_layout(2048, sr);
    // Band nearest 200 Hz.
    let mut target = 0;
    let mut best = f32::MAX;
    for i in 0..BANDS {
        let d = (layout.centers[i] - 200.0).abs();
        if d < best {
            best = d;
            target = i;
        }
    }
    let mut bp = BandProcessor::new(&layout, sr);
    let mut gains = [1.0f32; BANDS];
    gains[target] = 0.01;
    let mut conc = [0.0f32; BANDS];
    conc[target] = 1.0;
    bp.set_gains(&gains, &conc);
    // Settle the 384-sample coefficient ramp with silence.
    for _ in 0..GAIN_RAMP_SAMPLES {
        bp.process_sample(0.0);
    }
    // Unit impulse then ~0.15 s of silence.
    bp.process_sample(1.0);
    let tail_len = (0.15 * sr) as usize;
    let mut tail = 0.0f32;
    for _ in 0..tail_len {
        tail = bp.process_sample(0.0);
    }
    assert!(
        tail.abs() < 1e-3,
        "LF ringing tail must decay below 1e-3 after 0.15 s, got {tail}"
    );
}
