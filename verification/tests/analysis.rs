//! The analysis against signals with known spectra, and the layout of its bands.

use resovoid::arith::Arith;
use resovoid::dsp::analysis::{Bin, Fourier};
use resovoid::dsp::BANDS;
use resovoid::single::Single;

/// The machine's own arithmetic.
struct Machine;

fn s(x: f32) -> Single {
    Single(x.to_bits())
}

fn f(x: Single) -> f32 {
    f32::from_bits(x.0)
}

impl Arith for Machine {
    fn plus(a: Single, b: Single) -> Single {
        s(f(a) + f(b))
    }
    fn minus(a: Single, b: Single) -> Single {
        s(f(a) - f(b))
    }
    fn times(a: Single, b: Single) -> Single {
        s(f(a) * f(b))
    }
    fn over(a: Single, b: Single) -> Single {
        s(f(a) / f(b))
    }
    fn square(a: Single) -> Single {
        s(f(a).powi(2))
    }
    fn sqrt(a: Single) -> Single {
        s(f(a).sqrt())
    }
    fn exp(a: Single) -> Single {
        s(f(a).exp())
    }
    fn ln(a: Single) -> Single {
        s(f(a).ln())
    }
    fn log2(a: Single) -> Single {
        s(f(a).log2())
    }
    fn log10(a: Single) -> Single {
        s(f(a).log10())
    }
    fn pow(a: Single, b: Single) -> Single {
        s(f(a).powf(f(b)))
    }
    fn sin(a: Single) -> Single {
        s(f(a).sin())
    }
    fn cos(a: Single) -> Single {
        s(f(a).cos())
    }
    fn hypot(a: Single, b: Single) -> Single {
        s(f(a).hypot(f(b)))
    }
    fn of_count(n: usize) -> Single {
        s(n as f32)
    }
    fn flushes() -> bool {
        true
    }
}

fn bands_in(a: &[f32; BANDS]) -> [Single; BANDS] {
    a.map(s)
}

fn bands_out(a: &[Single; BANDS]) -> [f32; BANDS] {
    a.map(f)
}

/// The transform of `realfft`.
struct Transform(std::sync::Arc<dyn realfft::RealToComplex<f32>>);

impl Fourier for Transform {
    fn plan(size: usize) -> Self {
        Transform(realfft::RealFftPlanner::<f32>::new().plan_fft_forward(size))
    }

    fn forward(&self, input: &Vec<Single>, out: Vec<Bin>) -> Vec<Bin> {
        let mut samples: Vec<f32> = input.iter().map(|x| f(*x)).collect();
        let mut spectrum = self.0.make_output_vec();
        if self.0.process(&mut samples, &mut spectrum).is_err() {
            return out;
        }
        spectrum.iter().map(|c| Bin { re: s(c.re), im: s(c.im) }).collect()
    }
}

struct BandLayout {
    centers: [f32; BANDS],
    bin_lo: [usize; BANDS],
    bin_hi: [usize; BANDS],
    q: [f32; BANDS],
    q_ceiling: [f32; BANDS],
}

fn compute_band_layout(fft_size: usize, rate: f32) -> BandLayout {
    let l = resovoid::dsp::bands::compute_band_layout::<Machine>(fft_size, s(rate));
    BandLayout {
        centers: bands_out(&l.centers),
        bin_lo: l.bin_lo,
        bin_hi: l.bin_hi,
        q: bands_out(&l.q),
        q_ceiling: bands_out(&l.q_ceiling),
    }
}

struct BandAnalysis {
    levels: [f32; BANDS],
    concentration: [f32; BANDS],
}

struct AnalysisEngine(resovoid::dsp::analysis::AnalysisEngine<Transform>);

impl AnalysisEngine {
    fn new(fft_size: usize, rate: f32) -> Self {
        AnalysisEngine(resovoid::dsp::analysis::AnalysisEngine::new::<Machine>(fft_size, s(rate)))
    }

    fn centers(&self) -> [f32; BANDS] {
        bands_out(&self.0.bands().centers)
    }

    fn hop(&self) -> usize {
        self.0.hop()
    }

    fn process_sample(&mut self, x: f32) -> Option<BandAnalysis> {
        self.0.process_sample::<Machine>(s(x)).map(|a| BandAnalysis {
            levels: bands_out(&a.levels),
            concentration: bands_out(&a.concentration),
        })
    }

    fn reset(&mut self) {
        self.0.reset();
    }
}

#[test]
fn sine_tone_is_highly_concentrated() {
    let sr = 44100.0;
    let fft = 2048;
    let mut eng = AnalysisEngine::new(fft, sr);
    let centers = eng.centers();
    // Pick a mid-high band with enough bins for a clear peak-to-average.
    let target = 40;
    let freq = centers[target];
    let mut out = None;
    for n in 0..(fft * 2) {
        let x = (2.0 * std::f32::consts::PI * freq * n as f32 / sr).sin();
        if let Some(a) = eng.process_sample(x) {
            out = Some(a);
        }
    }
    let analysis = out.expect("sine must emit a frame");
    assert!(
        analysis.concentration[target] > 0.7,
        "sine at {} Hz should be concentrated, got {}",
        freq,
        analysis.concentration[target]
    );
}

#[test]
fn white_noise_is_unconcentrated() {
    let sr = 44100.0;
    let fft = 2048;
    let mut eng = AnalysisEngine::new(fft, sr);
    // Deterministic LCG white noise (no dev-dependency on rand).
    let mut state: u32 = 0x12345678;
    let mut next = || {
        state = state.wrapping_mul(1664525).wrapping_add(1013904223);
        ((state >> 8) as f32 / 8_388_608.0) * 2.0 - 1.0
    };
    let mut out = None;
    for _ in 0..(fft * 4) {
        if let Some(a) = eng.process_sample(next()) {
            out = Some(a);
        }
    }
    let analysis = out.expect("noise must emit a frame");
    let mean: f32 =
        analysis.concentration.iter().sum::<f32>() / BANDS as f32;
    // Bound follows the PAR window: under the 2-9 dB mapping the same
    // physical noise (mean PAR ~4.4 dB) reads ~0.34, so 0.3 would be a
    // false failure. Intent is unchanged - broadband stays well below
    // tonal material (sine reads 1.0, formant cluster ~0.79).
    assert!(
        mean < 0.45,
        "white noise mean concentration should be low, got {mean}"
    );
}

#[test]
fn formant_cluster_engages_q_boost() {
    // Vocal-formant proxy: 3-harmonic cluster with slight vibrato inside
    // one band. Under the old 2-12 dB window this read ~0.55 (Q mult
    // ~3.8x of 6x) - too weak to matter on real vocal renders. Under the
    // recalibrated 2-9 dB window it must read well into the upper range
    // so the Q-boost path actually engages on diffuse/formant material.
    let sr = 44100.0;
    let fft = 2048;
    let mut eng = AnalysisEngine::new(fft, sr);
    let centers = eng.centers();
    let target = 40;
    let f0 = centers[target];
    let mut out = None;
    for n in 0..(fft * 4) {
        let t = n as f32 / sr;
        let vib = 1.0 + 0.003 * (2.0 * std::f32::consts::PI * 5.0 * t).sin();
        let x = (2.0 * std::f32::consts::PI * f0 * vib * t).sin()
            + 0.7 * (2.0 * std::f32::consts::PI * f0 * 1.02 * vib * t).sin()
            + 0.5 * (2.0 * std::f32::consts::PI * f0 * 0.98 * vib * t).sin();
        if let Some(a) = eng.process_sample(x * 0.4) {
            out = Some(a);
        }
    }
    let analysis = out.expect("formant must emit a frame");
    assert!(
        analysis.concentration[target] > 0.65,
        "formant cluster at {} Hz should engage Q-boost, got {}",
        f0,
        analysis.concentration[target]
    );
}

#[test]
fn resonant_bump_is_partially_concentrated() {
    // Second diffuse-material proxy: white noise through a ringing
    // resonator at the band center. Must read clearly above the
    // broadband floor (white-noise mean ~0.34) without saturating like
    // a pure tone - the mid-range the recalibration was designed for.
    let sr = 44100.0;
    let fft = 2048;
    let eng = AnalysisEngine::new(fft, sr);
    let centers = eng.centers();
    let target = 40;
    let f0 = centers[target];
    let mut eng2 = AnalysisEngine::new(fft, sr);
    let mut state: u32 = 0xdeadbeef;
    let w0 = 2.0 * std::f32::consts::PI * f0 / sr;
    let r: f32 = 0.985;
    let c = w0.cos();
    let mut y1 = 0.0f32;
    let mut y2 = 0.0f32;
    let mut out2 = None;
    for _ in 0..(fft * 4) {
        state = state.wrapping_mul(1664525).wrapping_add(1013904223);
        let w = ((state >> 8) as f32 / 8_388_608.0) * 2.0 - 1.0;
        let y = w + 2.0 * r * c * y1 - r * r * y2;
        y2 = y1;
        y1 = y;
        if let Some(a) = eng2.process_sample(y * 0.05) {
            out2 = Some(a);
        }
    }
    let a2 = out2.expect("resonant noise must emit a frame");
    assert!(
        a2.concentration[target] > 0.4,
        "resonant bump at {} Hz should read above broadband floor, got {}",
        f0,
        a2.concentration[target]
    );
    assert!(
        a2.concentration[target] < 1.0,
        "resonant bump must not saturate like a pure tone, got {}",
        a2.concentration[target]
    );
}

#[test]
fn analysis_returns_none_until_window_fills() {
    let mut eng = AnalysisEngine::new(64, 44100.0);
    // Feed fewer than fft_size samples → should get None.
    for i in 0..63 {
        assert!(eng.process_sample(i as f32).is_none(), "None at sample {i}");
    }
}

#[test]
fn analysis_returns_some_on_window_completion() {
    let fft = 64;
    let mut eng = AnalysisEngine::new(fft, 44100.0);
    // Feed exactly fft_size samples.
    for i in 0..fft - 1 {
        assert!(eng.process_sample(i as f32).is_none());
    }
    // Last sample triggers the FFT.
    let result = eng.process_sample(0.0);
    assert!(result.is_some(), "should return Some after full window");
    let analysis = result.unwrap();
    assert_eq!(analysis.levels.len(), BANDS);
    // Levels should be finite (not NaN or inf).
    for &v in &analysis.levels {
        assert!(v.is_finite(), "level must be finite, got {v}");
    }
}

#[test]
fn analysis_overlaps_by_half_hop() {
    // 50% overlap: after the first full window, a frame is emitted every
    // hop = fft/2 samples, not every fft samples. This test replaces the
    // old non-overlapping-windows expectation.
    let fft = 32;
    let hop = fft / 2;
    let mut eng = AnalysisEngine::new(fft, 44100.0);
    assert_eq!(eng.hop(), hop);
    // First window → Some.
    for _ in 0..fft - 1 {
        eng.process_sample(0.0);
    }
    assert!(eng.process_sample(0.0).is_some());
    // Next hop-1 samples → None, then the overlapped frame → Some.
    for i in 0..hop - 1 {
        assert!(
            eng.process_sample(0.0).is_none(),
            "None during hop at sample {i}"
        );
    }
    assert!(
        eng.process_sample(0.0).is_some(),
        "overlapped frame expected after one hop of {hop}"
    );
}

#[test]
fn analysis_reset_clears_buffer() {
    let fft = 32;
    let mut eng = AnalysisEngine::new(fft, 44100.0);
    // Fill partway.
    for _ in 0..16 {
        eng.process_sample(1.0);
    }
    eng.reset();
    // After reset, we should need a full fft samples again.
    for i in 0..fft - 1 {
        assert!(eng.process_sample(0.0).is_none(), "None after reset at {i}");
    }
    assert!(eng.process_sample(0.0).is_some());
}

#[test]
fn analysis_dc_signal_levels_are_high() {
    let fft = 256;
    let mut eng = AnalysisEngine::new(fft, 44100.0);
    // A DC signal should put energy in the lowest band.
    for _ in 0..fft - 1 {
        eng.process_sample(1.0);
    }
    let analysis = eng.process_sample(1.0).unwrap();
    let levels = analysis.levels;
    // The lowest-frequency band should have significant energy.
    assert!(
        levels[0] > -20.0,
        "DC should register in band 0, got {}",
        levels[0]
    );
}

#[test]
fn layout_is_log_spaced_and_in_range() {
    let sr = 44100.0;
    let fft = 2048;
    let layout = compute_band_layout(fft, sr);

    // Lowest band starts at ~20 Hz; highest band stays below ~96% Nyquist
    // (capped at 20 kHz for 44.1 kHz).
    assert!((layout.centers[0] - 20.0).abs() < 1.0, "first center ~20 Hz");
    let nyquist = sr * 0.5;
    let expected_max = (nyquist * 0.96).min(20000.0);
    assert!(
        layout.centers[BANDS - 1] <= expected_max + 1.0,
        "last center within range"
    );

    // Centers must be strictly increasing (log spacing).
    for i in 1..BANDS {
        assert!(layout.centers[i] > layout.centers[i - 1]);
    }

    // Each band's bin range is well-formed and every Q is clamped.
    let half = fft / 2;
    for i in 0..BANDS {
        assert!(layout.bin_lo[i] < layout.bin_hi[i]);
        assert!(layout.bin_hi[i] <= half);
        assert!((0.3..=18.0).contains(&layout.q[i]), "q in bounds");
    }
}

#[test]
fn layout_scales_with_sample_rate() {
    let low = compute_band_layout(2048, 22050.0);
    let high = compute_band_layout(2048, 96000.0);
    // At higher sample rates the top band reaches higher frequencies.
    assert!(high.centers[BANDS - 1] > low.centers[BANDS - 1]);
}

#[test]
fn q_ceiling_covers_nominal_q_and_rises_with_frequency() {
    let layout = compute_band_layout(2048, 44100.0);
    for i in 0..BANDS {
        assert!(
            layout.q_ceiling[i] >= layout.q[i],
            "ceiling must cover nominal q at band {i}"
        );
    }
    assert!(
        layout.q_ceiling[0] < layout.q_ceiling[BANDS - 1],
        "lowest band ceiling ({}) must be meaningfully smaller than highest ({})",
        layout.q_ceiling[0],
        layout.q_ceiling[BANDS - 1]
    );
}
