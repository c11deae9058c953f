//! The suppressor from end to end, and its delay line.

use resovoid::arith::Arith;
use resovoid::csv::{format_depth_csv, DEPTH_CSV_HEADER};
use resovoid::dsp::analysis::{AnalysisFrame, Bin, Fourier};
use resovoid::dsp::suppressor::CROSSFADE_LEN;
use resovoid::dsp::BANDS;
use resovoid::single::Single;
use resovoid::text::NumberText;
use rtrb::{Producer, RingBuffer};

/// The machine's own arithmetic.
struct Machine;

fn s(x: f32) -> Single {
    Single(x.to_bits())
}

fn f(x: Single) -> f32 {
    f32::from_bits(x.0)
}

impl Arith for Machine {
    fn plus(a: Single, b: Single) -> Single {
        s(f(a) + f(b))
    }
    fn minus(a: Single, b: Single) -> Single {
        s(f(a) - f(b))
    }
    fn times(a: Single, b: Single) -> Single {
        s(f(a) * f(b))
    }
    fn over(a: Single, b: Single) -> Single {
        s(f(a) / f(b))
    }
    fn square(a: Single) -> Single {
        s(f(a).powi(2))
    }
    fn sqrt(a: Single) -> Single {
        s(f(a).sqrt())
    }
    fn exp(a: Single) -> Single {
        s(f(a).exp())
    }
    fn ln(a: Single) -> Single {
        s(f(a).ln())
    }
    fn log2(a: Single) -> Single {
        s(f(a).log2())
    }
    fn log10(a: Single) -> Single {
        s(f(a).log10())
    }
    fn pow(a: Single, b: Single) -> Single {
        s(f(a).powf(f(b)))
    }
    fn sin(a: Single) -> Single {
        s(f(a).sin())
    }
    fn cos(a: Single) -> Single {
        s(f(a).cos())
    }
    fn hypot(a: Single, b: Single) -> Single {
        s(f(a).hypot(f(b)))
    }
    fn of_count(n: usize) -> Single {
        s(n as f32)
    }
    fn flushes() -> bool {
        true
    }
}

fn bands_in(a: &[f32; BANDS]) -> [Single; BANDS] {
    a.map(s)
}

fn bands_out(a: &[Single; BANDS]) -> [f32; BANDS] {
    a.map(f)
}

/// The transform of `realfft`.
struct Transform(std::sync::Arc<dyn realfft::RealToComplex<f32>>);

impl Fourier for Transform {
    fn plan(size: usize) -> Self {
        Transform(realfft::RealFftPlanner::<f32>::new().plan_fft_forward(size))
    }

    fn forward(&self, input: &Vec<Single>, out: Vec<Bin>) -> Vec<Bin> {
        let mut samples: Vec<f32> = input.iter().map(|x| f(*x)).collect();
        let mut spectrum = self.0.make_output_vec();
        if self.0.process(&mut samples, &mut spectrum).is_err() {
            return out;
        }
        spectrum.iter().map(|c| Bin { re: s(c.re), im: s(c.im) }).collect()
    }
}

/// Numbers as the machine writes them.
struct Plain;

impl NumberText for Plain {
    fn fixed(v: Single, places: usize) -> String {
        format!("{:.*}", places, f(v))
    }

    fn parse(text: &str) -> Option<Single> {
        text.parse::<f32>().ok().map(s)
    }
}

struct DelayLine(resovoid::dsp::delay::DelayLine);

impl DelayLine {
    fn new(len: usize) -> Self {
        DelayLine(resovoid::dsp::delay::DelayLine::new(len))
    }

    fn push_pop(&mut self, x: f32) -> f32 {
        f(self.0.push_pop(s(x)))
    }

    fn reset(&mut self) {
        self.0.reset();
    }
}

fn linked_gains(a: &[f32; BANDS], b: &[f32; BANDS]) -> [f32; BANDS] {
    bands_out(&resovoid::dsp::suppressor::linked_gains(&bands_in(a), &bands_in(b)))
}

/// The parameters that the tests set; all others are as they come.
#[derive(Clone, Copy)]
struct DspParams {
    depth: f32,
    sharpness: f32,
    selectivity: f32,
    mix: f32,
    delta_mode: bool,
    stereo_linked: bool,
}

impl Default for DspParams {
    fn default() -> Self {
        let d = resovoid::dsp::suppressor::DspParams::default();
        DspParams {
            depth: f(d.depth),
            sharpness: f(d.sharpness),
            selectivity: f(d.selectivity),
            mix: f(d.mix),
            delta_mode: d.delta_mode,
            stereo_linked: d.stereo_linked,
        }
    }
}

struct ResonanceSuppressor(resovoid::dsp::suppressor::ResonanceSuppressor<Transform>);

impl ResonanceSuppressor {
    fn new(rate: f32, tx: Producer<AnalysisFrame>) -> Self {
        ResonanceSuppressor(resovoid::dsp::suppressor::ResonanceSuppressor::new::<Machine>(s(rate), tx))
    }

    fn set_params(&mut self, p: DspParams) {
        self.0.set_params(resovoid::dsp::suppressor::DspParams {
            depth: s(p.depth),
            sharpness: s(p.sharpness),
            selectivity: s(p.selectivity),
            mix: s(p.mix),
            delta_mode: p.delta_mode,
            stereo_linked: p.stereo_linked,
            ..resovoid::dsp::suppressor::DspParams::default()
        });
    }

    fn set_fft_size_index(&mut self, idx: usize) {
        self.0.set_fft_size_index(idx);
    }

    fn set_sample_rate(&mut self, rate: f32) {
        self.0.set_sample_rate::<Machine>(s(rate));
    }

    fn process_sample(&mut self, l: f32, r: f32) -> (f32, f32) {
        let out = self.0.process_sample::<Machine>(s(l), s(r));
        (f(out.0), f(out.1))
    }

    fn applied_gains(&self) -> [[f32; BANDS]; 2] {
        let g = self.0.applied_gains();
        [bands_out(&g[0]), bands_out(&g[1])]
    }

    fn latency(&self) -> usize {
        self.0.latency()
    }

    fn reset(&mut self) {
        self.0.reset();
    }
}

#[test]
fn delay_line_exact_n_sample_delay() {
    // An impulse fed in must emerge exactly `len` samples later.
    let mut dl = DelayLine::new(8);
    assert!((dl.push_pop(1.0) - 0.0).abs() < 1e-10);
    for _ in 0..7 {
        assert!((dl.push_pop(0.0) - 0.0).abs() < 1e-10);
    }
    // 8 samples after the impulse, it reappears.
    let out = dl.push_pop(0.0);
    assert!((out - 1.0).abs() < 1e-10, "impulse delayed by 8 samples");
    // And the line is empty again afterwards.
    assert!((dl.push_pop(0.0) - 0.0).abs() < 1e-10);
}

#[test]
fn delay_line_preserves_order_over_wrap() {
    let mut dl = DelayLine::new(4);
    // Push 1..=6 through a length-4 line; outputs lag inputs by 4.
    let mut outs = Vec::new();
    for v in [1.0, 2.0, 3.0, 4.0, 5.0, 6.0] {
        outs.push(dl.push_pop(v));
    }
    assert_eq!(outs, vec![0.0, 0.0, 0.0, 0.0, 1.0, 2.0]);
}

#[test]
fn delay_line_reset_clears_buffer() {
    let mut dl = DelayLine::new(4);
    dl.push_pop(1.0);
    dl.push_pop(2.0);
    dl.push_pop(3.0);
    dl.reset();
    // After reset, reading should return 0.0.
    let out = dl.push_pop(0.0);
    assert!((out - 0.0).abs() < 1e-10);
}

#[test]
fn delay_line_wraps_around_correctly() {
    let mut dl = DelayLine::new(4);
    // Fill the buffer: [1, 2, 3, 4], pos wraps to 0.
    for v in [1.0, 2.0, 3.0, 4.0] {
        dl.push_pop(v);
    }
    // Now pos=0, buf=[1,2,3,4]. Next read = pos = 0 → outputs 1.0.
    let out = dl.push_pop(5.0);
    assert!((out - 1.0).abs() < 1e-10);
    // pos=1, read=1 → outputs 2.0.
    let out = dl.push_pop(6.0);
    assert!((out - 2.0).abs() < 1e-10);
}

#[test]
fn crossfade_triggers_on_fft_size_change() {
    let (tx, _rx) = RingBuffer::<AnalysisFrame>::new(16);
    let mut sup = ResonanceSuppressor::new(44100.0, tx);
    assert_eq!(sup.0.crossfade_remaining(), 0);

    sup.set_fft_size_index(0); // 1024 (different from default 1 = 2048)
    assert_eq!(sup.0.crossfade_remaining(), CROSSFADE_LEN);
}

#[test]
fn crossfade_does_not_trigger_on_same_index() {
    let (tx, _rx) = RingBuffer::<AnalysisFrame>::new(16);
    let mut sup = ResonanceSuppressor::new(44100.0, tx);
    sup.set_fft_size_index(1); // same as default
    assert_eq!(sup.0.crossfade_remaining(), 0);
}

#[test]
fn crossfade_ramp_completes() {
    let (tx, _rx) = RingBuffer::<AnalysisFrame>::new(16);
    let mut sup = ResonanceSuppressor::new(44100.0, tx);
    sup.set_fft_size_index(0);
    assert_eq!(sup.0.crossfade_remaining(), CROSSFADE_LEN);

    // Process enough samples to exhaust the crossfade.
    for _ in 0..CROSSFADE_LEN {
        sup.process_sample(0.0, 0.0);
    }
    assert_eq!(sup.0.crossfade_remaining(), 0);
}

#[test]
fn crossfade_mutes_dry_discontinuity_on_switch() {
    let (tx, _rx) = RingBuffer::<AnalysisFrame>::new(16);
    let mut sup = ResonanceSuppressor::new(44100.0, tx);
    // Dry-only so the output would equal the input without the ramp.
    sup.set_params(DspParams {
        mix: 0.0,
        ..DspParams::default()
    });
    // Warm up so the delay line is full of signal.
    for _ in 0..4096 {
        sup.process_sample(1.0, 1.0);
    }
    sup.set_fft_size_index(0);
    // First sample after the switch: newly selected delay line is
    // zeroed, and the ramp gain is ~1/CROSSFADE_LEN, so the output must
    // be near silence rather than a full-scale dry click.
    let (l, r) = sup.process_sample(1.0, 1.0);
    assert!(l.abs() < 0.01, "switched output muted, got {l}");
    assert!(r.abs() < 0.01, "switched output muted, got {r}");
}

#[test]
fn crossfade_ramps_monotonically_to_full_level() {
    let (tx, _rx) = RingBuffer::<AnalysisFrame>::new(16);
    let mut sup = ResonanceSuppressor::new(44100.0, tx);
    sup.set_params(DspParams {
        mix: 0.0,
        ..DspParams::default()
    });
    for _ in 0..4096 {
        sup.process_sample(1.0, 1.0);
    }
    sup.set_fft_size_index(0);
    // Feed the new state's own delay line with DC so the underlying
    // dry signal is constant; observed output must rise monotonically
    // as the ramp gain goes 0 → 1.
    let mut prev = -1.0f32;
    for _ in 0..CROSSFADE_LEN {
        let (l, _) = sup.process_sample(1.0, 1.0);
        assert!(l + 1e-6 >= prev, "ramp must not dip: {l} after {prev}");
        prev = l;
    }
    assert_eq!(sup.0.crossfade_remaining(), 0);
}

#[test]
fn crossfade_applies_in_delta_mode() {
    let (tx, _rx) = RingBuffer::<AnalysisFrame>::new(16);
    let mut sup = ResonanceSuppressor::new(44100.0, tx);
    sup.set_params(DspParams {
        delta_mode: true,
        ..DspParams::default()
    });
    for _ in 0..4096 {
        sup.process_sample(1.0, 1.0);
    }
    sup.set_fft_size_index(0);
    let (l, r) = sup.process_sample(1.0, 1.0);
    assert!(l.abs() < 0.01, "delta output muted on switch, got {l}");
    assert!(r.abs() < 0.01, "delta output muted on switch, got {r}");
}

#[test]
fn reset_clears_crossfade() {
    let (tx, _rx) = RingBuffer::<AnalysisFrame>::new(16);
    let mut sup = ResonanceSuppressor::new(44100.0, tx);
    sup.set_fft_size_index(0);
    assert_eq!(sup.0.crossfade_remaining(), CROSSFADE_LEN);
    sup.reset();
    assert_eq!(sup.0.crossfade_remaining(), 0);
}

#[test]
fn set_sample_rate_triggers_crossfade() {
    let (tx, _rx) = RingBuffer::<AnalysisFrame>::new(16);
    let mut sup = ResonanceSuppressor::new(44100.0, tx);
    assert_eq!(sup.0.crossfade_remaining(), 0);
    sup.set_sample_rate(48000.0);
    assert_eq!(sup.0.crossfade_remaining(), CROSSFADE_LEN);
}

#[test]
fn linked_gains_takes_per_band_minimum() {
    let mut a = [1.0f32; BANDS];
    let mut b = [1.0f32; BANDS];
    a[3] = 0.5;
    b[3] = 0.8;
    a[7] = 0.9;
    b[7] = 0.2;
    let m = linked_gains(&a, &b);
    assert!((m[3] - 0.5).abs() < 1e-9, "left more aggressive wins");
    assert!((m[7] - 0.2).abs() < 1e-9, "right more aggressive wins");
    assert!((m[0] - 1.0).abs() < 1e-9, "unity elsewhere");
}

#[test]
fn stereo_link_couples_channels_end_to_end() {
    // One-sided resonance: loud sine left, silence right.
    let run = |linked: bool| -> [[f32; BANDS]; 2] {
        let (tx, _rx) = RingBuffer::<AnalysisFrame>::new(64);
        let mut sup = ResonanceSuppressor::new(44100.0, tx);
        sup.set_params(DspParams {
            depth: 1.0,
            selectivity: 1.0,
            stereo_linked: linked,
            ..DspParams::default()
        });
        for n in 0..16384 {
            let l = 0.5 * (2.0 * std::f32::consts::PI * 440.0 * n as f32 / 44100.0).sin();
            sup.process_sample(l, 0.0);
        }
        sup.applied_gains()
    };
    let linked = run(true);
    // Left channel must be reducing somewhere.
    assert!(
        linked[0].iter().any(|&g| g < 0.95),
        "left channel should reduce a 440 Hz resonance"
    );
    // Linked: both channels carry identical gains.
    for i in 0..BANDS {
        assert!(
            (linked[0][i] - linked[1][i]).abs() < 1e-9,
            "linked gains must match on both channels at band {i}"
        );
    }
    let indep = run(false);
    assert!(
        indep[0].iter().any(|&g| g < 0.95),
        "left channel should still reduce when unlinked"
    );
    assert!(
        indep[1].iter().all(|&g| (g - 1.0).abs() < 1e-3),
        "silent right channel must stay at unity when unlinked"
    );
}

#[test]
fn latency_matches_fft_size() {
    let (tx, _rx) = RingBuffer::<AnalysisFrame>::new(16);
    let mut sup = ResonanceSuppressor::new(44100.0, tx);
    assert_eq!(sup.latency(), 2048); // default index 1
    sup.set_fft_size_index(0);
    assert_eq!(sup.latency(), 1024);
    sup.set_fft_size_index(3);
    assert_eq!(sup.latency(), 8192);
}

// Vocal-like render through the full chain (analysis -> detector ->
// filters -> viz ring). Drains the EXISTING rtrb side channel and renders
// one CSV row per (frame, band) via the test-only `format_depth_csv`.
// No String/Vec/file IO runs on the audio thread: `process_sample` only
// performs fixed-size float stores + one wrapping counter increment.
#[test]
fn depth_chain_frames_carry_diagnostics_and_format_as_csv() {

    let sr = 44100.0;
    let (tx, mut rx) = RingBuffer::<AnalysisFrame>::new(64);
    let mut sup = ResonanceSuppressor::new(sr, tx);
    sup.set_params(DspParams {
        depth: 1.0,
        sharpness: 0.5,
        selectivity: 1.0, // low threshold so the resonance bites
        ..DspParams::default()
    });
    // Vocal-like stimulus: 220 Hz harmonic stack (f0 + 4 harmonics).
    let harm = [1.0, 0.6, 0.4, 0.3, 0.2];
    for n in 0..32768 {
        let t = n as f32 / sr;
        let mut x = 0.0;
        for (h, a) in harm.iter().enumerate() {
            x += a * (2.0 * std::f32::consts::PI * 220.0 * (h + 1) as f32 * t).sin();
        }
        x *= 0.4;
        // Sustained whistle resonance near 2.2 kHz to force reduction.
        x += 0.5 * (2.0 * std::f32::consts::PI * 2200.0 * t).sin();
        let _ = sup.process_sample(x, x);
        // Drain continuously so the small ring never drops frames.
        while rx.pop().is_ok() {}
    }
    // Final drain: collect the tail frames for CSV rendering.
    let mut frames = Vec::new();
    for n in 0..8192 {
        let t = (32768 + n) as f32 / sr;
        let mut x = 0.0;
        for (h, a) in harm.iter().enumerate() {
            x += a * (2.0 * std::f32::consts::PI * 220.0 * (h + 1) as f32 * t).sin();
        }
        x *= 0.4;
        x += 0.5 * (2.0 * std::f32::consts::PI * 2200.0 * t).sin();
        let _ = sup.process_sample(x, x);
        while let Ok(frame) = rx.pop() {
            frames.push(frame);
        }
    }
    assert!(!frames.is_empty(), "vocal render must emit viz frames");
    // Frame indices are monotonic (wrapping).
    for w in frames.windows(2) {
        assert_eq!(
            w[1].frame_idx,
            w[0].frame_idx.wrapping_add(1),
            "frame_idx must increment once per pushed frame"
        );
    }
    // Per-stage invariants on every band of every frame.
    for frame in &frames {
        for b in 0..BANDS {
            let ed = f(frame.effective_depth[b]);
            let rdb = f(frame.reduction_db[b]);
            let tg = f(frame.target_gain[b]);
            let sm = f(frame.reduction[b]);
            let gdb = f(frame.gain_db[b]);
            let q = f(frame.effective_q[b]);
            assert!(ed.is_finite(), "effective_depth finite");
            assert!((0.0..=1.0).contains(&ed), "effective_depth in 0..=1, got {ed}");
            assert!((0.0..=36.0).contains(&rdb), "reduction_db clamped, got {rdb}");
            assert!((0.0..=1.0).contains(&tg), "target_gain in 0..=1, got {tg}");
            assert!((0.0..=1.0 + 1e-6).contains(&sm), "smoothed_gain <= 1, got {sm}");
            // target_gain must equal 10^(-reduction_db/20) by construction.
            let expect_tg = 10.0f32.powf(-rdb / 20.0);
            assert!(
                (tg - expect_tg).abs() < 1e-4,
                "target_gain {tg} vs 10^(-{rdb}/20)={expect_tg}"
            );
            // gain_db must equal 20*log10(max(smoothed,1e-4)) within Q-path
            // tolerance (unity branch pins 0.0 exactly).
            let expect_gdb = 20.0 * sm.max(1e-4).log10();
            assert!(
                (gdb - expect_gdb).abs() < 1e-3,
                "gain_db {gdb} vs 20log10({sm})={expect_gdb}"
            );
            assert!(gdb <= 1e-6, "gain_db never positive, got {gdb}");
            assert!(q.is_finite() && q > 0.0, "effective_q positive, got {q}");
        }
    }
    // CSV shape: header + one row per (frame, band).
    let csv = format_depth_csv::<Plain>(&frames);
    let mut lines = csv.lines();
    assert_eq!(lines.next().unwrap(), DEPTH_CSV_HEADER);
    assert_eq!(csv.lines().count(), 1 + frames.len() * BANDS);
}
