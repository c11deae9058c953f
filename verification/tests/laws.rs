//! What holds of the signal path as a whole, on given values.

use resovoid::arith::Arith;
use resovoid::dsp::analysis::{make_hann, AnalysisEngine, AnalysisFrame, Bin, Fourier};
use resovoid::dsp::bands::compute_band_layout;
use resovoid::dsp::delay::DelayLine;
use resovoid::dsp::detector::{knee_reduction_db, node_shape, spectral_median, DetectParams, Detector};
use resovoid::dsp::filters::{
    enable_flush_to_zero, flush_denormal, peak_coeffs, BandProcessor, Biquad, Coeffs, GAIN_RAMP_SAMPLES,
    UNITY_FLOOR,
};
use resovoid::dsp::suppressor::{db_to_linear, DspParams, ResonanceSuppressor, CROSSFADE_LEN};
use resovoid::dsp::{BANDS, MAX_NODES};
use resovoid::params::ResoVoidParams;
use resovoid::plugin::ResoVoid;
use resovoid::single::Single;
use rtrb::RingBuffer;

/// The machine's own arithmetic.
struct Machine;

fn s(x: f32) -> Single {
    Single(x.to_bits())
}

fn f(x: Single) -> f32 {
    f32::from_bits(x.0)
}

impl Arith for Machine {
    fn plus(a: Single, b: Single) -> Single {
        s(f(a) + f(b))
    }
    fn minus(a: Single, b: Single) -> Single {
        s(f(a) - f(b))
    }
    fn times(a: Single, b: Single) -> Single {
        s(f(a) * f(b))
    }
    fn over(a: Single, b: Single) -> Single {
        s(f(a) / f(b))
    }
    fn square(a: Single) -> Single {
        s(f(a).powi(2))
    }
    fn sqrt(a: Single) -> Single {
        s(f(a).sqrt())
    }
    fn exp(a: Single) -> Single {
        s(f(a).exp())
    }
    fn ln(a: Single) -> Single {
        s(f(a).ln())
    }
    fn log2(a: Single) -> Single {
        s(f(a).log2())
    }
    fn log10(a: Single) -> Single {
        s(f(a).log10())
    }
    fn pow(a: Single, b: Single) -> Single {
        s(f(a).powf(f(b)))
    }
    fn sin(a: Single) -> Single {
        s(f(a).sin())
    }
    fn cos(a: Single) -> Single {
        s(f(a).cos())
    }
    fn hypot(a: Single, b: Single) -> Single {
        s(f(a).hypot(f(b)))
    }
    fn of_count(n: usize) -> Single {
        s(n as f32)
    }
    fn flushes() -> bool {
        true
    }
}

/// The transform of `realfft`.
struct Transform(std::sync::Arc<dyn realfft::RealToComplex<f32>>);

impl Fourier for Transform {
    fn plan(size: usize) -> Self {
        Transform(realfft::RealFftPlanner::<f32>::new().plan_fft_forward(size))
    }

    fn forward(&self, input: &Vec<Single>, out: Vec<Bin>) -> Vec<Bin> {
        let mut samples: Vec<f32> = input.iter().map(|x| f(*x)).collect();
        let mut spectrum = self.0.make_output_vec();
        if self.0.process(&mut samples, &mut spectrum).is_err() {
            return out;
        }
        spectrum.iter().map(|c| Bin { re: s(c.re), im: s(c.im) }).collect()
    }
}

/// The machine's arithmetic, on a machine that lets subnormal numbers pass.
struct Exact;

impl Arith for Exact {
    fn plus(a: Single, b: Single) -> Single {
        Machine::plus(a, b)
    }
    fn minus(a: Single, b: Single) -> Single {
        Machine::minus(a, b)
    }
    fn times(a: Single, b: Single) -> Single {
        Machine::times(a, b)
    }
    fn over(a: Single, b: Single) -> Single {
        Machine::over(a, b)
    }
    fn square(a: Single) -> Single {
        Machine::square(a)
    }
    fn sqrt(a: Single) -> Single {
        Machine::sqrt(a)
    }
    fn exp(a: Single) -> Single {
        Machine::exp(a)
    }
    fn ln(a: Single) -> Single {
        Machine::ln(a)
    }
    fn log2(a: Single) -> Single {
        Machine::log2(a)
    }
    fn log10(a: Single) -> Single {
        Machine::log10(a)
    }
    fn pow(a: Single, b: Single) -> Single {
        Machine::pow(a, b)
    }
    fn sin(a: Single) -> Single {
        Machine::sin(a)
    }
    fn cos(a: Single) -> Single {
        Machine::cos(a)
    }
    fn hypot(a: Single, b: Single) -> Single {
        Machine::hypot(a, b)
    }
    fn of_count(n: usize) -> Single {
        Machine::of_count(n)
    }
    fn flushes() -> bool {
        false
    }
}

/// A transform that always answers with too few bins.
struct Broken;

impl Fourier for Broken {
    fn plan(_size: usize) -> Self {
        Broken
    }

    fn forward(&self, _input: &Vec<Single>, _out: Vec<Bin>) -> Vec<Bin> {
        Vec::new()
    }
}

fn samples() -> Vec<f32> {
    let mut v = vec![
        0.0,
        -0.0,
        0.5,
        -0.5,
        0.49999997,
        1.0,
        -1.0,
        1.5,
        2.5,
        254.99,
        255.0,
        256.0,
        1e-40,
        -1e-40,
        1e-20,
        3.4e38,
        -3.4e38,
        8388607.5,
        16777216.0,
        2147483520.0,
        2147483648.0,
        -2147483648.0,
        4294967296.0,
        1.8446743e19,
        f32::INFINITY,
        f32::NEG_INFINITY,
        f32::NAN,
        f32::MIN_POSITIVE,
    ];
    let mut state: u32 = 1;
    for _ in 0..300 {
        state = state.wrapping_mul(1664525).wrapping_add(1013904223);
        v.push(f32::from_bits(state));
        v.push((state >> 8) as f32 / 16.0 - 1000.0);
    }
    v
}

#[test]
fn numbers_compare_as_the_machine_does() {
    let v = samples();
    for &a in &v {
        assert_eq!(s(a).is_nan(), a.is_nan());
        assert_eq!(s(a).is_finite(), a.is_finite());
        assert_eq!(s(a).is_subnormal(), a.is_subnormal());
        assert_eq!(s(a).abs().0, a.abs().to_bits());
        assert_eq!(s(a).negated().0, (-a).to_bits());
        assert_eq!(s(a).nearest_index(), a.round() as usize, "{a}");
        assert_eq!(s(a).nearest_int(), a.round() as i32, "{a}");
        assert_eq!(s(a).whole_byte(), a as u8, "{a}");
        assert_eq!(s(a).whole_index(), a as usize, "{a}");
        for &b in &v {
            assert_eq!(s(a).lt(s(b)), a < b, "{a} {b}");
            assert_eq!(s(a).le(s(b)), a <= b, "{a} {b}");
            let (m, n) = (f(s(a).max(s(b))), f(s(a).min(s(b))));
            assert!(m == a.max(b) || m.is_nan() && a.max(b).is_nan(), "{a} {b}");
            assert!(n == a.min(b) || n.is_nan() && a.min(b).is_nan(), "{a} {b}");
            if a <= b {
                let x = f(s(0.7).clamp(s(a), s(b)));
                assert_eq!(x, 0.7f32.clamp(a, b), "{a} {b}");
            }
        }
    }
}

#[test]
fn median_is_what_most_bands_say() {
    let mut levels = [s(-30.0); BANDS];
    for i in 20..26 {
        levels[i] = s(40.0);
    }
    // At most six bands of thirteen are loud, so none of them is the median.
    for (i, m) in spectral_median(&levels).iter().enumerate() {
        assert_eq!(f(*m), -30.0, "band {i}");
    }
    let rising: [Single; BANDS] = std::array::from_fn(|i| s(i as f32));
    let medians = spectral_median(&rising);
    assert_eq!(f(medians[30]), 30.0);
    assert_eq!(f(medians[0]), 3.0);
    assert_eq!(f(medians[BANDS - 1]), 60.0);
}

#[test]
fn deleted_nodes_leave_no_trace() {
    let freqs = [80.0, 300.0, 1000.0, 3500.0, 8500.0, 15000.0, 4000.0, 8000.0].map(s);
    let depths = [0.0, 0.2, 1.0, 0.5, 1.0, 0.0, 1.0, 1.0].map(s);
    let shapes = [1, 0, 0, 0, 0, 2, 0, 0];
    let mut enabled = [true; MAX_NODES];
    enabled[3] = false;
    let mut other_freqs = freqs;
    other_freqs[3] = s(123.0);
    let mut other_depths = depths;
    other_depths[3] = s(-7.0);
    let mut other_shapes = shapes;
    other_shapes[3] = 1;
    for hz in [30.0, 440.0, 3500.0, 19000.0] {
        assert_eq!(
            node_shape::<Machine>(s(hz), &freqs, &depths, &shapes, &enabled),
            node_shape::<Machine>(s(hz), &other_freqs, &other_depths, &other_shapes, &enabled)
        );
        let none = [false; MAX_NODES];
        assert_eq!(f(node_shape::<Machine>(s(hz), &freqs, &depths, &shapes, &none)), 1.0);
    }
}

#[test]
fn flushing_sets_two_bits_and_keeps_the_rest() {
    assert_eq!(enable_flush_to_zero(0), 0x8040);
    assert_eq!(enable_flush_to_zero(0x1f80), 0x9fc0);
    assert_eq!(enable_flush_to_zero(u32::MAX), u32::MAX);
    assert_eq!(f(flush_denormal::<Exact>(s(1e-40))), 0.0);
    assert_eq!(f(flush_denormal::<Machine>(s(1e-40))), 1e-40);
    assert_eq!(f(flush_denormal::<Exact>(s(-2.5))), -2.5);
}

#[test]
fn unity_is_the_identity_and_cuts_are_not() {
    let layout = compute_band_layout::<Machine>(2048, s(44100.0));
    let mut b = BandProcessor::new(layout, s(44100.0));
    let mut gains = [Single(UNITY_FLOOR); BANDS];
    gains[40] = s(0.1);
    b.set_gains::<Machine>(&gains, &[s(1.0); BANDS]);
    for i in 0..BANDS {
        if i != 40 {
            assert_eq!(b.ramp_target()[i], Coeffs::identity());
            assert_eq!(f(b.last_gain_db()[i]), 0.0);
            assert_eq!(b.last_effective_q()[i], layout.q[i]);
        }
    }
    assert_eq!(f(b.last_gain_db()[40]), -20.0);
    let q = (f(layout.q[40]) * 6.0).clamp(0.3, f(layout.q_ceiling[40]));
    assert_eq!(f(b.last_effective_q()[40]), q);
    let c = peak_coeffs::<Machine>(layout.centers[40], s(q), s(-20.0), s(44100.0));
    assert_eq!(b.ramp_target()[40], c);
}

#[test]
fn a_ramp_is_over_after_its_samples() {
    let layout = compute_band_layout::<Machine>(2048, s(44100.0));
    let mut ramped = BandProcessor::new(layout, s(44100.0));
    let mut gains = [s(1.0); BANDS];
    gains[50] = s(0.25);
    ramped.set_gains::<Machine>(&gains, &[s(0.0); BANDS]);
    for _ in 0..GAIN_RAMP_SAMPLES {
        ramped.process_sample::<Machine>(s(0.0));
    }
    // From here on the cascade is the one filter that cuts.
    let mut alone = Biquad::identity();
    alone.apply_coeffs(ramped.ramp_target()[50]);
    for n in 0..64 {
        let x = s(if n == 0 { 1.0 } else { 0.0 });
        let a = f(ramped.process_sample::<Machine>(x));
        let b = f(alone.process::<Machine>(x));
        assert!((a - b).abs() < 1e-5, "{a} {b}");
    }
}

#[test]
fn reset_filters_behave_like_new_ones() {
    let layout = compute_band_layout::<Machine>(1024, s(48000.0));
    let mut b = BandProcessor::new(layout, s(48000.0));
    b.set_gains::<Machine>(&[s(0.5); BANDS], &[s(0.5); BANDS]);
    for n in 0..100 {
        b.process_sample::<Machine>(s(n as f32 * 0.01));
    }
    b.reset();
    let mut fresh = BandProcessor::new(layout, s(48000.0));
    assert_eq!(b.last_gain_db(), fresh.last_gain_db());
    assert_eq!(b.last_effective_q(), fresh.last_effective_q());
    assert_eq!(b.ramp_target(), fresh.ramp_target());
    for n in 0..50 {
        let x = s((n as f32 * 0.3).sin());
        assert_eq!(b.process_sample::<Machine>(x), fresh.process_sample::<Machine>(x));
    }
}

#[test]
fn frames_come_once_a_window_is_full_and_then_every_hop() {
    for size in [1usize, 2, 3, 7, 32, 48] {
        let hop = (size / 2).max(1);
        let mut e = AnalysisEngine::<Transform>::new::<Machine>(size, s(44100.0));
        assert_eq!(e.hop(), hop);
        for k in 1..=4 * size {
            let due = k >= size && (k - size) % hop == 0;
            assert_eq!(e.process_sample::<Machine>(s(0.1)).is_some(), due, "size {size}, sample {k}");
        }
    }
}

#[test]
fn a_spectrum_of_the_wrong_length_counts_as_silence() {
    let mut e = AnalysisEngine::<Broken>::new::<Machine>(8, s(44100.0));
    let mut last = None;
    for _ in 0..8 {
        last = e.process_sample::<Machine>(s(1.0));
    }
    let a = last.unwrap();
    for b in 0..BANDS {
        assert_eq!(f(a.levels[b]), 20.0 * 1e-9f32.log10());
        assert_eq!(f(a.concentration[b]), 0.0);
    }
}

#[test]
fn delay_lines_give_back_what_they_were_fed() {
    let mut d = DelayLine::new(5);
    assert_eq!(d.len(), 5);
    for k in 0..23 {
        let out = d.push_pop(s(k as f32 + 1.0));
        assert_eq!(f(out), if k < 5 { 0.0 } else { k as f32 - 4.0 });
        assert_eq!(f(d.get(4)), k as f32 + 1.0);
    }
    assert_eq!(DelayLine::new(0).len(), 1);
}

#[test]
fn an_unreduced_signal_is_only_delayed() {
    let (tx, _rx) = RingBuffer::<AnalysisFrame>::new(16);
    let mut sup = ResonanceSuppressor::<Transform>::new::<Machine>(s(44100.0), tx);
    let mut p = DspParams::default();
    p.depth = s(0.0);
    sup.set_params(p);
    let signal: Vec<(f32, f32)> =
        (0..7000).map(|n| ((n as f32 * 0.05).sin() * 0.8, (n as f32 * 0.11).cos() * 0.3)).collect();
    for (k, x) in signal.iter().enumerate() {
        let out = sup.process_sample::<Machine>(s(x.0), s(x.1));
        if k >= sup.latency() {
            let then = signal[k - sup.latency()];
            assert_eq!((f(out.0), f(out.1)), then, "sample {k}");
        } else {
            assert_eq!((f(out.0), f(out.1)), (0.0, 0.0), "sample {k}");
        }
    }
}

/// Plays a loud tone and gives back what came in and what came out.
fn play(p: DspParams) -> (Vec<f32>, Vec<f32>) {
    let (tx, _rx) = RingBuffer::<AnalysisFrame>::new(16);
    let mut sup = ResonanceSuppressor::<Transform>::new::<Machine>(s(44100.0), tx);
    sup.set_params(p);
    let ins: Vec<f32> = (0..9000).map(|n| (n as f32 * 0.15).sin() * 0.9).collect();
    let outs = ins.iter().map(|x| f(sup.process_sample::<Machine>(s(*x), s(*x)).0)).collect();
    (ins, outs)
}

#[test]
fn without_mix_the_signal_is_only_delayed() {
    let mut p = DspParams::default();
    p.depth = s(1.0);
    let (ins, wet) = play(p);
    assert!((2048..9000).any(|k| wet[k] != ins[k - 2048]), "the tone is reduced");
    p.mix = s(0.0);
    let (ins, outs) = play(p);
    for k in 0..9000 {
        let then = if k < 2048 { 0.0 } else { ins[k - 2048] };
        assert_eq!(outs[k], then, "sample {k}");
    }
}

#[test]
fn no_band_is_ever_made_louder() {
    let (tx, mut rx) = RingBuffer::<AnalysisFrame>::new(64);
    let mut sup = ResonanceSuppressor::<Transform>::new::<Machine>(s(48000.0), tx);
    let mut p = DspParams::default();
    p.depth = s(1.0);
    p.sharpness = s(1.0);
    p.attack_ms = s(0.1);
    p.release_ms = s(1.0);
    let mut state: u32 = 7;
    for n in 0..40000 {
        p.soft_mode = n % 5000 < 2500;
        sup.set_params(p);
        state = state.wrapping_mul(1664525).wrapping_add(1013904223);
        let noise = (state >> 8) as f32 / 8388608.0 - 1.0;
        let x = if n == 17000 { f32::NAN } else { noise * 0.2 + (n as f32 * 0.13).sin() };
        sup.process_sample::<Machine>(s(x), s(noise));
        for g in sup.applied_gains().iter().flatten() {
            assert!((0.0..=1.0).contains(&f(*g)), "sample {n}: {}", f(*g));
        }
    }
    while let Ok(frame) = rx.pop() {
        for b in 0..BANDS {
            assert!((0.0..=36.0).contains(&f(frame.reduction_db[b])));
            assert!((0.0..=1.0).contains(&f(frame.target_gain[b])));
        }
    }
}

#[test]
fn bands_leave_no_gap() {
    for (size, rate) in [(1024, 44100.0), (8192, 96000.0), (64, 8000.0)] {
        let layout = compute_band_layout::<Machine>(size, s(rate));
        for i in 0..BANDS - 1 {
            assert!(layout.bin_lo[i + 1] <= layout.bin_hi[i], "{size}, band {i}");
        }
    }
}

#[test]
fn the_same_signal_comes_out_the_same() {
    let mut p = DspParams::default();
    p.depth = s(0.8);
    p.oversampling = true;
    assert_eq!(play(p).1, play(p).1);
}

#[test]
fn a_reset_forgets_what_was_heard() {
    let mut outs = Vec::new();
    for loud in [0.1, 0.9] {
        let (tx, _rx) = RingBuffer::<AnalysisFrame>::new(16);
        let mut sup = ResonanceSuppressor::<Transform>::new::<Machine>(s(44100.0), tx);
        for n in 0..5000 {
            sup.process_sample::<Machine>(s((n as f32 * 0.2).sin() * loud), s(loud));
        }
        sup.reset();
        let out: Vec<(Single, Single)> = (0..5000)
            .map(|n| sup.process_sample::<Machine>(s((n as f32 * 0.1).sin()), s(0.3)))
            .collect();
        outs.push(out);
    }
    assert_eq!(outs[0], outs[1]);
}

#[test]
fn what_is_not_taken_out_is_not_heard() {
    let mut p = DspParams::default();
    p.depth = s(0.0);
    p.delta_mode = true;
    let (_, outs) = play(p);
    assert!(outs.iter().all(|y| *y == 0.0));
    p.depth = s(1.0);
    let (_, outs) = play(p);
    assert!(outs.iter().any(|y| *y != 0.0));
}

#[test]
fn frames_are_numbered_and_dropped_when_nobody_reads() {
    let (tx, mut rx) = RingBuffer::<AnalysisFrame>::new(3);
    let mut sup = ResonanceSuppressor::<Transform>::new::<Machine>(s(44100.0), tx);
    sup.set_fft_size_index(0);
    // A window and five hops bring six frames, of which three fit.
    for _ in 0..1024 + 5 * 512 {
        sup.process_sample::<Machine>(s(0.2), s(-0.2));
    }
    let mut numbers = Vec::new();
    while let Ok(frame) = rx.pop() {
        assert_eq!(f(frame.sample_rate), 44100.0);
        numbers.push(frame.frame_idx);
    }
    assert_eq!(numbers, vec![0, 1, 2]);
    for _ in 0..512 {
        sup.process_sample::<Machine>(s(0.2), s(-0.2));
    }
    let frame = rx.pop().unwrap();
    assert_eq!(frame.frame_idx, 6);
    assert_eq!(frame.reduction, sup.applied_gains()[0]);
    sup.reset();
    for _ in 0..1024 {
        sup.process_sample::<Machine>(s(0.2), s(-0.2));
    }
    assert_eq!(rx.pop().unwrap().frame_idx, 0);
}

#[test]
fn parameters_are_held_to_their_ranges() {
    let (tx, _rx) = RingBuffer::<AnalysisFrame>::new(4);
    let mut wild = ResonanceSuppressor::<Transform>::new::<Machine>(s(44100.0), tx);
    let (tx, _rx) = RingBuffer::<AnalysisFrame>::new(4);
    let mut held = ResonanceSuppressor::<Transform>::new::<Machine>(s(44100.0), tx);
    let mut p = DspParams::default();
    p.depth = s(7.0);
    p.selectivity = s(3.0);
    p.attack_ms = s(-5.0);
    p.release_ms = s(0.0);
    p.mix = s(1.5);
    wild.set_params(p);
    p.depth = s(1.0);
    p.selectivity = s(1.0);
    p.attack_ms = s(0.1);
    p.release_ms = s(1.0);
    p.mix = s(1.0);
    held.set_params(p);
    for n in 0..6000 {
        let x = s((n as f32 * 0.2).sin());
        assert_eq!(wild.process_sample::<Machine>(x, x), held.process_sample::<Machine>(x, x));
    }
}

#[test]
fn a_fade_goes_from_silence_to_full_level() {
    let (tx, _rx) = RingBuffer::<AnalysisFrame>::new(4);
    let mut sup = ResonanceSuppressor::<Transform>::new::<Machine>(s(44100.0), tx);
    sup.set_sample_rate::<Machine>(s(44100.5));
    assert_eq!(sup.crossfade_remaining(), 0, "less than one is no change");
    sup.set_sample_rate::<Machine>(s(48000.0));
    sup.set_fft_size_index(17);
    assert_eq!(sup.latency(), 8192, "past the last size is the last one");
    for k in 0..CROSSFADE_LEN {
        assert_eq!(sup.crossfade_remaining(), CROSSFADE_LEN - k);
        sup.process_sample::<Machine>(s(0.0), s(0.0));
    }
    assert_eq!(sup.crossfade_remaining(), 0);
}

#[test]
fn decibels_become_factors() {
    assert_eq!(f(db_to_linear::<Machine>(s(0.0))), 1.0);
    assert_eq!(f(db_to_linear::<Machine>(s(20.0))), 10.0);
    assert_eq!(f(db_to_linear::<Machine>(s(-12.0))), 10f32.powf(-12.0 / 20.0));
}

#[test]
fn the_host_hears_of_the_latency_when_it_changes() {
    let (tx, _rx) = RingBuffer::<AnalysisFrame>::new(4);
    let mut plugin = ResoVoid::<Transform>::new::<Machine>(tx);
    assert_eq!(plugin.begin_block(1), None);
    assert_eq!(plugin.begin_block(3), Some(8192));
    assert_eq!(plugin.begin_block(9), None, "held to the last size");
    assert_eq!(plugin.begin_block(-4), Some(1024));
    assert_eq!(plugin.activate::<Machine>(s(48000.0), 2), 4096);
    assert_eq!(plugin.begin_block(2), None);
}

#[test]
fn one_channel_goes_to_both_sides() {
    let run = |channels: usize, first: f32, second: f32| -> Vec<(f32, f32)> {
        let (tx, _rx) = RingBuffer::<AnalysisFrame>::new(4);
        let mut plugin = ResoVoid::<Transform>::new::<Machine>(tx);
        let mut p = ResoVoidParams::default();
        p.depth = s(0.0);
        p.output_gain = s(6.0);
        plugin.begin_block(0);
        (0..2000)
            .map(|_| {
                let out = plugin.process_frame::<Machine>(&p, channels, s(first), s(second));
                (f(out.0), f(out.1))
            })
            .collect()
    };
    let gain = 10f32.powf(6.0 / 20.0);
    assert_eq!(run(1, 0.25, 0.75)[1999], (0.25 * gain, 0.25 * gain));
    assert_eq!(run(2, 0.25, 0.75)[1999], (0.25 * gain, 0.75 * gain));
    assert_eq!(run(0, 0.25, 0.75)[1999], (0.0, 0.0));
}

#[test]
fn a_reset_plugin_starts_over() {
    let (tx, mut rx) = RingBuffer::<AnalysisFrame>::new(64);
    let mut plugin = ResoVoid::<Transform>::new::<Machine>(tx);
    let p = ResoVoidParams::default();
    let play = |plugin: &mut ResoVoid<Transform>| -> Vec<Single> {
        (0..3000)
            .map(|n| {
                let x = s((n as f32 * 0.3).sin());
                plugin.process_frame::<Machine>(&p, 2, x, x).0
            })
            .collect()
    };
    let first = play(&mut plugin);
    plugin.reset();
    let second = play(&mut plugin);
    assert_eq!(first, second);
    let mut numbers = Vec::new();
    while let Ok(frame) = rx.pop() {
        numbers.push(frame.frame_idx);
    }
    assert_eq!(numbers, vec![0, 0]);
}

#[test]
fn half_overlapping_windows_add_up_to_one() {
    for n in [8, 1024] {
        let w = make_hann::<Machine>(n);
        for i in 0..n / 2 {
            assert!((f(w[i]) + f(w[i + n / 2]) - 1.0).abs() < 1e-5, "{n}: {i}");
        }
    }
    assert_eq!(f(make_hann::<Machine>(8)[4]), 1.0);
}

#[test]
fn delta_is_dry_less_wet() {
    let mut p = DspParams::default();
    p.depth = s(1.0);
    let (_, wet) = play(p);
    p.mix = s(0.0);
    let (_, dry) = play(p);
    p.mix = s(0.3);
    p.delta_mode = true;
    let (_, delta) = play(p);
    for k in 0..9000 {
        assert_eq!(delta[k], dry[k] - wet[k], "sample {k}");
    }
    assert!(delta.iter().any(|y| *y != 0.0));
}

fn fresh_suppressor(rate: f32) -> ResonanceSuppressor<Transform> {
    let (tx, _rx) = RingBuffer::<AnalysisFrame>::new(16);
    let mut sup = ResonanceSuppressor::<Transform>::new::<Machine>(s(rate), tx);
    let mut p = DspParams::default();
    p.depth = s(1.0);
    p.mix = s(0.7);
    sup.set_params(p);
    sup
}

#[test]
fn a_fade_touches_nothing_but_the_loudness() {
    let mut faded = fresh_suppressor(44100.0);
    let mut plain = fresh_suppressor(44100.0);
    let tone = |n: usize| (s((n as f32 * 0.15).sin() * 0.9), s((n as f32 * 0.4).cos() * 0.5));
    for n in 0..6000 {
        let (l, r) = tone(n);
        assert_eq!(faded.process_sample::<Machine>(l, r), plain.process_sample::<Machine>(l, r));
    }
    // There and back leaves the channels as they were, with a fade under way.
    faded.set_fft_size_index(0);
    faded.set_fft_size_index(1);
    for n in 6000..9000 {
        let (l, r) = tone(n);
        let k = n - 6000;
        let g = if k < CROSSFADE_LEN {
            assert_eq!(faded.crossfade_remaining(), CROSSFADE_LEN - k);
            1.0 - (CROSSFADE_LEN - 1 - k) as f32 / CROSSFADE_LEN as f32
        } else {
            1.0
        };
        let a = faded.process_sample::<Machine>(l, r);
        let b = plain.process_sample::<Machine>(l, r);
        assert_eq!((f(a.0), f(a.1)), (f(b.0) * g, f(b.1) * g), "sample {k}");
    }
}

#[test]
fn another_sample_rate_starts_over() {
    let mut sup = fresh_suppressor(44100.0);
    for n in 0..5000 {
        sup.process_sample::<Machine>(s((n as f32 * 0.2).sin()), s(0.4));
    }
    sup.set_sample_rate::<Machine>(s(48000.0));
    assert_eq!(sup.crossfade_remaining(), CROSSFADE_LEN);
    let mut fresh = fresh_suppressor(48000.0);
    for n in 0..7000 {
        let x = s((n as f32 * 0.15).sin());
        let a = sup.process_sample::<Machine>(x, x);
        let b = fresh.process_sample::<Machine>(x, x);
        if n >= CROSSFADE_LEN {
            assert_eq!(a, b, "sample {n}");
        } else {
            assert_eq!((f(a.0), f(b.0)), (0.0, 0.0));
        }
    }
}

#[test]
fn a_reset_suppressor_is_as_good_as_new() {
    for oversampling in [false, true] {
        let mut p = DspParams::default();
        p.depth = s(1.0);
        p.oversampling = oversampling;
        let mut sup = fresh_suppressor(44100.0);
        sup.set_params(p);
        for n in 0..5000 {
            sup.process_sample::<Machine>(s((n as f32 * 0.2).sin()), s(0.4));
        }
        sup.reset();
        let mut fresh = fresh_suppressor(44100.0);
        fresh.set_params(p);
        for n in 0..7000 {
            let x = s((n as f32 * 0.15).sin());
            assert_eq!(sup.process_sample::<Machine>(x, x), fresh.process_sample::<Machine>(x, x));
        }
    }
}

#[test]
fn channels_that_are_not_linked_ignore_each_other() {
    let run = |linked: bool, right: f32| -> Vec<Single> {
        let mut sup = fresh_suppressor(44100.0);
        let mut p = DspParams::default();
        p.depth = s(0.6);
        p.stereo_linked = linked;
        sup.set_params(p);
        (0..9000)
            .map(|n| {
                let l = s((n as f32 * 0.05).sin() * 0.2);
                sup.process_sample::<Machine>(l, s((n as f32 * 0.15).sin() * right)).0
            })
            .collect()
    };
    assert_eq!(run(false, 0.9), run(false, 0.0));
    assert_ne!(run(true, 0.9), run(true, 0.0));
    let swapped = |left: f32| -> Vec<Single> {
        let mut sup = fresh_suppressor(44100.0);
        let mut p = DspParams::default();
        p.stereo_linked = false;
        sup.set_params(p);
        (0..6000).map(|n| sup.process_sample::<Machine>(s(left), s((n as f32 * 0.1).sin())).1).collect()
    };
    assert_eq!(swapped(0.5), swapped(-0.1));
}

#[test]
fn blocks_may_be_cut_anywhere() {
    let run = |cuts: &[usize]| -> (Vec<Single>, Vec<Single>, Vec<Option<u32>>) {
        let (tx, _rx) = RingBuffer::<AnalysisFrame>::new(64);
        let mut plugin = ResoVoid::<Transform>::new::<Machine>(tx);
        let (mut left, mut right, mut told) = (Vec::new(), Vec::new(), Vec::new());
        let mut at = 0;
        for n in cuts {
            let mut first: Vec<Single> = (at..at + n).map(|i| s((i as f32 * 0.1).sin())).collect();
            let mut second: Vec<Single> = (at..at + n).map(|i| s((i as f32 * 0.03).cos())).collect();
            let params: Vec<ResoVoidParams> = (at..at + n)
                .map(|i| {
                    let mut p = ResoVoidParams::default();
                    p.mix = s(i as f32 / 3000.0);
                    p
                })
                .collect();
            told.push(plugin.process::<Machine>(0, &params, 2, &mut first, &mut second));
            left.extend(first);
            right.extend(second);
            at += n;
        }
        (left, right, told)
    };
    let whole = run(&[3000]);
    let cut = run(&[1, 0, 1023, 512, 1464]);
    assert_eq!((&whole.0, &whole.1), (&cut.0, &cut.1));
    assert_eq!(whole.2, vec![Some(1024)]);
    assert_eq!(cut.2, vec![Some(1024), None, None, None, None]);
    assert!(whole.0.iter().any(|y| f(*y) != 0.0));
}

#[test]
fn a_block_leaves_missing_channels_alone() {
    let (tx, _rx) = RingBuffer::<AnalysisFrame>::new(4);
    let mut plugin = ResoVoid::<Transform>::new::<Machine>(tx);
    let params: Vec<ResoVoidParams> = (0..3).map(|_| ResoVoidParams::default()).collect();
    let mut first = vec![s(0.5); 3];
    let mut second = vec![s(0.25); 3];
    assert_eq!(plugin.process::<Machine>(1, &params, 1, &mut first, &mut second), None);
    assert_eq!(first, vec![s(0.0); 3]);
    assert_eq!(second, vec![s(0.25); 3]);
}

#[test]
fn more_never_reduces_less() {
    for knee in [0.5, 9.0] {
        for e in -80..80 {
            let excess = e as f32 / 8.0;
            let mut last = 0.0;
            for k in 0..40 {
                let r = f(knee_reduction_db::<Machine>(s(excess), s(k as f32 / 20.0), s(knee)));
                assert!(r >= last, "{excess} dB at slope {k}");
                last = r;
            }
            let r = f(knee_reduction_db::<Machine>(s(excess), s(0.75), s(knee)));
            let louder = f(knee_reduction_db::<Machine>(s(excess + 0.125), s(0.75), s(knee)));
            assert!(louder >= r, "{excess} dB");
        }
    }
}

#[test]
fn bands_ascend() {
    for (size, rate) in [(1024, 44100.0), (8192, 96000.0), (64, 8000.0)] {
        let layout = compute_band_layout::<Machine>(size, s(rate));
        for i in 1..BANDS {
            assert!(f(layout.centers[i - 1]) <= f(layout.centers[i]), "{size}, band {i}");
            assert!(layout.bin_lo[i - 1] <= layout.bin_lo[i], "{size}, band {i}");
            assert!(layout.bin_hi[i - 1] <= layout.bin_hi[i], "{size}, band {i}");
        }
    }
    let layout = compute_band_layout::<Machine>(8192, s(96000.0));
    assert!(layout.bin_lo[0] <= layout.bin_lo[1] && layout.bin_hi[62] < layout.bin_hi[63]);
}

#[test]
fn the_window_size_moves_no_band() {
    let layout = compute_band_layout::<Machine>(1024, s(44100.0));
    for size in [2usize, 2048, 4096, 8192] {
        let other = compute_band_layout::<Machine>(size, s(44100.0));
        assert_eq!(layout.centers, other.centers, "{size}");
        assert_eq!(layout.q, other.q, "{size}");
        assert_eq!(layout.q_ceiling, other.q_ceiling, "{size}");
    }
    assert_ne!(layout.bin_hi, compute_band_layout::<Machine>(8192, s(44100.0)).bin_hi);
}

#[test]
fn a_higher_rate_reaches_no_lower() {
    let rates = [8000.0, 22050.0, 44100.0, 48000.0, 96000.0];
    for pair in rates.windows(2) {
        let low = compute_band_layout::<Machine>(2048, s(pair[0]));
        let high = compute_band_layout::<Machine>(1024, s(pair[1]));
        for i in 0..BANDS {
            assert!(f(low.centers[i]) <= f(high.centers[i]), "{} Hz, band {i}", pair[0]);
        }
    }
    let top = |rate: f32| f(compute_band_layout::<Machine>(2048, s(rate)).centers[63]);
    assert!(top(22050.0) < top(96000.0));
    assert_eq!(top(48000.0), top(96000.0));
}

#[test]
fn a_frame_is_of_its_last_window_alone() {
    let size = 64;
    let signal: Vec<f32> = (0..5 * size).map(|n| (n as f32 * 0.4).sin() + (n as f32 * 0.07).cos()).collect();
    let mut long = AnalysisEngine::<Transform>::new::<Machine>(size, s(44100.0));
    let mut last = None;
    for x in &signal {
        last = long.process_sample::<Machine>(s(*x));
    }
    let mut short = AnalysisEngine::<Transform>::new::<Machine>(size, s(44100.0));
    let mut only = None;
    for x in &signal[4 * size..] {
        only = short.process_sample::<Machine>(s(*x));
    }
    let (a, b) = (last.unwrap(), only.unwrap());
    assert_eq!(a.levels, b.levels);
    assert_eq!(a.concentration, b.concentration);
    assert!(a.levels.iter().any(|x| f(*x) > -60.0));
}

/// Parameters at full depth, with three nodes of the given depths.
fn with_nodes(depths: [f32; 3]) -> DetectParams {
    let mut p = DetectParams::default();
    p.depth = s(1.0);
    p.node_enabled = [false; MAX_NODES];
    for (j, depth) in depths.iter().enumerate() {
        p.node_enabled[j] = true;
        p.node_depths[j] = s(*depth);
        p.node_shapes[j] = j;
    }
    p
}

#[test]
fn node_depths_bound_what_they_give() {
    for depths in [[0.3, 0.8, 0.5], [0.0, 1.0, 1.0], [0.7, 0.7, 0.7], [1.0, 1.0, 1.0]] {
        let p = with_nodes(depths);
        let least = depths.iter().cloned().fold(1.0, f32::min);
        for n in 0..400 {
            let freq = 20.0 * 1000f32.powf(n as f32 / 400.0);
            let r = f(node_shape::<Machine>(s(freq), &p.node_freqs, &p.node_depths, &p.node_shapes, &p.node_enabled));
            assert!((least - 1.0 / 30000.0..=1.0).contains(&r), "{freq} Hz: {r}");
        }
    }
    let p = with_nodes([0.25, 0.25, 0.25]);
    let r = node_shape::<Machine>(s(80.0), &p.node_freqs, &p.node_depths, &p.node_shapes, &p.node_enabled);
    assert!((f(r) - 0.25).abs() < 1e-4);
}

/// A floor of 0 dB, with a peak of `peak` dB in every eighth band.
fn peaky(peak: f32) -> [Single; BANDS] {
    let mut levels = [s(0.0); BANDS];
    for i in (0..BANDS).step_by(8) {
        levels[i] = s(peak);
    }
    levels
}

#[test]
fn asking_for_more_leaves_no_more_gain() {
    let centers = compute_band_layout::<Machine>(2048, s(44100.0)).centers;
    let run = |p: DetectParams, peak: f32| -> [Single; BANDS] {
        let mut d = Detector::new::<Machine>(1024, s(44100.0));
        let mut start = with_nodes([0.5, 0.5, 0.5]);
        start.depth = s(0.4);
        d.process_frame::<Machine>(&peaky(30.0), &start, &centers);
        d.process_frame::<Machine>(&peaky(peak), &p, &centers)
    };
    for soft in [false, true] {
        for peak in [2.0, 8.0, 20.0, 40.0] {
            let mut p = with_nodes([0.2, 0.6, 0.4]);
            p.soft_mode = soft;
            p.depth = s(0.5);
            p.sharpness = s(0.3);
            let mut more = p;
            more.depth = s(0.8);
            let mut sharper = p;
            sharper.sharpness = s(0.9);
            let mut deeper = p;
            deeper.node_depths[0] = s(0.9);
            deeper.node_depths[2] = s(0.7);
            let before = run(p, peak);
            for q in [more, sharper, deeper] {
                let after = run(q, peak);
                for i in 0..BANDS {
                    assert!(f(after[i]) <= f(before[i]), "{peak} dB, band {i}");
                }
            }
            deeper.selectivity = s(f(p.selectivity) + 0.2);
            deeper.depth = s(0.7);
            let after = run(deeper, peak);
            for i in 0..BANDS {
                assert!(f(after[i]) <= f(before[i]) + 1.0 / 900.0, "{peak} dB, band {i}");
            }
        }
    }
    let mut p = with_nodes([0.2, 0.6, 0.4]);
    let shallow = run(p, 30.0);
    p.node_depths[0] = s(0.9);
    assert!(f(run(p, 30.0)[8]) < f(shallow[8]));
}

#[test]
fn more_selectivity_reduces_no_less() {
    let centers = compute_band_layout::<Machine>(2048, s(44100.0)).centers;
    let ask = |selectivity: f32, rest: f32, peak: f32, soft: bool| -> f32 {
        let mut d = Detector::new::<Machine>(1024, s(44100.0));
        let mut p = with_nodes([rest, 1.0, rest]);
        p.depth = s(rest);
        p.sharpness = s(rest);
        p.selectivity = s(selectivity);
        p.soft_mode = soft;
        d.process_frame::<Machine>(&peaky(peak), &p, &centers);
        f(d.last_reduction_db()[16])
    };
    let run = |selectivity: f32, peak: f32, soft: bool| ask(selectivity, 1.0, peak, soft);
    for soft in [false, true] {
        for peak in [4.0, 6.5, 8.5, 12.0, 30.0] {
            let (mut last, mut all) = (0.0, 0.0);
            for n in 0..=1000 {
                let x = n as f32 / 1000.0;
                let r = run(x, peak, soft);
                assert!(r >= last - 1.0 / 400.0, "{peak} dB at {n}");
                last = r;
                let r = ask(x, x, peak, soft);
                assert!(r >= all - 1.0 / 400.0, "{peak} dB at {n}");
                all = r;
            }
        }
    }
    assert!(run(1.0, 8.5, true) > run(0.0, 8.5, true) + 1.0);
    // The next selectivity may put the threshold up by one step of rounding, no further.
    let threshold = |x: f32| (1.0 - x) * 12.0 + x * 1.0;
    let x = 0.32244539f32;
    let next = f32::from_bits(x.to_bits() + 1);
    assert!(threshold(next) > threshold(x));
    assert!(threshold(next) - threshold(x) <= 1e-5);
}

#[test]
fn no_band_is_cut_by_more_than_36_db() {
    let centers = compute_band_layout::<Machine>(2048, s(44100.0)).centers;
    let mut d = Detector::new::<Machine>(1024, s(44100.0));
    let mut p = DetectParams::default();
    p.depth = s(1.0);
    p.sharpness = s(1.0);
    p.selectivity = s(1.0);
    p.attack_ms = s(0.1);
    p.release_ms = s(1.0);
    let floor = 10f32.powf(-36.0 / 20.0);
    let mut deepest: f32 = 1.0;
    for n in 0..200 {
        let peak = if n % 20 < 15 { 200.0 } else { 0.0 };
        for g in d.process_frame::<Machine>(&peaky(peak), &p, &centers) {
            assert!((floor..=1.0).contains(&f(g)), "frame {n}: {}", f(g));
            deepest = deepest.min(f(g));
        }
        for i in 0..BANDS {
            assert!((0.0..=36.0).contains(&f(d.last_reduction_db()[i])));
            assert!((floor..=1.0).contains(&f(d.last_target_gain()[i])));
        }
    }
    assert!(floor >= 0.0158 && deepest < 0.0159);
}

#[test]
fn no_depth_leaves_everything_as_it_is() {
    let centers = compute_band_layout::<Machine>(2048, s(44100.0)).centers;
    for depth in [0.0, -0.0] {
        let mut d = Detector::new::<Machine>(1024, s(44100.0));
        let mut p = with_nodes([0.3, 1.0, 0.0]);
        p.depth = s(depth);
        p.sharpness = s(1.0);
        p.selectivity = s(1.0);
        for n in 0..50 {
            p.soft_mode = n % 2 == 0;
            let gains = d.process_frame::<Machine>(&peaky(n as f32 * 10.0 - 100.0), &p, &centers);
            assert_eq!(gains, [s(1.0); BANDS], "frame {n}");
            assert_eq!(*d.last_target_gain(), [s(1.0); BANDS], "frame {n}");
            assert!(d.last_reduction_db().iter().all(|r| f(*r) == 0.0), "frame {n}");
        }
    }
    let mut p = DspParams::default();
    p.depth = s(0.0);
    p.oversampling = false;
    let (ins, outs) = play(p);
    for k in 2048..9000 {
        assert_eq!(outs[k], ins[k - 2048], "sample {k}");
    }
}

#[test]
fn reports_lie_where_they_can_be_shown() {
    let (tx, mut rx) = RingBuffer::<AnalysisFrame>::new(256);
    let mut sup = ResonanceSuppressor::<Transform>::new::<Machine>(s(44100.0), tx);
    let mut p = DspParams::default();
    p.depth = s(1.0);
    p.sharpness = s(1.0);
    p.node_depths[1] = s(0.4);
    let mut state: u32 = 11;
    for n in 0..40000 {
        p.oversampling = n % 9000 < 3000;
        sup.set_params(p);
        state = state.wrapping_mul(1664525).wrapping_add(1013904223);
        let noise = (state >> 8) as f32 / 8388608.0 - 1.0;
        sup.process_sample::<Machine>(s(noise * 0.1 + (n as f32 * 0.11).sin()), s(noise));
    }
    let (mut seen, mut cut) = (0, false);
    while let Ok(frame) = rx.pop() {
        seen += 1;
        for b in 0..BANDS {
            assert!((0.0..=1.0).contains(&f(frame.effective_depth[b])), "band {b}");
            assert!((0.0..=36.0).contains(&f(frame.reduction_db[b])), "band {b}");
            assert!((0.0..=1.0).contains(&f(frame.target_gain[b])), "band {b}");
            assert!((0.0..=1.0).contains(&f(frame.reduction[b])), "band {b}");
            assert!((0.0..=1.0).contains(&f(frame.concentration[b])), "band {b}");
            assert!(f(frame.gain_db[b]) <= 0.0, "band {b}");
            assert!(f(frame.effective_q[b]) >= 0.3 && f(frame.effective_q[b]).is_finite(), "band {b}");
            cut = cut || f(frame.gain_db[b]) < -1.0;
        }
    }
    assert!(seen > 30 && cut);
}

#[test]
fn the_reference_ignores_a_bands_own_level() {
    let centers = compute_band_layout::<Machine>(2048, s(44100.0)).centers;
    let run = |loud: f32| -> Single {
        let mut d = Detector::new::<Machine>(1024, s(44100.0));
        let mut p = DetectParams::default();
        p.depth = s(0.0);
        let mut levels = [s(-40.0); BANDS];
        levels[20] = s(loud);
        d.process_frame::<Machine>(&levels, &p, &centers);
        p.depth = s(1.0);
        levels[20] = s(30.0);
        d.process_frame::<Machine>(&levels, &p, &centers)[20]
    };
    assert_eq!(run(-30.0), run(10.0));
    assert!(f(run(10.0)) < 1.0);
}

#[test]
fn captured_texts_are_all_different() {
    let entries = resovoid::snapshot::capture_preset(&ResoVoidParams::default());
    for i in 0..entries.len() {
        for j in 0..i {
            assert_ne!(entries[i].0, entries[j].0);
        }
    }
}
