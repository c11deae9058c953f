//! The detector against signals and settings with known outcomes.

use resovoid::arith::Arith;
use resovoid::dsp::{BANDS, MAX_NODES};
use resovoid::single::Single;

/// The machine's own arithmetic.
struct Machine;

fn s(x: f32) -> Single {
    Single(x.to_bits())
}

fn f(x: Single) -> f32 {
    f32::from_bits(x.0)
}

impl Arith for Machine {
    fn plus(a: Single, b: Single) -> Single {
        s(f(a) + f(b))
    }
    fn minus(a: Single, b: Single) -> Single {
        s(f(a) - f(b))
    }
    fn times(a: Single, b: Single) -> Single {
        s(f(a) * f(b))
    }
    fn over(a: Single, b: Single) -> Single {
        s(f(a) / f(b))
    }
    fn square(a: Single) -> Single {
        s(f(a).powi(2))
    }
    fn sqrt(a: Single) -> Single {
        s(f(a).sqrt())
    }
    fn exp(a: Single) -> Single {
        s(f(a).exp())
    }
    fn ln(a: Single) -> Single {
        s(f(a).ln())
    }
    fn log2(a: Single) -> Single {
        s(f(a).log2())
    }
    fn log10(a: Single) -> Single {
        s(f(a).log10())
    }
    fn pow(a: Single, b: Single) -> Single {
        s(f(a).powf(f(b)))
    }
    fn sin(a: Single) -> Single {
        s(f(a).sin())
    }
    fn cos(a: Single) -> Single {
        s(f(a).cos())
    }
    fn hypot(a: Single, b: Single) -> Single {
        s(f(a).hypot(f(b)))
    }
    fn of_count(n: usize) -> Single {
        s(n as f32)
    }
    fn flushes() -> bool {
        true
    }
}

fn bands_in(a: &[f32; BANDS]) -> [Single; BANDS] {
    a.map(s)
}

fn bands_out(a: &[Single; BANDS]) -> [f32; BANDS] {
    a.map(f)
}

const HARD_KNEE_DB: f32 = 0.5;
const SOFT_KNEE_DB: f32 = 9.0;
const BALLISTICS_ALPHA: f32 = 0.35;
const BALLISTICS_FREQ_REF: f32 = 1000.0;

#[derive(Clone, Copy)]
struct DetectParams {
    depth: f32,
    sharpness: f32,
    selectivity: f32,
    attack_ms: f32,
    release_ms: f32,
    soft_mode: bool,
    node_depths: [f32; MAX_NODES],
    node_freqs: [f32; MAX_NODES],
    node_shapes: [usize; MAX_NODES],
    node_enabled: [bool; MAX_NODES],
}

impl DetectParams {
    fn held(&self) -> resovoid::dsp::detector::DetectParams {
        resovoid::dsp::detector::DetectParams {
            depth: s(self.depth),
            sharpness: s(self.sharpness),
            selectivity: s(self.selectivity),
            attack_ms: s(self.attack_ms),
            release_ms: s(self.release_ms),
            soft_mode: self.soft_mode,
            node_depths: self.node_depths.map(s),
            node_freqs: self.node_freqs.map(s),
            node_shapes: self.node_shapes,
            node_enabled: self.node_enabled,
        }
    }
}

struct Detector(resovoid::dsp::detector::Detector);

impl Detector {
    fn new(hop: usize, rate: f32) -> Self {
        Detector(resovoid::dsp::detector::Detector::new::<Machine>(hop, s(rate)))
    }

    fn process_frame(
        &mut self,
        levels: &[f32; BANDS],
        p: &DetectParams,
        centers: &[f32; BANDS],
    ) -> [f32; BANDS] {
        bands_out(&self.0.process_frame::<Machine>(&bands_in(levels), &p.held(), &bands_in(centers)))
    }
}

fn node_shape(
    freq: f32,
    freqs: &[f32; MAX_NODES],
    depths: &[f32; MAX_NODES],
    shapes: &[usize; MAX_NODES],
    enabled: &[bool; MAX_NODES],
) -> f32 {
    f(resovoid::dsp::detector::node_shape::<Machine>(
        s(freq),
        &freqs.map(s),
        &depths.map(s),
        shapes,
        enabled,
    ))
}

fn spectral_median(levels: &[f32; BANDS]) -> [f32; BANDS] {
    bands_out(&resovoid::dsp::detector::spectral_median(&bands_in(levels)))
}

fn ballistics_scale(freq: f32, alpha: f32) -> f32 {
    f(resovoid::dsp::detector::ballistics_scale::<Machine>(s(freq), s(alpha)))
}

fn coef(ms: f32, frame_time: f32) -> f32 {
    f(resovoid::dsp::detector::coef::<Machine>(s(ms), s(frame_time)))
}

fn knee_reduction_db(excess: f32, k: f32, knee: f32) -> f32 {
    f(resovoid::dsp::detector::knee_reduction_db::<Machine>(s(excess), s(k), s(knee)))
}

/// Generate log-spaced band centers for tests.
fn test_centers() -> [f32; BANDS] {
    let f_min = 20.0_f32;
    let f_max = 20000.0_f32;
    let l_min = f_min.log10();
    let l_max = f_max.log10();
    let mut centers = [0.0f32; BANDS];
    for i in 0..BANDS {
        let t = i as f32 / (BANDS - 1) as f32;
        let l = l_min + t * (l_max - l_min);
        centers[i] = 10.0_f32.powf(l);
    }
    centers
}

fn params() -> DetectParams {
    DetectParams {
        depth: 1.0,
        sharpness: 1.0,
        selectivity: 0.0, // threshold = 12 dB
        attack_ms: 10.0,
        release_ms: 100.0,
        soft_mode: false,
        node_depths: [1.0; MAX_NODES],
        node_freqs: [200.0, 2000.0, 12000.0, 500.0, 1000.0, 4000.0, 8000.0, 16000.0],
        node_shapes: [0; MAX_NODES],
        node_enabled: [true, true, true, false, false, false, false, false],
    }
}

#[test]
fn suppresses_hot_band_reduces_others() {
    let mut det = Detector::new(2048, 44100.0);
    let centers = test_centers();
    // Establish a quiet spectral baseline first.
    let quiet = [-30.0f32; BANDS];
    for _ in 0..20 {
        det.process_frame(&quiet, &params(), &centers);
    }
    // A large transient above the baseline + threshold is caught.
    let mut levels = quiet;
    levels[10] = 40.0;

    let gains = det.process_frame(&levels, &params(), &centers);

    // Hot band gets attenuation (gain < 1).
    assert!(gains[10] < 1.0, "hot band should be reduced");
    assert!(gains[10] > 0.0, "gain stays positive");
    // A quiet band is left essentially untouched.
    assert!((gains[5] - 1.0).abs() < 1e-2, "quiet band unchanged");
}

#[test]
fn flat_spectrum_yields_unity_gain() {
    let mut det = Detector::new(2048, 44100.0);
    let centers = test_centers();
    let levels = [-60.0f32; BANDS]; // all below the 12 dB threshold
    let gains = det.process_frame(&levels, &params(), &centers);
    for g in gains.iter() {
        assert!((g - 1.0).abs() < 1e-3, "no reduction on quiet spectrum");
    }
}

#[test]
fn higher_selectivity_catches_more() {
    // Under spectral detection a single isolated peak at -120 would be caught at any
    // threshold (huge outlier vs median), so use a less extreme spectrum where
    // threshold distinction matters: flat at -10 dB, one band 10 dB hotter at 0 dB.
    let mut det_lo = Detector::new(2048, 44100.0);
    let mut det_hi = Detector::new(2048, 44100.0);
    let centers = test_centers();
    // Prime the smoothed spectral reference to the flat level.
    let flat = [-10.0f32; BANDS];
    for _ in 0..20 {
        det_lo.process_frame(&flat, &params(), &centers);
        det_hi.process_frame(&flat, &params(), &centers);
    }
    let mut levels = flat;
    levels[10] = 0.0; // 10 dB above median

    let mut p_lo = params();
    p_lo.selectivity = 0.0; // thr = 12 dB -> 10 dB excess not enough
    let mut p_hi = params();
    p_hi.selectivity = 1.0; // thr = 1 dB -> easily caught

    let g_lo = det_lo.process_frame(&levels, &p_lo, &centers)[10];
    let g_hi = det_hi.process_frame(&levels, &p_hi, &centers)[10];
    assert!(g_hi < 1.0, "high selectivity catches the band");
    assert!((g_lo - 1.0).abs() < 1e-3, "low selectivity misses the band");
}

#[test]
fn sustained_resonance_holds() {
    // Sustained resonance must stay suppressed, not recover after one attack period.
    let mut det = Detector::new(2048, 44100.0);
    let centers = test_centers();
    let quiet = [-30.0f32; BANDS];
    for _ in 0..20 {
        det.process_frame(&quiet, &params(), &centers);
    }
    let mut resonant = quiet;
    resonant[20] = 10.0; // strong narrow peak, >> median + thr

    let mut p = params();
    p.selectivity = 1.0; // thr = 1 dB so excess is large and unambiguous
    // First frame: should suppress
    let g1 = det.process_frame(&resonant, &p, &centers)[20];
    assert!(g1 < 0.9, "first frame should suppress sustained peak");

    // Hold the same resonance for many frames — old per-band baseline would
    // converge and release; spectral baseline must keep suppressing.
    let mut last = g1;
    for _ in 0..20 {
        last = det.process_frame(&resonant, &p, &centers)[20];
    }
    assert!(
        last < 0.9,
        "sustained peak must stay suppressed, got gain {last}"
    );
}

#[test]
fn broadband_flat_no_heavy_suppression() {
    // Pink-noise-like flat spectrum should not trigger heavy suppression.
    let mut det = Detector::new(2048, 44100.0);
    let centers = test_centers();
    let flat = [-20.0f32; BANDS];
    for _ in 0..20 {
        det.process_frame(&flat, &params(), &centers);
    }
    let gains = det.process_frame(&flat, &params(), &centers);
    for g in gains.iter() {
        assert!((g - 1.0).abs() < 5e-2, "flat broadband should not heavily suppress");
    }
}

#[test]
fn spectral_median_is_robust_to_outlier() {
    let mut levels = [-20.0f32; BANDS];
    levels[30] = 20.0;
    let med = spectral_median(&levels);
    // Median around the outlier still -20 (majority of window is -20)
    assert!((med[30] - (-20.0)).abs() < 1e-6);
    // Far from outlier median is also -20
    assert!((med[0] - (-20.0)).abs() < 1e-6);
}

#[test]
fn node_shape_returns_depth_at_anchor_freq() {
    let nf = [200.0, 2000.0, 12000.0, 500.0, 1000.0, 4000.0, 8000.0, 16000.0];
    let nd = [0.5, 0.8, 0.3, 1.0, 1.0, 1.0, 1.0, 1.0];
    let ns = [0; MAX_NODES]; // Bell
    let ne = [true, true, true, false, false, false, false, false];
    // At an anchor, coverage ≈ 1 so the result is the node average, which
    // is dominated by (but not exactly equal to) the anchor's depth:
    // the wider σ = 1.0 kernel lets neighboring nodes leak in a few
    // percent.  Tolerance loosened from 0.02 to 0.05 for the wider kernel.
    let shape_at_200 = node_shape(200.0, &nf, &nd, &ns, &ne);
    assert!(
        (shape_at_200 - 0.5).abs() < 0.05,
        "at 200 Hz anchor should be ~0.5, got {shape_at_200}"
    );
    let shape_at_2k = node_shape(2000.0, &nf, &nd, &ns, &ne);
    assert!(
        (shape_at_2k - 0.8).abs() < 0.05,
        "at 2 kHz anchor should be ~0.8, got {shape_at_2k}"
    );
    let shape_at_12k = node_shape(12000.0, &nf, &nd, &ns, &ne);
    assert!(
        (shape_at_12k - 0.3).abs() < 0.05,
        "at 12 kHz anchor should be ~0.3, got {shape_at_12k}"
    );
}

#[test]
fn node_shape_relaxes_to_neutral_far_from_anchors() {
    // INTENTIONALLY INVERTED vs the old
    // `node_shape_far_from_anchors_tracks_weighted_average` test: the old
    // test asserted the saturating behavior (all-zero depths far from
    // anchors → ~0.0, i.e. pinned to the nearest node's raw value).  The
    // neutral-blend fix deliberately changes this: far from every node,
    // coverage → 0 and the result must trend to neutral 1.0 *regardless*
    // of what the node depths are.
    let nf = [500.0, 1000.0, 2000.0, 4000.0, 8000.0, 12000.0, 16000.0, 18000.0];
    let ns = [0; MAX_NODES]; // Bell
    let ne = [true, true, true, false, false, false, false, false];

    // All-zero depths, far above every node: must be ~neutral, not ~0.0.
    let nd_zero = [0.0; MAX_NODES];
    let shape = node_shape(15000.0, &nf, &nd_zero, &ns, &ne);
    assert!(
        (shape - 1.0).abs() < 0.05,
        "all-zero depths far from anchors should relax to ~1.0, got {shape}"
    );

    // Varied depths, same far point: still ~neutral.
    let nd_varied = [0.2, 0.0, 0.7, 1.0, 1.0, 1.0, 1.0, 1.0];
    let shape = node_shape(15000.0, &nf, &nd_varied, &ns, &ne);
    assert!(
        (shape - 1.0).abs() < 0.05,
        "varied depths far from anchors should relax to ~1.0, got {shape}"
    );

    // Far below every node (20 Hz, >4 octaves under the lowest anchor):
    // total weight is ~numerical zero, same neutral result.
    let shape = node_shape(20.0, &nf, &nd_zero, &ns, &ne);
    assert!(
        (shape - 1.0).abs() < 0.01,
        "far-below-all-nodes should be neutral 1.0, got {shape}"
    );
}

#[test]
fn low_shelf_holds_down_below_anchor() {
    // Widen spacing so neighbors don't bleed into the shelf region.
    let nf = [200.0, 5000.0, 18000.0, 500.0, 1000.0, 4000.0, 8000.0, 16000.0];
    let nd = [0.0, 1.0, 1.0, 1.0, 1.0, 1.0, 1.0, 1.0]; // Low node at zero depth
    let ns = [1, 0, 0, 0, 0, 0, 0, 0]; // Low node = Low Shelf
    let ne = [true, true, true, false, false, false, false, false];

    // Well below the low-shelf anchor: full influence → 0.0.
    let shape_below = node_shape(50.0, &nf, &nd, &ns, &ne);
    assert!(
        shape_below < 0.05,
        "low shelf below anchor should be ~0.0, got {shape_below}"
    );
    // At the anchor: ~0.0 (coverage ≈ 1, anchor depth dominates).
    let shape_at = node_shape(200.0, &nf, &nd, &ns, &ne);
    assert!(
        shape_at < 0.05,
        "low shelf at anchor should be ~0.0, got {shape_at}"
    );
    // Above the anchor: Gaussian falloff returns toward neutral.
    let shape_above = node_shape(2000.0, &nf, &nd, &ns, &ne);
    assert!(
        shape_above > 0.6,
        "low shelf well above anchor should relax toward 1.0, got {shape_above}"
    );
}

#[test]
fn high_shelf_holds_down_above_anchor() {
    // Wide spacing; non-shelf nodes zeroed to isolate the high shelf.
    let nf = [200.0, 2000.0, 12000.0, 500.0, 1000.0, 4000.0, 8000.0, 16000.0];
    let nd = [1.0, 0.0, 0.0, 1.0, 1.0, 1.0, 1.0, 1.0];
    let ns = [0, 0, 2, 0, 0, 0, 0, 0]; // High node = High Shelf
    let ne = [true, true, true, false, false, false, false, false];

    // Well above the high-shelf anchor: full influence → 0.0.
    let shape_above = node_shape(20000.0, &nf, &nd, &ns, &ne);
    assert!(
        shape_above < 0.05,
        "high shelf above anchor should be ~0.0, got {shape_above}"
    );
    // At the anchor: ~0.0.
    let shape_at = node_shape(12000.0, &nf, &nd, &ns, &ne);
    assert!(
        shape_at < 0.05,
        "high shelf at anchor should be ~0.0, got {shape_at}"
    );
    // Below the anchor: 200 Hz is >5 octaves away from 12000 Hz,
    // so the shelf's Gaussian tail is negligible → neutral 1.0.
    let shape_below = node_shape(200.0, &nf, &nd, &ns, &ne);
    assert!(
        shape_below > 0.85,
        "high shelf well below anchor should relax toward 1.0, got {shape_below}"
    );
}

#[test]
fn mixed_shelf_and_bell_coexist() {
    let nf = [200.0, 2000.0, 10000.0, 500.0, 1000.0, 4000.0, 8000.0, 16000.0];
    let nd = [0.0, 0.5, 0.0, 1.0, 1.0, 1.0, 1.0, 1.0];
    let ns = [1, 0, 2, 0, 0, 0, 0, 0]; // Low=Low Shelf, Mid=Bell, High=High Shelf
    let ne = [true, true, true, false, false, false, false, false];

    // Low shelf below its anchor: attenuated.
    let shape_low = node_shape(50.0, &nf, &nd, &ns, &ne);
    assert!(shape_low < 0.1, "low shelf region should be attenuated, got {shape_low}");
    // Mid bell region: partially attenuated (~0.5 at anchor).
    let shape_mid = node_shape(2000.0, &nf, &nd, &ns, &ne);
    assert!(shape_mid < 0.7, "mid bell region should be attenuated, got {shape_mid}");
    // High shelf above its anchor: attenuated.
    let shape_high = node_shape(18000.0, &nf, &nd, &ns, &ne);
    assert!(shape_high < 0.3, "high shelf region should be attenuated, got {shape_high}");
}

#[test]
fn overlapping_shelves_average_in_shared_region() {
    // Low Shelf at 2000 Hz (depth 0.0) + High Shelf at 500 Hz (depth 1.0).
    // Between 500 and 2000 Hz both shelves hold w = 1.0, so total_weight
    // ≥ 2.0 → coverage clamped to 1.0 and the result is the true weighted
    // average of the two depths (not pulled toward neutral 1.0).
    //
    // Derived analytically from the node_shape formula (SIGMA = 1.0):
    let nf = [2000.0, 500.0, 12000.0, 4000.0, 8000.0, 100.0, 300.0, 16000.0];
    let nd = [0.0, 1.0, 1.0, 1.0, 1.0, 1.0, 1.0, 1.0];
    let ns = [1, 2, 0, 0, 0, 0, 0, 0]; // Low=Shelf, High=Shelf, High2=Bell
    let ne = [true, true, true, false, false, false, false, false];

    // At 1000 Hz: Low Shelf w=1.0 (below anchor), High Shelf w=1.0 (above anchor).
    // Bell at 12 kHz has negligible weight (~0.0016).
    // weighted_sum = 0.0*1.0 + 1.0*1.0 + 1.0*0.0016 = 1.0016
    // total_weight = 1.0 + 1.0 + 0.0016 = 2.0016
    // node_avg = 1.0016/2.0016 = 0.5004, coverage = 1.0
    let shape = node_shape(1000.0, &nf, &nd, &ns, &ne);
    assert!(
        (shape - 0.500406).abs() < 0.001,
        "overlap zone at 1000 Hz should average the two shelf depths, got {shape}"
    );
    // Must NOT be pulled toward neutral 1.0 — coverage is fully saturated.
    assert!(
        shape < 0.6,
        "overlap must stay near 0.5, not relax toward 1.0, got {shape}"
    );

    // At 500 Hz (High Shelf anchor): both shelves still w=1.0, Bell ~0.
    // Result ≈ 0.500007 — pure average of depths [0.0, 1.0].
    let shape_at_500 = node_shape(500.0, &nf, &nd, &ns, &ne);
    assert!(
        (shape_at_500 - 0.500007).abs() < 0.001,
        "at High Shelf anchor should be ~0.5, got {shape_at_500}"
    );

    // At 2000 Hz (Low Shelf anchor): both shelves still w=1.0, Bell ~0.035.
    // Result ≈ 0.508708 — slight Bell contamination pushes above 0.5.
    let shape_at_2k = node_shape(2000.0, &nf, &nd, &ns, &ne);
    assert!(
        (shape_at_2k - 0.508708).abs() < 0.005,
        "at Low Shelf anchor should be ~0.509, got {shape_at_2k}"
    );
}

#[test]
fn nested_shelves_boundary_no_nan_or_discontinuity() {
    // Low Shelf at 1000 Hz (depth 0.0) + High Shelf at 800 Hz (depth 0.7).
    // The High Shelf holds everything above 800 Hz at w=1.0.
    // The Low Shelf holds everything below 1000 Hz at w=1.0.
    // Between 800 and 1000 Hz both are w=1.0 — fully nested overlap.
    //
    // Derived analytically from the node_shape formula (SIGMA = 1.0):
    let nf = [1000.0, 800.0, 12000.0, 4000.0, 200.0, 100.0, 300.0, 16000.0];
    let nd = [0.0, 0.7, 1.0, 1.0, 1.0, 1.0, 1.0, 1.0];
    let ns = [1, 2, 0, 0, 0, 0, 0, 0]; // Low=Shelf, High=Shelf, High2=Bell
    let ne = [true, true, true, false, false, false, false, false];

    // 900 Hz: inside the nested overlap zone. Both shelves w=1.0.
    // Bell at 12 kHz: negligible (w ≈ 0.00093).
    // weighted_sum = 0.0*1.0 + 0.7*1.0 = 0.70093
    // total_weight = 2.00093, node_avg = 0.350291, coverage = 1.0
    let shape_900 = node_shape(900.0, &nf, &nd, &ns, &ne);
    assert!(
        (shape_900 - 0.350291).abs() < 0.001,
        "nested overlap at 900 Hz should be ~0.350, got {shape_900}"
    );
    assert!(
        shape_900 < 0.5,
        "must not relax toward neutral in overlap zone, got {shape_900}"
    );

    // 800 Hz: at the High Shelf anchor, inside Low Shelf's held region.
    // Both shelves w=1.0. Result ≈ 0.350162.
    let shape_800 = node_shape(800.0, &nf, &nd, &ns, &ne);
    assert!(
        (shape_800 - 0.350162).abs() < 0.001,
        "at High Shelf anchor should be ~0.350, got {shape_800}"
    );

    // 1000 Hz: at the Low Shelf anchor, inside High Shelf's held region.
    // Both shelves w=1.0. Result ≈ 0.350482.
    let shape_1000 = node_shape(1000.0, &nf, &nd, &ns, &ne);
    assert!(
        (shape_1000 - 0.350482).abs() < 0.001,
        "at Low Shelf anchor should be ~0.350, got {shape_1000}"
    );

    // Continuity check: no discontinuity at crossover boundaries.
    // The difference between adjacent samples must be small.
    let delta_800_900 = (shape_900 - shape_800).abs();
    let delta_900_1000 = (shape_1000 - shape_900).abs();
    assert!(
        delta_800_900 < 0.01,
        "no discontinuity between 800 and 900 Hz, delta = {delta_800_900}"
    );
    assert!(
        delta_900_1000 < 0.01,
        "no discontinuity between 900 and 1000 Hz, delta = {delta_900_1000}"
    );

    // 500 Hz: below both anchors. Low Shelf w=1.0, High Shelf Gaussian
    // tail w ≈ 0.795, Bell negligible.
    // Result ≈ 0.309951. Must be sane, no NaN.
    let shape_500 = node_shape(500.0, &nf, &nd, &ns, &ne);
    assert!(shape_500.is_finite(), "must not be NaN, got {shape_500}");
    assert!(
        (shape_500 - 0.309951).abs() < 0.005,
        "below both anchors should be ~0.310, got {shape_500}"
    );

    // 1500 Hz: above both anchors. High Shelf w=1.0, Low Shelf Gaussian
    // tail w ≈ 0.843, Bell ~0.011.
    // Result ≈ 0.383508. Must be sane, no NaN.
    let shape_1500 = node_shape(1500.0, &nf, &nd, &ns, &ne);
    assert!(shape_1500.is_finite(), "must not be NaN, got {shape_1500}");
    assert!(
        (shape_1500 - 0.383508).abs() < 0.005,
        "above both anchors should be ~0.384, got {shape_1500}"
    );
}

#[test]
fn disabled_node_contributes_zero_weight() {
    // A disabled node must be truly absent — not a neutral-depth anchor.
    // Compare: same slot layout, node 0 enabled vs disabled. With the
    // node disabled at 2000 Hz (depth 0.0), the curve there must relax
    // toward neutral instead of dipping to ~0.0.
    let nf = [200.0, 2000.0, 12000.0, 500.0, 1000.0, 4000.0, 8000.0, 16000.0];
    let nd = [1.0, 0.0, 1.0, 1.0, 1.0, 1.0, 1.0, 1.0];
    let ns = [0; MAX_NODES];
    let ne_on = [true, true, true, false, false, false, false, false];
    let ne_off = [true, false, true, false, false, false, false, false];

    let enabled = node_shape(2000.0, &nf, &nd, &ns, &ne_on);
    assert!(
        enabled < 0.1,
        "enabled zero-depth node should pull to ~0.0, got {enabled}"
    );
    let disabled = node_shape(2000.0, &nf, &nd, &ns, &ne_off);
    assert!(
        disabled > 0.9,
        "disabled node must vanish (relax to ~1.0), got {disabled}"
    );
}

#[test]
fn node_shape_interpolates_between_anchors() {
    // Default-spread anchors with all-zero depths: at the Low anchor the
    // result is ~0.0 (coverage ≈ 1), mid-gap it sags halfway back toward
    // neutral (~0.5: partial coverage of an all-zero average), and at the
    // far left edge (20 Hz, >3 octaves below the lowest node) it has
    // relaxed back to ~neutral.  No walls, no non-neutral plateaus.
    let nf = [200.0, 2000.0, 12000.0, 500.0, 1000.0, 4000.0, 8000.0, 16000.0];
    let nd = [0.0; MAX_NODES];
    let ns = [0; MAX_NODES]; // Bell
    let ne = [true, true, true, false, false, false, false, false];
    let shape_at_200 = node_shape(200.0, &nf, &nd, &ns, &ne);
    let shape_at_mid = node_shape(632.0, &nf, &nd, &ns, &ne);
    let shape_at_edge = node_shape(20.0, &nf, &nd, &ns, &ne);
    assert!(
        shape_at_200 < 0.05,
        "at 200 Hz should be near 0.0, got {shape_at_200}"
    );
    assert!(
        shape_at_200 < shape_at_mid && shape_at_mid < 0.7,
        "mid-gap should rise partway toward neutral, got {shape_at_mid}"
    );
    assert!(
        shape_at_edge > 0.9,
        "far left edge should relax to ~neutral, got {shape_at_edge}"
    );
}

#[test]
fn high_freq_band_converges_faster_than_low() {
    // Same sudden resonance, two identical detectors, one peaked low
    // (index 5, ≈35 Hz) and one peaked high (index 55, ≈8.3 kHz with the
    // log-spaced test centers). Frequency scaling must make the high band
    // reach the target in measurably fewer frames.
    //
    // Timing regime: hop 256 @ 44.1 kHz → frame_time ≈ 5.8 ms, attack 50 ms
    // so every band is *unsaturated* (τ_base > frame_time) and the per-band
    // τ spread actually shows up in `coef()`. (With the default 2048-hop /
    // 10 ms attack the followers saturate at 0.632 for all bands, which is
    // why existing tests are unaffected — verified, not assumed.)
    assert!(
        BALLISTICS_ALPHA > 0.0,
        "scaling must be active for this test, got α = {BALLISTICS_ALPHA}"
    );
    let centers = test_centers();
    assert!(
        centers[5] < BALLISTICS_FREQ_REF && centers[55] > BALLISTICS_FREQ_REF,
        "test bands must straddle f_ref: got {} Hz and {} Hz",
        centers[5],
        centers[55]
    );

    let mut p = params();
    p.selectivity = 1.0; // thr = 1 dB so the 40 dB peak is unambiguous
    p.attack_ms = 50.0;
    p.release_ms = 200.0;

    let quiet = [-30.0f32; BANDS];
    let mut resonant_lo = quiet;
    resonant_lo[5] = 10.0;
    let mut resonant_hi = quiet;
    resonant_hi[55] = 10.0;

    // Prime both detectors on quiet so baselines settle at -30 dB.
    let mut det_lo = Detector::new(256, 44100.0);
    let mut det_hi = Detector::new(256, 44100.0);
    for _ in 0..30 {
        det_lo.process_frame(&quiet, &p, &centers);
        det_hi.process_frame(&quiet, &p, &centers);
    }

    // Step the identical resonance and count frames to cross gain < 0.5
    // (target is ≈0.016 for a 39 dB excess, so 0.5 is solidly mid-flight).
    let frames_to_half = |det: &mut Detector, levels: &[f32; BANDS], band: usize| -> usize {
        for n in 1..=60 {
            let gains = det.process_frame(levels, &p, &centers);
            if gains[band] < 0.5 {
                return n;
            }
        }
        usize::MAX // never converged — test setup broken, fail loudly below
    };
    let lo_frames = frames_to_half(&mut det_lo, &resonant_lo, 5);
    let hi_frames = frames_to_half(&mut det_hi, &resonant_hi, 55);

    assert!(
        hi_frames <= 60 && lo_frames <= 60,
        "both bands must converge within 60 frames: hi={hi_frames} lo={lo_frames}"
    );
    assert!(
        hi_frames < lo_frames,
        "high band ({} Hz) must converge faster than low band ({} Hz): hi={hi_frames} frames lo={lo_frames} frames",
        centers[55],
        centers[5]
    );
    assert!(
        hi_frames + 2 <= lo_frames,
        "speedup must be measurable (≥2 frames), not a 1-frame rounding edge: hi={hi_frames} lo={lo_frames}"
    );
}

#[test]
fn ballistics_scaling_is_uniform_at_zero_alpha() {
    // α = 0 must reduce exactly to the old uniform-timing behavior:
    // every band's scale is 1.0, so every band's effective τ equals τ_base.
    for &f in &[20.0f32, 40.0, 100.0, 1000.0, 8000.0, 16000.0, 20000.0] {
        let s = ballistics_scale(f, 0.0);
        assert!(
            (s - 1.0).abs() < 1e-6,
            "α=0 must give scale 1.0 at {f} Hz, got {s}"
        );
    }
    // …and that identity flows through the real `coef()` math unchanged.
    let frame_time = 256.0 / 44100.0;
    for &ms in &[10.0f32, 25.0, 50.0, 100.0] {
        let uniform = coef(ms, frame_time);
        for &f in &[35.0f32, 1000.0, 8300.0] {
            let scaled = coef(ms * ballistics_scale(f, 0.0), frame_time);
            assert!(
                (scaled - uniform).abs() < 1e-9,
                "α=0 coef must equal uniform coef (ms={ms}, f={f}): {scaled} vs {uniform}"
            );
        }
    }
    // Guard the active default points the right way (would catch a flipped
    // ratio or a negative α): reference is unity, lows are slowed, highs
    // are quickened, monotonically.
    assert!(
        (ballistics_scale(BALLISTICS_FREQ_REF, BALLISTICS_ALPHA) - 1.0).abs() < 1e-6,
        "f_ref must map to scale 1.0"
    );
    let s_lo = ballistics_scale(40.0, BALLISTICS_ALPHA);
    let s_hi = ballistics_scale(16000.0, BALLISTICS_ALPHA);
    assert!(s_lo > 1.0, "40 Hz must be slowed (scale > 1), got {s_lo}");
    assert!(s_hi < 1.0, "16 kHz must be quickened (scale < 1), got {s_hi}");
    assert!(
        s_lo > s_hi,
        "scale must fall with frequency, got lo={s_lo} hi={s_hi}"
    );
}

#[test]
fn knee_reduction_is_c1_continuous() {
    // h=1e-4 keeps the O(h * k/knee) finite-difference bias below 1e-3 even
    // for the narrow hard knee (second derivative k/knee = 3 there).
    let h = 0.0001f32;
    for &(k, knee_db) in &[(1.5f32, SOFT_KNEE_DB), (1.5f32, HARD_KNEE_DB)] {
        let half = knee_db / 2.0;
        // Value at -half_knee is ~0.0.
        let at_lo = knee_reduction_db(-half, k, knee_db);
        assert!(
            at_lo.abs() < 1e-6,
            "k={k} knee={knee_db}: at -half expected ~0.0, got {at_lo}"
        );
        // Value at +half_knee equals k*half_knee within 1e-4.
        let at_hi = knee_reduction_db(half, k, knee_db);
        assert!(
            (at_hi - k * half).abs() < 1e-4,
            "k={k} knee={knee_db}: at +half expected {}, got {at_hi}",
            k * half
        );
        // Numerical derivative approaching -half from both sides matches.
        let d_lo_left =
            (knee_reduction_db(-half, k, knee_db) - knee_reduction_db(-half - h, k, knee_db)) / h;
        let d_lo_right =
            (knee_reduction_db(-half + h, k, knee_db) - knee_reduction_db(-half, k, knee_db)) / h;
        assert!(
            (d_lo_left - d_lo_right).abs() < 1e-3,
            "k={k} knee={knee_db}: derivative mismatch at -half: {d_lo_left} vs {d_lo_right}"
        );
        // Numerical derivative approaching +half from both sides matches.
        let d_hi_left =
            (knee_reduction_db(half, k, knee_db) - knee_reduction_db(half - h, k, knee_db)) / h;
        let d_hi_right =
            (knee_reduction_db(half + h, k, knee_db) - knee_reduction_db(half, k, knee_db)) / h;
        assert!(
            (d_hi_left - d_hi_right).abs() < 1e-3,
            "k={k} knee={knee_db}: derivative mismatch at +half: {d_hi_left} vs {d_hi_right}"
        );
    }
}

#[test]
fn knee_far_field_converges_between_modes() {
    let k = 1.5f32;
    let excess = 30.0f32;
    let hard = knee_reduction_db(excess, k, HARD_KNEE_DB);
    let soft = knee_reduction_db(excess, k, SOFT_KNEE_DB);
    assert!(
        (hard - soft).abs() < 1e-6,
        "far-field must converge: hard={hard} soft={soft}"
    );
    assert!(
        (hard - k * excess).abs() < 1e-4,
        "far-field equals k*excess: got {hard}"
    );
}


#[test]
fn gui_curve_matches_dsp_region_depth_bit_identical() {
    // Fixed node params exercising bells, both shelf kinds, and mixed
    // enabled/disabled slots — the same shapes the DSP loop and the GUI
    // loop both feed into the shared `node_shape` single source of truth.
    let nf = [200.0, 2000.0, 12000.0, 500.0, 1000.0, 4000.0, 8000.0, 16000.0];
    let nd = [0.2, 0.9, 0.1, 0.7, 0.4, 1.0, 0.0, 0.5];
    let nsh = [1, 0, 2, 0, 1, 2, 0, 0];
    let nen = [true, true, true, false, true, false, true, false];
    // Sample freqs spanning below/above anchors and shelf regions.
    let freqs = [50.0f32, 200.0, 1000.0, 2000.0, 8000.0, 18000.0];
    // Precomputed pin table: (freq, expected value, expected f32 bits).
    // Generated from the first run of this test (see PIN lines with
    // `-- --nocapture`); exact `==`/bits equality catches any silent
    // signature or math change in `node_shape`.
    const EXPECTED: [(f32, f32, u32); 6] = [
        (50.0, 0.3000002, 0x3E9999A0),
        (200.0, 0.30120212, 0x3E9A372A),
        (1000.0, 0.5688666, 0x3F11A13E),
        (2000.0, 0.6438931, 0x3F24D62E),
        (8000.0, 0.10583202, 0x3DD8BE75),
        (18000.0, 0.07013579, 0x3D8FA35A),
    ];
    for (i, f) in freqs.iter().enumerate() {
        // Same args the DSP loop and GUI loop use: repeated calls must be
        // exactly (bit-)identical, not merely approximate.
        let dsp = node_shape(*f, &nf, &nd, &nsh, &nen);
        let gui = node_shape(*f, &nf, &nd, &nsh, &nen);
        assert!(
            dsp == gui,
            "DSP and GUI region depth must be bit-identical at {f} Hz: dsp={dsp:?} gui={gui:?}"
        );
        assert!(dsp.is_finite(), "region depth must be finite at {f} Hz, got {dsp:?}");
        let (exp_freq, exp_val, exp_bits) = EXPECTED[i];
        assert!(
            *f == exp_freq,
            "pin table order drifted: freqs[{i}] = {f}, table has {exp_freq}"
        );
        assert!(
            dsp == exp_val,
            "bit-identity pin failed at {f} Hz: got {dsp:?}, table has {exp_val:?} (math or signature changed?)"
        );
        assert!(
            dsp.to_bits() == exp_bits,
            "bit-pattern pin failed at {f} Hz: got 0x{:08X}, table has 0x{exp_bits:08X}",
            dsp.to_bits()
        );
        println!("PIN node_shape({f}) = {dsp:?} bits=0x{:08X}", dsp.to_bits());
    }
}
