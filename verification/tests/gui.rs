//! What the editor shows and how it reacts, on given values.

use resovoid::arith::Arith;
use resovoid::csv::DebugEntry;
use resovoid::dsp::BANDS;
use resovoid::gui::theme::Rgb;
use resovoid::params::ResoVoidParams;
use resovoid::single::Single;
use resovoid::text::NumberText;

/// The machine's own arithmetic.
struct Machine;

fn s(x: f32) -> Single {
    Single(x.to_bits())
}

fn f(x: Single) -> f32 {
    f32::from_bits(x.0)
}

impl Arith for Machine {
    fn plus(a: Single, b: Single) -> Single {
        s(f(a) + f(b))
    }
    fn minus(a: Single, b: Single) -> Single {
        s(f(a) - f(b))
    }
    fn times(a: Single, b: Single) -> Single {
        s(f(a) * f(b))
    }
    fn over(a: Single, b: Single) -> Single {
        s(f(a) / f(b))
    }
    fn square(a: Single) -> Single {
        s(f(a).powi(2))
    }
    fn sqrt(a: Single) -> Single {
        s(f(a).sqrt())
    }
    fn exp(a: Single) -> Single {
        s(f(a).exp())
    }
    fn ln(a: Single) -> Single {
        s(f(a).ln())
    }
    fn log2(a: Single) -> Single {
        s(f(a).log2())
    }
    fn log10(a: Single) -> Single {
        s(f(a).log10())
    }
    fn pow(a: Single, b: Single) -> Single {
        s(f(a).powf(f(b)))
    }
    fn sin(a: Single) -> Single {
        s(f(a).sin())
    }
    fn cos(a: Single) -> Single {
        s(f(a).cos())
    }
    fn hypot(a: Single, b: Single) -> Single {
        s(f(a).hypot(f(b)))
    }
    fn of_count(n: usize) -> Single {
        s(n as f32)
    }
    fn flushes() -> bool {
        true
    }
}

fn bands_in(a: &[f32; BANDS]) -> [Single; BANDS] {
    a.map(s)
}

fn bands_out(a: &[Single; BANDS]) -> [f32; BANDS] {
    a.map(f)
}

/// Numbers as the machine writes them.
struct Plain;

impl NumberText for Plain {
    fn fixed(v: Single, places: usize) -> String {
        format!("{:.*}", places, f(v))
    }

    fn parse(text: &str) -> Option<Single> {
        text.parse::<f32>().ok().map(s)
    }
}

fn gr_tint(base: [u8; 3], gr_db: f32) -> [u8; 3] {
    let c = resovoid::gui::theme::gr_tint::<Machine>(Rgb::new(base[0], base[1], base[2]), s(gr_db));
    [c.r, c.g, c.b]
}

fn nearest_band(centers: &[f32; BANDS], freq: f32) -> usize {
    resovoid::gui::curve::nearest_band::<Machine>(&bands_in(centers), s(freq))
}

fn parse_knob_entry(text: &str, min: f32, max: f32) -> Option<f32> {
    resovoid::gui::knob::parse_knob_entry::<Plain>(text, s(min), s(max)).map(f)
}

fn format_debug_csv(log: &Vec<(u32, [f32; BANDS], [f32; BANDS], [f32; BANDS], [f32; BANDS])>) -> String {
    let log: Vec<DebugEntry> = log
        .iter()
        .map(|e| DebugEntry {
            hop: e.0,
            centers: bands_in(&e.1),
            levels: bands_in(&e.2),
            concentration: bands_in(&e.3),
            gains: bands_in(&e.4),
        })
        .collect();
    resovoid::csv::format_debug_csv::<Plain>(&log)
}

struct Theme;

impl Theme {
    fn light() -> resovoid::gui::theme::Theme {
        resovoid::gui::theme::Theme::light()
    }

    fn dark() -> resovoid::gui::theme::Theme {
        resovoid::gui::theme::Theme::dark()
    }

    fn luminance(c: Rgb) -> f32 {
        f(resovoid::gui::theme::Theme::luminance::<Machine>(c))
    }
}

fn log_centers() -> [f32; BANDS] {
    let mut c = [0.0f32; BANDS];
    for i in 0..BANDS {
        let t = i as f32 / (BANDS - 1) as f32;
        c[i] = 10.0_f32.powf(1.30103 + t * (4.30103 - 1.30103));
    }
    c
}

#[test]
fn gr_tint_zero_db_is_base() {
    let base = [200u8, 150, 100];
    assert_eq!(gr_tint(base, 0.0), base);
    assert_eq!(gr_tint(base, -1.0), base, "negative GR clamps to base");
}

#[test]
fn gr_tint_three_db_is_cyan() {
    let tint = gr_tint([255, 255, 255], 3.0);
    assert_eq!(tint, [10, 196, 182]);
}

#[test]
fn gr_tint_six_db_is_violet() {
    let tint = gr_tint([255, 255, 255], 6.0);
    assert_eq!(tint, [139, 92, 255]);
}

#[test]
fn gr_tint_clamps_beyond_six_db() {
    let tint = gr_tint([255, 255, 255], 20.0);
    assert_eq!(tint, [139, 92, 255]);
}

#[test]
fn nearest_band_exact_and_edges() {
    let c = log_centers();
    assert_eq!(nearest_band(&c, c[10]), 10);
    assert_eq!(nearest_band(&c, 1.0), 0, "below range clamps low");
    assert_eq!(nearest_band(&c, 1e9), BANDS - 1, "above range clamps high");
}

#[test]
fn nearest_band_degenerate_centers() {
    assert_eq!(nearest_band(&[0.0; BANDS], 1000.0), 0);
}

#[test]
fn themes_have_readable_contrast() {
    // Light: dark text on a bright page. Dark: bright text on a deep page.
    // Accent hues are shared so the spectrum/GR language never changes.
    let light = Theme::light();
    let dark = Theme::dark();
    assert!(Theme::luminance(light.text) < Theme::luminance(light.bg_page));
    assert!(Theme::luminance(dark.text) > Theme::luminance(dark.bg_page));
    assert!(Theme::luminance(dark.text_dim) > Theme::luminance(dark.bg_page));
    assert_eq!(light.cyan, dark.cyan);
    assert_eq!(light.violet, dark.violet);
    assert_ne!(light.card, dark.card);
    assert_ne!(light.bg_page, dark.bg_page);
}

#[test]
fn knob_reset_defaults_match_documented_values() {
    // Right-click reset pulls these via `Param::default_plain_value()`;
    // guard against copy-pasted wrong constants per knob.
    let p = ResoVoidParams::default();
    assert_eq!(f(p.depth), 0.5);
    assert_eq!(f(p.sharpness), 0.5);
    assert_eq!(f(p.selectivity), 0.5);
    assert_eq!(f(p.attack), 10.0);
    assert_eq!(f(p.release), 100.0);
    assert_eq!(f(p.mix), 1.0);
    assert_eq!(f(p.output_gain), 0.0);
}

#[test]
fn knob_text_entry_parses_and_clamps() {
    assert_eq!(parse_knob_entry("0.75", 0.0, 1.0), Some(0.75));
    assert_eq!(parse_knob_entry(" 10.0 ", 0.1, 50.0), Some(10.0));
    // Out-of-range input clamps instead of escaping [min, max].
    assert_eq!(parse_knob_entry("99.0", 0.0, 1.0), Some(1.0));
    assert_eq!(parse_knob_entry("-5.0", 0.0, 1.0), Some(0.0));
}

#[test]
fn knob_text_entry_rejects_garbage_without_panic() {
    assert_eq!(parse_knob_entry("", 0.0, 1.0), None);
    assert_eq!(parse_knob_entry("abc", 0.0, 1.0), None);
    assert_eq!(parse_knob_entry("1.0.0", 0.0, 1.0), None);
    assert_eq!(parse_knob_entry("NaN-ish!", -12.0, 12.0), None);
    // Infinities / NaN parse as f32 but must not corrupt the param:
    // they never compare usefully, so treat them as rejected.
    assert_eq!(parse_knob_entry("inf", 0.0, 1.0), None);
    assert_eq!(parse_knob_entry("NaN", 0.0, 1.0), None);
}

#[test]
fn debug_csv_formats_one_row_per_hop_band() {
        let log = vec![(7u32, [100.0; BANDS], [-20.0; BANDS], [0.5; BANDS], [0.8; BANDS])];
    let csv = format_debug_csv(&log);
    let mut lines = csv.lines();
    assert_eq!(lines.next().unwrap(), "hop,band,center_hz,level_db,concentration,gain_linear");
    let first = lines.next().unwrap();
    assert!(first.starts_with("7,0,100.000,-20.000,0.500000,0.800000"), "got {first}");
    assert_eq!(csv.lines().count(), 1 + BANDS);
    assert_eq!(format_debug_csv(&vec![]).lines().count(), 1);
}
