//! Presets in a folder that is kept in memory.

use resovoid::numbers::ZERO;
use resovoid::params::{
    fft_index, fft_label, fft_setup, param_key, IntegerSetup, NodeShape, ParamKey, ParamValue, ResoVoidParams, StereoLink, Unit,
    PARAM_COUNT,
};
use resovoid::presets::{
    delete_preset, file_name, list_presets, load_preset, path_for, presets_dir, save_preset, Preset,
};
use resovoid::single::Single;
use resovoid::snapshot::{apply_preset, capture_preset, decode, encode};

fn s(x: f32) -> Single {
    Single(x.to_bits())
}

fn f(x: Single) -> f32 {
    f32::from_bits(x.0)
}

fn dir() -> Vec<String> {
    vec!["tmp".to_string(), "presets".to_string()]
}

/// Files by their paths.
struct Folder(Vec<(Vec<String>, Preset)>);

impl Folder {
    fn save(&mut self, name: &str, values: Vec<(String, Single)>) {
        let plan = save_preset(dir(), name, values);
        assert_eq!(plan.dir, dir());
        self.0.retain(|e| e.0 != plan.path);
        self.0.push((plan.path, plan.preset));
    }

    fn load(&self, name: &str) -> Option<&Preset> {
        let path = load_preset(&dir(), name);
        self.0.iter().find(|e| e.0 == path).map(|e| &e.1)
    }

    fn delete(&mut self, name: &str) -> bool {
        let path = delete_preset(&dir(), name);
        let before = self.0.len();
        self.0.retain(|e| e.0 != path);
        self.0.len() < before
    }

    fn list(&self) -> Vec<String> {
        list_presets(Some(self.0.iter().map(|e| e.0[e.0.len() - 1].clone()).collect()))
    }
}

#[test]
fn roundtrip_save_load() {
    let mut folder = Folder(Vec::new());
    let values = vec![
        ("depth".to_string(), s(0.75)),
        ("nf0".to_string(), s(440.0)),
        ("delt".to_string(), s(1.0)),
    ];
    folder.save("warm", values.clone());

    let loaded = folder.load("warm").unwrap();
    assert_eq!(loaded.name, "warm");
    assert_eq!(loaded.values, values);
}

#[test]
fn list_finds_json_only() {
    let files = vec!["b.json".to_string(), "notes.txt".to_string(), "a.json".to_string()];
    let names = list_presets(Some(files));
    assert_eq!(names, vec!["a".to_string(), "b".to_string()]);
}

#[test]
fn list_missing_dir_is_empty() {
    assert!(list_presets(None).is_empty());
}

#[test]
fn name_sanitized_no_escape() {
    let dir = vec!["tmp".to_string(), "presets".to_string()];
    let p = path_for(&dir, "../evil:name/test");
    assert_eq!(p[p.len() - 1], "..evilnametest.json");
    // No separator survives in the file name.
    assert!(!p[p.len() - 1].contains(std::path::MAIN_SEPARATOR));
    assert_eq!(p[..2], dir[..]);
}

#[test]
fn load_missing_is_err() {
    let folder = Folder(Vec::new());
    assert!(folder.load("nope").is_none());
}

#[test]
fn delete_removes_file_and_listing() {
    let mut folder = Folder(Vec::new());
    folder.save("todelete", vec![("depth".to_string(), s(0.5))]);
    assert!(folder.list().contains(&"todelete".to_string()));
    assert!(folder.delete("todelete"));
    assert!(!folder.list().contains(&"todelete".to_string()));
    assert!(folder.load("todelete").is_none());
}

#[test]
fn delete_missing_is_err() {
    let mut folder = Folder(Vec::new());
    assert!(!folder.delete("nope"));
}

#[test]
fn delete_traversal_cannot_escape_dir() {
    let p = delete_preset(&dir(), "../evil");
    assert!(!p[p.len() - 1].contains(std::path::MAIN_SEPARATOR));
    assert_eq!(p[..2], dir()[..]);
    let mut folder = Folder(Vec::new());
    assert!(!folder.delete("../evil"));
}

#[test]
fn file_names_are_trimmed_and_never_empty() {
    assert_eq!(file_name("  warm pad \t"), "warm pad.json");
    assert_eq!(file_name(""), "untitled.json");
    assert_eq!(file_name(" / : \\ \0"), "untitled.json");
    assert_eq!(file_name("\u{3000}wide\u{a0}"), "wide.json");
    assert_eq!(file_name("caf\u{e9}"), "caf\u{e9}.json");
}

#[test]
fn names_that_differ_in_nothing_a_file_can_hold_share_a_file() {
    assert_eq!(file_name("warm"), file_name("  wa/rm "));
    assert_eq!(file_name(""), file_name("untitled"));
    assert_ne!(file_name("warm"), file_name("Warm"));
    assert_ne!(file_name("warm"), file_name("wa rm"));
}

#[test]
fn saving_under_a_listed_name_finds_the_same_file() {
    for stem in ["a", "two words", ".hidden", "x.y"] {
        let file = format!("{stem}.json");
        let names = list_presets(Some(vec![file.clone()]));
        assert_eq!(names, vec![stem.to_string()]);
        assert_eq!(file_name(&names[0]), file);
    }
}

#[test]
fn listing_sorts_and_skips_what_is_no_preset() {
    let files = [".json", "json", "b.JSON", "zeta.json", "Alpha.json", "alpha.json", "al.json", "x.json.bak"];
    let names = list_presets(Some(files.iter().map(|n| n.to_string()).collect()));
    assert_eq!(names, vec!["Alpha", "al", "alpha", "zeta"]);
}

#[test]
fn folder_depends_on_the_environment() {
    let some = |t: &str| Some(t.to_string());
    assert_eq!(presets_dir(true, some("A"), some("H")), vec!["A", "ResoVoid", "presets"]);
    assert_eq!(presets_dir(true, None, some("H")), vec!["H", ".config", "resovoid", "presets"]);
    assert_eq!(presets_dir(false, some("A"), some("H")), vec!["H", ".config", "resovoid", "presets"]);
    assert_eq!(presets_dir(false, some("A"), None), vec![".", "resovoid_presets"]);
}

fn varied() -> ResoVoidParams {
    let mut p = ResoVoidParams::default();
    p.depth = s(0.125);
    p.release = s(321.5);
    p.output_gain = s(-3.25);
    p.fft_size = 3;
    p.soft_mode = true;
    p.oversampling = true;
    p.node_depths[4] = s(0.3);
    p.node_freqs[7] = s(9876.5);
    p.node_enabled[0] = false;
    p.node_enabled[7] = true;
    p.node_shapes[1] = NodeShape::HighShelf;
    p.node_shapes[6] = NodeShape::LowShelf;
    p.stereo_link = StereoLink::Independent;
    p
}

#[test]
fn captured_parameters_come_back() {
    let p = varied();
    let values = capture_preset(&p);
    assert_eq!(values.len(), PARAM_COUNT);
    let mut now = ResoVoidParams::default();
    for (key, value) in apply_preset(&values) {
        now.change(key, value);
    }
    for k in 0..PARAM_COUNT {
        assert_eq!(now.value(param_key(k)), p.value(param_key(k)));
    }
}

#[test]
fn presets_hold_every_parameter_under_its_own_text() {
    let values = capture_preset(&ResoVoidParams::default());
    let ids: Vec<&str> = values.iter().map(|e| e.0.as_str()).collect();
    let expected = [
        "depth", "sharp", "sel", "atk", "rel", "mix", "out", "node0", "node1", "node2", "node3", "node4",
        "node5", "node6", "node7", "nf0", "nf1", "nf2", "nf3", "nf4", "nf5", "nf6", "nf7", "fft", "mode",
        "delt", "os2x", "nen0", "nen1", "nen2", "nen3", "nen4", "nen5", "nen6", "nen7", "nsh0", "nsh1",
        "nsh2", "nsh3", "nsh4", "nsh5", "nsh6", "nsh7", "slnk",
    ];
    assert_eq!(ids, expected);
    let of = |id: &str| f(values.iter().find(|e| e.0 == id).unwrap().1);
    assert_eq!(of("nf0"), 80.0);
    assert_eq!(of("nsh5"), 2.0);
    assert_eq!(of("nen6"), 0.0);
    assert_eq!(of("fft"), 1.0);
    assert_eq!(of("slnk"), 0.0);
}

#[test]
fn unknown_entries_are_passed_over_and_missing_ones_stay() {
    let values = vec![
        ("reverb".to_string(), s(9.0)),
        ("mix".to_string(), s(0.25)),
        ("mix".to_string(), s(0.75)),
    ];
    assert_eq!(apply_preset(&values), vec![(ParamKey::Mix, ParamValue::Number(s(0.25)))]);
    assert!(apply_preset(&Vec::new()).is_empty());
}

#[test]
fn numbers_are_read_as_the_parameter_needs_them() {
    assert_eq!(decode(ParamKey::FftSize, s(2.4)), ParamValue::Integer(2));
    assert_eq!(decode(ParamKey::FftSize, s(-7.0)), ParamValue::Integer(0));
    assert_eq!(decode(ParamKey::FftSize, s(1e9)), ParamValue::Integer(3));
    assert_eq!(decode(ParamKey::FftSize, s(f32::NAN)), ParamValue::Integer(0));
    assert_eq!(decode(ParamKey::Delta, s(0.5)), ParamValue::Flag(false));
    assert_eq!(decode(ParamKey::Delta, s(0.51)), ParamValue::Flag(true));
    assert_eq!(decode(ParamKey::NodeShape(2), s(1.6)), ParamValue::Shape(NodeShape::HighShelf));
    assert_eq!(decode(ParamKey::NodeShape(2), s(3.0)), ParamValue::Shape(NodeShape::Bell));
    assert_eq!(decode(ParamKey::StereoLink, s(0.6)), ParamValue::Link(StereoLink::Independent));
    assert_eq!(decode(ParamKey::StereoLink, s(2.0)), ParamValue::Link(StereoLink::Linked));
    assert_eq!(decode(ParamKey::Depth, s(0.4)), ParamValue::Number(s(0.4)));
    assert_eq!(encode(ParamValue::Shape(NodeShape::LowShelf)), s(1.0));
    assert_eq!(encode(ParamValue::Flag(false)), Single(ZERO));
}

#[test]
fn window_sizes_are_labelled() {
    let labels: Vec<String> = (0..4).map(fft_label).collect();
    assert_eq!(labels, vec!["1024", "2048", "4096", "8192"]);
    assert_eq!(fft_label(4), "4");
    assert_eq!(fft_label(-12), "-12");
    assert_eq!(fft_label(i32::MIN), "-2147483648");
    assert_eq!([fft_index(-1), fft_index(2), fft_index(99)], [0, 2, 3]);
}

#[test]
fn parameters_have_names_and_units() {
    assert_eq!(ParamKey::NodeDepth(0).name(), "Node Depth 1");
    assert_eq!(ParamKey::NodeShape(7).name(), "Node Shape 8");
    assert_eq!(ParamKey::FftSize.name(), "FFT Size");
    assert_eq!(ParamKey::Attack.setup().unit, Unit::Milliseconds);
    assert_eq!(Unit::Hertz.suffix(), " Hz");
    assert_eq!(f(ParamKey::NodeFreq(3).setup().default), 3500.0);
    assert_eq!(f(ParamKey::Release.setup().default), 100.0);
    let knobs = [
        (ParamKey::Depth, 0.5, 0.0, 1.0),
        (ParamKey::Sharpness, 0.5, 0.0, 1.0),
        (ParamKey::Selectivity, 0.5, 0.0, 1.0),
        (ParamKey::Attack, 10.0, 0.1, 50.0),
        (ParamKey::Release, 100.0, 10.0, 500.0),
        (ParamKey::Mix, 1.0, 0.0, 1.0),
        (ParamKey::Output, 0.0, -12.0, 12.0),
    ];
    for (key, default, min, max) in knobs {
        let setup = key.setup();
        let (lo, hi) = setup.range.bounds();
        assert_eq!((f(setup.default), f(lo), f(hi)), (default, min, max), "{}", key.name());
    }
    assert_eq!(fft_setup(), IntegerSetup { default: 1, min: 0, max: 3 });
}

#[test]
fn a_value_of_the_wrong_sort_changes_nothing() {
    let mut p = varied();
    p.change(ParamKey::Depth, ParamValue::Flag(true));
    p.change(ParamKey::NodeShape(0), ParamValue::Number(s(1.0)));
    for k in 0..PARAM_COUNT {
        assert_eq!(p.value(param_key(k)), varied().value(param_key(k)));
    }
}

#[test]
fn fresh_parameters_drive_a_fresh_signal_path() {
    let d = ResoVoidParams::default().dsp_params();
    let e = resovoid::dsp::suppressor::DspParams::default();
    assert_eq!(d.node_shapes, e.node_shapes);
    assert_eq!(d.node_freqs, e.node_freqs);
    assert_eq!(d.node_depths, e.node_depths);
    assert_eq!(d.node_enabled, e.node_enabled);
    assert_eq!((d.depth, d.mix, d.attack_ms, d.release_ms), (e.depth, e.mix, e.attack_ms, e.release_ms));
    assert!(d.stereo_linked && !d.oversampling && !d.soft_mode && !d.delta_mode);
    let mut p = ResoVoidParams::default();
    p.stereo_link = StereoLink::Independent;
    p.node_shapes[2] = NodeShape::LowShelf;
    assert!(!p.dsp_params().stereo_linked);
    assert_eq!(p.dsp_params().node_shapes[2], 1);
}
