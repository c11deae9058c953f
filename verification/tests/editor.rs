//! What the editor decides, on given values.

use resovoid::arith::Arith;
use resovoid::csv::{format_depth_csv, DEPTH_CSV_HEADER};
use resovoid::dsp::analysis::AnalysisFrame;
use resovoid::dsp::{BANDS, MAX_NODES, NODE_DEFAULT_FREQS};
use resovoid::gui::axis::{grid_marks, mark_label, Area, Axis, Pt};
use resovoid::gui::curve::{
    area_to_line, envelope_area, fill_under, interpolate_curve, reduction_levels, shape_curve, shape_scale,
    Trace,
};
use resovoid::gui::editor::{debug_csv_path, latency_ms, plot_height, top_khz, ResoVoidEditor, SaveAsk};
use resovoid::gui::knob::{draw_arc, knob_angles, knob_clicked, knob_moved, KnobEdit, KnobEvents};
use resovoid::gui::nodes::{badge_hit, drag_moves_node, freq_order, glyph, new_node, node_color, node_handle};
use resovoid::gui::scene::render_visualizer;
use resovoid::gui::theme::{pill_toggle, Rgb, Theme};
use resovoid::params::{NodeShape, ParamKey, ParamValue, ResoVoidParams};
use resovoid::single::Single;
use resovoid::text::NumberText;
use rtrb::RingBuffer;

/// The machine's own arithmetic.
struct Machine;

fn s(x: f32) -> Single {
    Single(x.to_bits())
}

fn f(x: Single) -> f32 {
    f32::from_bits(x.0)
}

impl Arith for Machine {
    fn plus(a: Single, b: Single) -> Single {
        s(f(a) + f(b))
    }
    fn minus(a: Single, b: Single) -> Single {
        s(f(a) - f(b))
    }
    fn times(a: Single, b: Single) -> Single {
        s(f(a) * f(b))
    }
    fn over(a: Single, b: Single) -> Single {
        s(f(a) / f(b))
    }
    fn square(a: Single) -> Single {
        s(f(a).powi(2))
    }
    fn sqrt(a: Single) -> Single {
        s(f(a).sqrt())
    }
    fn exp(a: Single) -> Single {
        s(f(a).exp())
    }
    fn ln(a: Single) -> Single {
        s(f(a).ln())
    }
    fn log2(a: Single) -> Single {
        s(f(a).log2())
    }
    fn log10(a: Single) -> Single {
        s(f(a).log10())
    }
    fn pow(a: Single, b: Single) -> Single {
        s(f(a).powf(f(b)))
    }
    fn sin(a: Single) -> Single {
        s(f(a).sin())
    }
    fn cos(a: Single) -> Single {
        s(f(a).cos())
    }
    fn hypot(a: Single, b: Single) -> Single {
        s(f(a).hypot(f(b)))
    }
    fn of_count(n: usize) -> Single {
        s(n as f32)
    }
    fn flushes() -> bool {
        true
    }
}

/// Numbers as the machine writes them.
struct Plain;

impl NumberText for Plain {
    fn fixed(v: Single, places: usize) -> String {
        format!("{:.*}", places, f(v))
    }

    fn parse(text: &str) -> Option<Single> {
        text.parse::<f32>().ok().map(s)
    }
}

fn close(a: Single, b: f32) {
    assert!((f(a) - b).abs() <= 1e-4 * b.abs().max(1.0), "{} {b}", f(a));
}

/// A plot of 1000 by 92 points.
fn axis() -> Axis {
    let plot = Area { left: s(10.0), top: s(20.0), right: s(1010.0), bottom: s(112.0) };
    Axis::new::<Machine>(plot, s(44100.0))
}

fn frame(n: u32) -> AnalysisFrame {
    AnalysisFrame {
        spectrum: [s(-(n as f32)); BANDS],
        reduction: [s(0.5); BANDS],
        centers: [s(100.0 + n as f32); BANDS],
        concentration: [s(0.25); BANDS],
        sample_rate: s(48000.0),
        frame_idx: n,
        effective_depth: [s(0.5); BANDS],
        reduction_db: [s(6.0); BANDS],
        target_gain: [s(0.5); BANDS],
        gain_db: [s(-3.5); BANDS],
        effective_q: [s(2.0); BANDS],
    }
}

fn editor() -> ResoVoidEditor {
    ResoVoidEditor::new(s(44100.0), &NODE_DEFAULT_FREQS.map(Single))
}

#[test]
fn a_fresh_editor_shows_silence() {
    let e = editor();
    assert_eq!(f(e.latest_spectrum[3]), -120.0);
    assert_eq!(f(e.latest_reduction[63]), 1.0);
    assert_eq!(f(e.centers[0]), 0.0);
    assert_eq!(e.node_positions[4], (s(0.5), s(8500.0)));
    assert!(e.rescan && !e.dark_mode && !e.show_save_dialog && !e.show_overwrite_confirm);
    assert_eq!(e.chosen_preset(), None);
}

#[test]
fn frames_come_out_of_the_ring_in_order() {
    let (mut tx, mut rx) = RingBuffer::<AnalysisFrame>::new(8);
    for n in 0..5 {
        assert!(tx.push(frame(n)).is_ok());
    }
    let mut e = editor();
    e.drain(&mut rx);
    assert!(rx.pop().is_err());
    assert_eq!(f(e.latest_spectrum[0]), -4.0);
    assert_eq!(f(e.centers[0]), 104.0);
    assert_eq!(f(e.sample_rate), 48000.0);
    let hops: Vec<u32> = e.debug_log.iter().map(|x| x.hop).collect();
    assert_eq!(hops, vec![0, 1, 2, 3, 4]);
    assert_eq!(f(e.debug_log[2].levels[9]), -2.0);
    e.drain(&mut rx);
    assert_eq!(e.debug_hop, 5);
    e.clear_log();
    assert!(e.debug_log.is_empty());
    assert_eq!(e.debug_hop, 0);
    assert_eq!(f(e.latest_spectrum[0]), -4.0);
}

#[test]
fn the_log_stops_growing_and_the_count_goes_on() {
    let mut e = editor();
    for n in 0..5010 {
        e.absorb(&frame(n));
    }
    assert_eq!(e.debug_log.len(), 5000);
    assert_eq!(e.debug_hop, 5010);
    assert_eq!(e.debug_log[4999].hop, 4999);
    e.debug_hop = u32::MAX;
    e.absorb(&frame(0));
    assert_eq!(e.debug_hop, 0);
}

#[test]
fn saving_under_a_taken_name_asks_first() {
    let mut e = editor();
    e.presets_scanned(vec!["air".to_string(), "warm".to_string()]);
    assert!(!e.rescan);
    assert_eq!(e.chosen_preset(), Some("air".to_string()));
    e.save_clicked();
    assert!(e.show_save_dialog);
    assert_eq!(e.save_name, "air");

    e.save_name = " warm ".to_string();
    assert_eq!(e.save_confirmed(), SaveAsk::Confirm);
    assert!(e.show_overwrite_confirm && e.show_save_dialog);
    e.preset_written(true, true);
    assert!(!e.show_overwrite_confirm && !e.show_save_dialog && e.rescan);
    assert_eq!(e.selected_preset, " warm ");

    e.presets_scanned(vec!["air".to_string()]);
    e.save_name = "new".to_string();
    e.show_save_dialog = true;
    assert_eq!(e.save_confirmed(), SaveAsk::Write);
    e.preset_written(false, false);
    assert!(!e.show_save_dialog && !e.rescan);
    assert_eq!(e.selected_preset, " warm ");

    e.save_name = "   ".to_string();
    assert_eq!(e.save_confirmed(), SaveAsk::Write, "an empty name is saved at once");
}

#[test]
fn deleting_forgets_the_selection_only_where_it_worked() {
    let mut e = editor();
    e.presets_scanned(vec!["air".to_string()]);
    e.preset_deleted(false);
    assert_eq!(e.selected_preset, "air");
    assert!(!e.rescan);
    e.preset_deleted(true);
    assert_eq!(e.selected_preset, "");
    assert!(e.rescan);
}

#[test]
fn the_axis_runs_over_decades() {
    let ax = axis();
    assert_eq!(f(ax.f_max), 20000.0);
    close(ax.x_of::<Machine>(s(20.0)), 10.0);
    close(ax.x_of::<Machine>(s(1.0)), 10.0);
    close(ax.x_of::<Machine>(s(20000.0)), 1010.0);
    close(ax.x_of::<Machine>(s(200.0)), 10.0 + 1000.0 / 3.0);
    close(ax.freq_of_x::<Machine>(s(10.0 + 1000.0 / 3.0)), 200.0);
    close(ax.freq_of_x::<Machine>(s(-50.0)), 20.0);
    close(ax.y_of::<Machine>(s(-80.0)), 112.0);
    close(ax.y_of::<Machine>(s(12.0)), 20.0);
    close(ax.y_of_depth::<Machine>(s(0.5)), 66.0);
    assert!(ax.is_shown(s(20.0)) && ax.is_shown(s(20000.0)));
    assert!(!ax.is_shown(s(19.9)) && !ax.is_shown(s(20001.0)));
    let corner = Pt { x: s(10.0), y: s(112.0) };
    assert!(ax.plot.contains(corner));
    assert!(!ax.plot.contains(Pt { x: s(9.5), ..corner }));
    assert!(!ax.plot.contains(Pt { y: s(f32::NAN), ..corner }));
}

#[test]
fn the_axis_ends_at_half_the_sample_rate() {
    let plot = axis().plot;
    assert_eq!(f(Axis::new::<Machine>(plot, s(8000.0)).f_max), 4000.0);
    assert_eq!(f(Axis::new::<Machine>(plot, s(10.0)).f_max), 40.0);
    let marks = grid_marks::<Machine>(&Axis::new::<Machine>(plot, s(8000.0)));
    let labels: Vec<&str> = marks.iter().map(|m| mark_label(m.0)).collect();
    assert_eq!(labels, vec!["100", "250", "500", "1k", "2k", "4k"]);
    let all = grid_marks::<Machine>(&axis());
    assert_eq!(all.len(), 8);
    assert_eq!(mark_label(all[7].0), "16k");
    assert_eq!(all[3].1, axis().x_of::<Machine>(s(1000.0)));
}

#[test]
fn curves_run_through_the_bands_and_stay_in_the_plot() {
    let ax = axis();
    let centers: [Single; BANDS] = std::array::from_fn(|i| s(30.0 * 1.1f32.powi(i as i32)));
    let values: [Single; BANDS] = std::array::from_fn(|i| s(i as f32 - 90.0));
    let pts = interpolate_curve::<Machine>(&ax, &centers, &values, Trace::Spectrum, 512);
    assert_eq!(pts.len(), 512);
    close(pts[0].x, 10.0);
    close(pts[511].x, 1010.0);
    // Below the first band its own value holds, and it is held to the plot.
    close(pts[0].y, 112.0);
    // Past the last band, the last value.
    close(pts[511].y, f(ax.y_of::<Machine>(s(-27.0))));
    for w in pts.windows(2) {
        assert!(f(w[0].x) < f(w[1].x));
        assert!(f(w[0].y) >= f(w[1].y));
    }
    let lower = interpolate_curve::<Machine>(&ax, &centers, &values, Trace::Envelope, 512);
    close(lower[511].y, f(ax.y_of::<Machine>(s(-33.0))));
    let loud = [s(5.0); BANDS];
    let cut = interpolate_curve::<Machine>(&ax, &centers, &loud, Trace::Reduction, 2);
    close(cut[0].y, f(ax.y_of::<Machine>(s(0.0))));
    let deep = [s(-70.0); BANDS];
    let cut = interpolate_curve::<Machine>(&ax, &centers, &deep, Trace::Reduction, 2);
    close(cut[1].y, f(ax.y_of::<Machine>(s(-40.0))));
}

#[test]
fn reductions_are_shown_in_decibels() {
    let mut reduction = [s(1.0); BANDS];
    reduction[1] = s(0.1);
    reduction[2] = s(0.0);
    let db = reduction_levels::<Machine>(&reduction);
    assert_eq!(f(db[0]), 0.0);
    close(db[1], -20.0);
    close(db[2], -80.0);
}

#[test]
fn the_fill_stands_in_columns_under_the_curve() {
    let ax = axis();
    let p = |x: f32, y: f32| Pt { x: s(x), y: s(y) };
    let strips = fill_under::<Machine>(&ax, &vec![p(10.0, 42.0), p(13.0, 112.0), p(13.5, 105.0)]);
    // The point on the base line has no column.
    assert_eq!(strips.len(), 14);
    close(strips[0].area.left, 10.0);
    close(strips[0].area.right, 13.0);
    close(strips[0].area.top, 42.0);
    close(strips[0].area.bottom, 52.5);
    close(strips[6].area.bottom, 112.5);
    assert_eq!(strips[0].alpha, (38.0 * (1.0f32 - 0.5 / 7.0).powf(1.5)) as u8);
    // A column is at least one point wide.
    close(strips[7].area.right, 14.5);
    let many: Vec<Pt> = (0..512).map(|i| p(i as f32, 50.0)).collect();
    assert_eq!(fill_under::<Machine>(&ax, &many).len(), 256 * 7);
    assert_eq!(fill_under::<Machine>(&ax, &vec![p(0.0, 50.0)]).len(), 7);
}

#[test]
fn areas_are_closed() {
    let p = |x: f32, y: f32| Pt { x: s(x), y: s(y) };
    let curve = vec![p(0.0, 1.0), p(1.0, 2.0)];
    let low = vec![p(0.0, 5.0), p(1.0, 6.0)];
    assert_eq!(envelope_area(&curve, &low), vec![curve[0], curve[1], low[1], low[0], curve[0]]);
    let base = area_to_line(&curve, s(9.0));
    assert_eq!(base, vec![p(0.0, 9.0), curve[0], curve[1], p(1.0, 9.0)]);
}

#[test]
fn the_shape_lies_on_its_line_without_nodes() {
    let ax = axis();
    let mut p = ResoVoidParams::default();
    p.node_enabled = [false; MAX_NODES];
    let nodes = editor().nodes(&p);
    let (base, range) = shape_scale::<Machine>(&ax);
    close(base, 20.0 + 92.0 * 0.05);
    close(range, 92.0 * 0.9);
    let pts = shape_curve::<Machine>(&ax, &nodes, base, range, 1000);
    assert_eq!(pts.len(), 1000);
    for pt in &pts {
        assert_eq!(pt.y, base);
    }
    close(pts[999].x, 1010.0);
}

#[test]
fn a_drag_stops_at_the_neighbours() {
    let ax = axis();
    let p = ResoVoidParams::default();
    let mut e = editor();
    // Node 1 stands at 300 Hz between 80 Hz and 1000 Hz.
    let changes = e.drag::<Machine>(&ax, &p, 1, s(5000.0), s(-500.0));
    assert_eq!(e.node_positions[1], (s(1.0), s(1000.0)));
    assert_eq!(
        changes,
        vec![
            (ParamKey::NodeDepth(1), ParamValue::Number(s(1.0))),
            (ParamKey::NodeFreq(1), ParamValue::Number(s(1000.0))),
        ]
    );
    e.drag::<Machine>(&ax, &p, 1, s(-5000.0), s(46.0));
    assert_eq!(e.node_positions[1], (s(0.5), s(80.0)));
    // The outermost ones stop at the ends of the plot.
    e.drag::<Machine>(&ax, &p, 5, s(5000.0), s(0.0));
    close(e.node_positions[5].1, 20000.0);
    e.drag::<Machine>(&ax, &p, 0, s(-5000.0), s(0.0));
    close(e.node_positions[0].1, 20.0);
}

#[test]
fn nodes_that_are_off_bound_nothing() {
    let ax = axis();
    let mut p = ResoVoidParams::default();
    p.node_enabled[2] = false;
    let mut e = editor();
    e.drag::<Machine>(&ax, &p, 1, s(5000.0), s(0.0));
    assert_eq!(e.node_positions[1].1, s(3500.0));
    let n = e.nodes(&p);
    assert_eq!(freq_order(&n.enabled, &n.freqs), vec![0, 1, 3, 4, 5]);
    assert_eq!(n.shapes[0], 1);
    assert_eq!(n.shapes[5], 2);
}

#[test]
fn a_double_click_makes_a_node_where_there_is_room() {
    let ax = axis();
    let mut p = ResoVoidParams::default();
    let mut e = editor();
    let x = ax.x_of::<Machine>(s(2000.0));
    let far = Pt { x, y: s(30.0) };
    let changes = e.double_click::<Machine>(&ax, &p, far);
    assert_eq!(changes.len(), 4);
    assert_eq!(changes[0], (ParamKey::NodeDepth(6), ParamValue::Number(s(0.5))));
    assert_eq!(changes[2], (ParamKey::NodeEnabled(6), ParamValue::Flag(true)));
    assert_eq!(changes[3], (ParamKey::NodeShape(6), ParamValue::Shape(NodeShape::Bell)));
    close(e.node_positions[6].1, 2000.0);
    for (key, value) in changes {
        p.change(key, value);
    }
    // On a node, outside the plot, or with no slot left, nothing happens.
    let on_node = Pt { x: ax.x_of::<Machine>(s(1000.0)), y: s(70.0) };
    assert!(e.double_click::<Machine>(&ax, &p, on_node).is_empty());
    let outside = Pt { x, y: s(113.0) };
    assert!(e.double_click::<Machine>(&ax, &p, outside).is_empty());
    p.node_enabled[7] = true;
    assert!(e.double_click::<Machine>(&ax, &p, Pt { x: s(700.0), y: s(25.0) }).is_empty());
    assert!(new_node::<Machine>(&ax, &e.nodes(&p), Pt { x: s(700.0), y: s(25.0) }).is_none());
}

#[test]
fn a_deleted_shelf_comes_back_as_a_bell() {
    let ax = axis();
    let mut p = ResoVoidParams::default();
    let mut e = editor();
    p.node_enabled[0] = false;
    assert_eq!(p.node_shapes[0], NodeShape::LowShelf);
    let click = Pt { x: ax.x_of::<Machine>(s(2000.0)), y: s(30.0) };
    for (key, value) in e.double_click::<Machine>(&ax, &p, click) {
        p.change(key, value);
    }
    assert!(p.node_enabled[0]);
    assert_eq!(p.node_shapes[0], NodeShape::Bell);
    assert_eq!(p.node_depths[0], s(0.5));
}

#[test]
fn a_press_on_a_badge_moves_no_node() {
    let hit = badge_hit::<Machine>(Pt { x: s(100.0), y: s(50.0) });
    assert_eq!((f(hit.left), f(hit.right)), (88.0, 112.0));
    assert_eq!((f(hit.top), f(hit.bottom)), (40.0, 60.0));
    assert!(!drag_moves_node(hit, Some(Pt { x: s(112.0), y: s(40.0) })));
    assert!(drag_moves_node(hit, Some(Pt { x: s(112.5), y: s(40.0) })));
    assert!(drag_moves_node(hit, Some(Pt { x: s(100.0), y: s(61.0) })));
    assert!(drag_moves_node(hit, None));
}

#[test]
fn a_drag_stops_at_a_neighbour_off_the_plot() {
    // At this rate the plot ends at 4 kHz, and the node at 8.5 kHz lies beyond it.
    let ax = Axis::new::<Machine>(
        Area { left: s(0.0), top: s(0.0), right: s(600.0), bottom: s(112.0) },
        s(8000.0),
    );
    let p = ResoVoidParams::default();
    let mut e = editor();
    e.drag::<Machine>(&ax, &p, 3, s(5000.0), s(0.0));
    assert!(f(e.node_positions[3].1) <= f(ax.f_max));
    let n = e.nodes(&p);
    assert_eq!(freq_order(&n.enabled, &n.freqs), vec![0, 1, 2, 3, 4, 5]);
}

#[test]
fn handles_swell_and_turn_with_the_reduction() {
    let ax = axis();
    let mut p = ResoVoidParams::default();
    let e = editor();
    let centers: [Single; BANDS] = std::array::from_fn(|i| s(30.0 * 1.1f32.powi(i as i32)));
    let calm = node_handle::<Machine>(&ax, &e.nodes(&p), 2, &centers, &[s(1.0); BANDS]).unwrap();
    assert_eq!(f(calm.radius), 8.0);
    assert_eq!(calm.color, node_color(2));
    close(calm.center.x, f(ax.x_of::<Machine>(s(1000.0))));
    close(calm.center.y, 66.0);
    let hot = node_handle::<Machine>(&ax, &e.nodes(&p), 2, &centers, &[s(0.01); BANDS]).unwrap();
    assert_eq!(f(hot.radius), 10.0);
    assert_eq!(hot.color, Rgb::new(139, 92, 255));
    p.node_enabled[2] = false;
    assert!(node_handle::<Machine>(&ax, &e.nodes(&p), 2, &centers, &[s(1.0); BANDS]).is_none());
    p.node_enabled[2] = true;
    let small = Axis::new::<Machine>(ax.plot, s(1000.0));
    assert!(node_handle::<Machine>(&small, &e.nodes(&p), 2, &centers, &[s(1.0); BANDS]).is_none());
}

#[test]
fn a_scene_shows_the_editor() {
    let p = ResoVoidParams::default();
    let mut e = editor();
    e.absorb(&frame(3));
    e.centers = std::array::from_fn(|i| s(30.0 * 1.1f32.powi(i as i32)));
    let plot = axis().plot;
    let scene = render_visualizer::<Machine>(&e, &p, plot);
    let ax = Axis::new::<Machine>(plot, s(48000.0));
    assert_eq!(scene.axis, ax);
    assert_eq!(scene.marks.len(), 8);
    close(scene.levels[0], f(ax.y_of::<Machine>(s(-60.0))));
    close(scene.levels[3], f(ax.y_of::<Machine>(s(0.0))));
    assert_eq!((scene.spectrum.len(), scene.reduction.len(), scene.shape.len()), (512, 512, 1000));
    assert_eq!((scene.envelope.len(), scene.shape_area.len()), (1025, 1002));
    close(scene.spectrum[100].y, f(ax.y_of::<Machine>(s(-3.0))));
    close(scene.envelope[600].y, f(ax.y_of::<Machine>(s(-9.0))));
    close(scene.reduction[7].y, f(ax.y_of::<Machine>(s(20.0 * 0.5f32.log10()))));
    assert_eq!(scene.fill.len(), 256 * 7);
    let slots: Vec<usize> = scene.nodes.iter().map(|m| m.slot).collect();
    assert_eq!(slots, vec![0, 1, 2, 3, 4, 5]);
    let m = &scene.nodes[5];
    close(m.badge_center.x, f(m.handle.center.x) + 14.0);
    close(m.badge_center.y, f(m.handle.center.y) - 14.0);
    close(m.badge.left, f(m.badge_center.x) - 8.0);
    close(m.badge.bottom, f(m.badge_center.y) + 6.0);
    assert_eq!(m.glyph.len(), 3);
    close(m.glyph[0].x, f(m.badge.left) + 3.0);
    close(m.glyph[1].x, f(m.badge_center.x));
    close(m.glyph[2].y, f(m.badge.top) + 3.0);
    assert_eq!(scene.top_khz, 20);
}

#[test]
fn shapes_have_glyphs() {
    let g = |shape: usize| -> Vec<(f32, f32)> {
        glyph::<Machine>(shape, s(0.0), s(8.0), s(0.0), s(4.0), s(4.0)).iter().map(|p| (f(p.x), f(p.y))).collect()
    };
    assert_eq!(g(0), vec![(0.0, 4.0), (2.0, 1.0), (4.0, 0.0), (6.0, 1.0), (8.0, 4.0)]);
    assert_eq!(g(1), vec![(0.0, 0.0), (4.0, 0.0), (8.0, 4.0)]);
    assert_eq!(g(2), vec![(0.0, 4.0), (4.0, 0.0), (8.0, 0.0)]);
    assert_eq!(NodeShape::HighShelf.to_dsp_index(), 2);
}

fn calm() -> KnobEvents {
    KnobEvents {
        secondary_clicked: false,
        double_clicked: false,
        dragged: false,
        drag_dy: s(0.0),
        enter: false,
        escape: false,
        lost_focus: false,
    }
}

#[test]
fn a_knob_is_dragged_reset_and_typed_into() {
    let mut edit = KnobEdit { editing: false, text: String::new() };
    let (min, max) = (s(-12.0), s(12.0));
    let click = |edit: &mut KnobEdit, ev: KnobEvents| {
        knob_clicked::<Plain>(edit, ev, s(1.5), s(20.0), min, max)
    };
    let step = |edit: &mut KnobEdit, typed: &str, ev: KnobEvents| {
        knob_moved::<Machine, Plain>(edit, typed.to_string(), ev, s(1.5), min, max)
    };

    let drag = KnobEvents { dragged: true, drag_dy: s(-50.0), ..calm() };
    close(step(&mut edit, "", drag).unwrap(), 7.5);
    let pull = KnobEvents { dragged: true, drag_dy: s(-500.0), ..calm() };
    assert_eq!(step(&mut edit, "", pull), Some(max));
    assert_eq!(step(&mut edit, "", calm()), None);

    let reset = KnobEvents { secondary_clicked: true, double_clicked: true, ..calm() };
    assert_eq!(click(&mut edit, reset), Some(max), "the default is held to the range");
    assert!(!edit.editing);

    assert_eq!(click(&mut edit, KnobEvents { double_clicked: true, ..calm() }), None);
    assert!(edit.editing);
    assert_eq!(edit.text, "1.50");
    assert_eq!(step(&mut edit, "x", drag), None, "no drag while typing");
    assert_eq!(edit.text, "x");
    let enter = KnobEvents { enter: true, lost_focus: true, ..calm() };
    assert_eq!(step(&mut edit, "x", enter), None);
    assert!(edit.editing, "what is no number is refused");
    assert_eq!(step(&mut edit, " 3.25 ", enter), Some(s(3.25)));
    assert!(!edit.editing);

    edit.editing = true;
    assert_eq!(step(&mut edit, "5", KnobEvents { escape: true, enter: true, ..calm() }), None);
    assert!(!edit.editing);
    edit.editing = true;
    assert_eq!(step(&mut edit, "5", KnobEvents { lost_focus: true, ..calm() }), None);
    assert!(!edit.editing);
}

#[test]
fn knobs_turn_three_quarters() {
    let k = knob_angles::<Machine>(s(0.25), s(0.0), s(1.0));
    let pi = std::f32::consts::PI;
    close(k.begin, pi * 0.75);
    close(k.end, pi * 2.25);
    close(k.now, pi * 0.75 + 0.25 * pi * 1.5);
    assert_eq!(knob_angles::<Machine>(s(9.0), s(0.0), s(1.0)).now, k.end);
    let arc = draw_arc::<Machine>(Pt { x: s(0.0), y: s(0.0) }, s(2.0), k.begin, k.end);
    assert_eq!(arc.len(), 50);
    close(arc[0].x, 2.0 * (pi * 0.75).cos());
    close(arc[49].y, 2.0 * (pi * 2.25).sin());
    let none = draw_arc::<Machine>(Pt { x: s(1.0), y: s(0.0) }, s(2.0), s(0.0), s(0.0));
    assert_eq!(none.len(), 2);
    close(none[1].x, 3.0);
    let long = draw_arc::<Machine>(Pt { x: s(0.0), y: s(0.0) }, s(1.0), s(0.0), s(100.0));
    assert_eq!(long.len(), 65);
}

#[test]
fn a_pill_lights_one_side() {
    let t = Theme::light();
    let white = Rgb::new(255, 255, 255);
    let soft = pill_toggle(ParamKey::SoftMode, true, &t);
    assert!(soft.soft_lit && !soft.clicked);
    assert_eq!((soft.soft_text, soft.hard_text), (white, t.text_dim));
    let hard = pill_toggle(ParamKey::SoftMode, false, &t);
    assert!(!hard.soft_lit && hard.clicked);
    assert_eq!((hard.soft_text, hard.hard_text), (t.text_dim, white));
    let on = pill_toggle(ParamKey::Oversampling, true, &t);
    assert!(!on.soft_lit && !on.clicked);
    assert_eq!((on.soft_text, on.hard_text), (t.text_dim, white));
    let off = pill_toggle(ParamKey::Oversampling, false, &t);
    assert!(off.soft_lit && off.clicked);
    assert_eq!((off.soft_text, off.hard_text), (white, t.text_dim));
    assert_eq!(Theme::active(true), Theme::dark());
    assert_eq!(Theme::active(false), Theme::light());
    assert_eq!(Theme::dark().cyan, Theme::light().cyan);
}

#[test]
fn figures_are_worked_out() {
    close(latency_ms::<Machine>(1, s(44100.0)), 2048.0 / 44100.0 * 1000.0);
    close(latency_ms::<Machine>(77, s(48000.0)), 8192.0 / 48000.0 * 1000.0);
    assert_eq!(f(plot_height::<Machine>(s(672.0))), 300.0);
    assert_eq!(f(plot_height::<Machine>(s(500.0))), 240.0);
    assert_eq!(top_khz::<Machine>(s(20000.0)), 20);
    assert_eq!(top_khz::<Machine>(s(11025.0)), 11);
    assert_eq!(debug_csv_path(&vec!["a".to_string()]), vec!["a", "resovoid_concentration.csv"]);
}

#[test]
fn depth_tables_have_a_row_for_every_band() {
    let out = format_depth_csv::<Plain>(&vec![frame(7), frame(8)]);
    let lines: Vec<&str> = out.lines().collect();
    assert_eq!(lines.len(), 1 + 2 * BANDS);
    assert_eq!(lines[0], DEPTH_CSV_HEADER);
    assert_eq!(lines[1], "7,0,0.500000,6.000000,0.500000,0.500000,-3.500000,2.000000");
    assert!(lines[BANDS + 5].starts_with("8,4,"));
}
