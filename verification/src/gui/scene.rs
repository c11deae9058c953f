//! The plot as a whole: all that is painted on it in one frame.

use vstd::prelude::*;
use crate::arith::{minus_of, over_of, plus_of, Arith};
use crate::dsp::MAX_NODES;
use crate::gui::axis::{axis_of, grid_marks, marks_on, x_at, y_at, Area, Axis, Pt, GRID_FREQS};
use crate::gui::curve::{
    area_to_line, curve_of, envelope_area, fill_of, fill_under, gain_level_of, interpolate_curve,
    reduction_levels, shape_curve, shape_point_of, shape_scale, shape_scale_of, Nodes, Strip, Trace,
};
use crate::gui::editor::{top_khz, top_khz_of, ResoVoidEditor};
use crate::gui::nodes::{glyph, glyph_of, node_handle, node_handle_of, Handle};
use crate::numbers::{SIX, THREE, TWO};
use crate::params::ResoVoidParams;
use crate::single::Single;

verus! {

/// Points of a curve through the bands.
pub const CURVE_POINTS: usize = 512;

/// Points of the curve of the nodes' depth.
pub const SHAPE_POINTS: usize = 1000;

/// Levels that the grid marks: `-60`, `-40`, `-20` and `0` dB.
pub const DB_LINES: [u32; 4] = [0xc270_0000, 0xc220_0000, 0xc1a0_0000, 0x0000_0000];

/// How far a badge is to the right of its node, `14`.
pub const BADGE_RIGHT: u32 = 0x4160_0000;
/// How far a badge is down from its node, `-14`.
pub const BADGE_DOWN: u32 = 0xc160_0000;
/// Half the width of a badge, `8`. It is 12 high.
pub const BADGE_HALF_WIDTH: u32 = 0x4100_0000;

/// A node on the plot: its handle, and the badge that shows its shape.
pub struct NodeMark {
    pub slot: usize,
    pub handle: Handle,
    pub badge_center: Pt,
    pub badge: Area,
    pub glyph: Vec<Pt>,
}

/// All that is painted in one frame.
pub struct Scene {
    pub axis: Axis,
    /// Which frequencies have a line, and where.
    pub marks: Vec<(usize, Single)>,
    /// Where the lines of [`DB_LINES`] are.
    pub levels: [Single; 4],
    pub spectrum: Vec<Pt>,
    /// What fills the room under the spectrum.
    pub fill: Vec<Strip>,
    /// The outline of the band under the spectrum.
    pub envelope: Vec<Pt>,
    pub reduction: Vec<Pt>,
    /// The curve of the nodes' depth, and the area that it cuts off.
    pub shape: Vec<Pt>,
    pub shape_area: Vec<Pt>,
    pub nodes: Vec<NodeMark>,
    /// The upper end of the plot in whole kHz.
    pub top_khz: usize,
}

/// A badge of this area stands at the upper right of a node at `node`.
pub open spec fn badge_of<A: Arith>(node: Pt, center: Pt, badge: Area) -> bool {
    &&& plus_of::<A>(node.x, Single(BADGE_RIGHT), center.x)
    &&& plus_of::<A>(node.y, Single(BADGE_DOWN), center.y)
    &&& minus_of::<A>(center.x, Single(BADGE_HALF_WIDTH), badge.left)
    &&& plus_of::<A>(center.x, Single(BADGE_HALF_WIDTH), badge.right)
    &&& minus_of::<A>(center.y, Single(SIX), badge.top)
    &&& plus_of::<A>(center.y, Single(SIX), badge.bottom)
}

/// `line` is the glyph of a shape in a badge, 3 away from its edges.
pub open spec fn badge_glyph_of<A: Arith>(shape: usize, badge: Area, line: Seq<Pt>) -> bool {
    exists|l: Single, r: Single, t: Single, b: Single, both: Single, mid: Single|
        {
            &&& #[trigger] plus_of::<A>(badge.left, Single(THREE), l)
            &&& #[trigger] minus_of::<A>(badge.right, Single(THREE), r)
            &&& #[trigger] plus_of::<A>(badge.top, Single(THREE), t)
            &&& #[trigger] minus_of::<A>(badge.bottom, Single(THREE), b)
            &&& #[trigger] plus_of::<A>(badge.left, badge.right, both)
            &&& #[trigger] over_of::<A>(both, Single(TWO), mid)
            &&& glyph_of::<A>(shape, l, r, t, b, mid, line)
        }
}

/// `m` is how slot `m.slot` stands on the plot.
pub open spec fn node_mark_of<A: Arith>(
    ax: Axis,
    n: Nodes,
    centers: Seq<Single>,
    reduction: Seq<Single>,
    m: NodeMark,
) -> bool {
    &&& m.slot < MAX_NODES
    &&& node_handle_of::<A>(ax, n, m.slot as int, centers, reduction, m.handle)
    &&& badge_of::<A>(m.handle.center, m.badge_center, m.badge)
    &&& badge_glyph_of::<A>(n.shapes@[m.slot as int], m.badge, m.glyph@)
}

fn node_mark<A: Arith>(n: &Nodes, slot: usize, handle: Handle) -> (m: NodeMark)
    requires
        slot < MAX_NODES,
    ensures
        m.slot == slot,
        m.handle == handle,
        badge_of::<A>(handle.center, m.badge_center, m.badge),
        badge_glyph_of::<A>(n.shapes@[slot as int], m.badge, m.glyph@),
{
    let c = Pt {
        x: A::plus(handle.center.x, Single(BADGE_RIGHT)),
        y: A::plus(handle.center.y, Single(BADGE_DOWN)),
    };
    let badge = Area {
        left: A::minus(c.x, Single(BADGE_HALF_WIDTH)),
        top: A::minus(c.y, Single(SIX)),
        right: A::plus(c.x, Single(BADGE_HALF_WIDTH)),
        bottom: A::plus(c.y, Single(SIX)),
    };
    let l = A::plus(badge.left, Single(THREE));
    let r = A::minus(badge.right, Single(THREE));
    let t = A::plus(badge.top, Single(THREE));
    let b = A::minus(badge.bottom, Single(THREE));
    let mid = A::over(A::plus(badge.left, badge.right), Single(TWO));
    let line = glyph::<A>(n.shapes[slot], l, r, t, b, mid);
    assert(badge_glyph_of::<A>(n.shapes@[slot as int], badge, line@));
    NodeMark { slot, handle, badge_center: c, badge, glyph: line }
}

/// The slots below `k` that stand on the plot, in order.
pub open spec fn slots_shown(ax: Axis, n: Nodes, k: int) -> Seq<usize>
    decreases k,
{
    if k <= 0 {
        seq![]
    } else if n.enabled@[k - 1] && ax.shows(n.freqs@[k - 1]) {
        slots_shown(ax, n, k - 1).push((k - 1) as usize)
    } else {
        slots_shown(ax, n, k - 1)
    }
}

/// The slots of these marks.
pub open spec fn slots(marks: Seq<NodeMark>) -> Seq<usize> {
    marks.map_values(|m: NodeMark| m.slot)
}

fn node_marks<A: Arith>(e: &ResoVoidEditor, ax: &Axis, n: &Nodes) -> (marks: Vec<NodeMark>)
    ensures
        slots(marks@) == slots_shown(*ax, *n, MAX_NODES as int),
        forall|k: int|
            0 <= k < marks@.len() ==> node_mark_of::<A>(
                *ax,
                *n,
                e.centers@,
                e.latest_reduction@,
                #[trigger] marks@[k],
            ),
{
    let mut marks: Vec<NodeMark> = Vec::new();
    assert(slots(marks@) =~= slots_shown(*ax, *n, 0));
    for i in 0..MAX_NODES
        invariant
            slots(marks@) == slots_shown(*ax, *n, i as int),
            forall|k: int|
                0 <= k < marks@.len() ==> node_mark_of::<A>(
                    *ax,
                    *n,
                    e.centers@,
                    e.latest_reduction@,
                    #[trigger] marks@[k],
                ),
    {
        if let Some(h) = node_handle::<A>(ax, n, i, &e.centers, &e.latest_reduction) {
            let ghost before = marks@;
            let m = node_mark::<A>(n, i, h);
            marks.push(m);
            assert(slots(marks@) =~= slots(before).push(i));
        }
    }
    marks
}

/// `s` shows the spectrum, what is taken from it, and the nodes' depth.
pub open spec fn curves_of<A: Arith>(e: ResoVoidEditor, n: Nodes, s: Scene) -> bool {
    &&& curve_of::<A>(
        s.axis,
        e.centers@,
        e.latest_spectrum@,
        Trace::Spectrum,
        CURVE_POINTS,
        s.spectrum@,
    )
    &&& fill_of::<A>(s.axis.plot.bottom, s.spectrum@, s.fill@)
    &&& exists|lower: Seq<Pt>| #[trigger]
        curve_of::<A>(
            s.axis,
            e.centers@,
            e.latest_spectrum@,
            Trace::Envelope,
            CURVE_POINTS,
            lower,
        ) && s.envelope@ == s.spectrum@ + lower.reverse() + seq![s.spectrum@[0]]
    &&& exists|db: Seq<Single>| #[trigger]
        gain_levels_of::<A>(e.latest_reduction@, db) && curve_of::<A>(
            s.axis,
            e.centers@,
            db,
            Trace::Reduction,
            CURVE_POINTS,
            s.reduction@,
        )
    &&& exists|base: Single, range: Single| #[trigger]
        shape_scale_of::<A>(s.axis, base, range) && {
            &&& s.shape@.len() == SHAPE_POINTS
            &&& forall|i: int|
                0 <= i < SHAPE_POINTS ==> shape_point_of::<A>(
                    s.axis,
                    n,
                    base,
                    range,
                    i as usize,
                    SHAPE_POINTS,
                    #[trigger] s.shape@[i],
                )
            &&& s.shape_area@ == seq![Pt { x: s.shape@[0].x, y: base }] + s.shape@
                + seq![Pt { x: s.shape@.last().x, y: base }]
        }
}

/// `db` are these gains in dB.
pub open spec fn gain_levels_of<A: Arith>(gains: Seq<Single>, db: Seq<Single>) -> bool {
    forall|i: int| 0 <= i < gains.len() ==> gain_level_of::<A>(gains[i], #[trigger] db[i])
}

/// `s` has its lines where the axis has them.
pub open spec fn grid_of<A: Arith>(s: Scene) -> bool {
    &&& s.marks@.map_values(|m: (usize, Single)| m.0) == marks_on(s.axis, 8)
    &&& forall|k: int|
        0 <= k < s.marks@.len() ==> (#[trigger] s.marks@[k]).0 < 8 && x_at::<A>(
            s.axis,
            Single(GRID_FREQS@[s.marks@[k].0 as int]),
            s.marks@[k].1,
        )
    &&& forall|k: int|
        0 <= k < 4 ==> y_at::<A>(s.axis, Single(DB_LINES@[k]), #[trigger] s.levels@[k])
    &&& top_khz_of::<A>(s.axis.f_max, s.top_khz as nat)
}

/// `s` is what the plot shows of the editor and the parameters.
pub open spec fn scene_of<A: Arith>(e: ResoVoidEditor, p: ResoVoidParams, plot: Area, s: Scene) -> bool {
    &&& axis_of::<A>(plot, e.sample_rate, s.axis)
    &&& grid_of::<A>(s)
    &&& exists|n: Nodes| #[trigger]
        e.shows_nodes(&p, n) && {
            &&& curves_of::<A>(e, n, s)
            &&& slots(s.nodes@) == slots_shown(s.axis, n, MAX_NODES as int)
            &&& forall|k: int|
                0 <= k < s.nodes@.len() ==> node_mark_of::<A>(
                    s.axis,
                    n,
                    e.centers@,
                    e.latest_reduction@,
                    #[trigger] s.nodes@[k],
                )
        }
}

/// Lays out all that is painted on the plot in one frame.
pub fn render_visualizer<A: Arith>(e: &ResoVoidEditor, p: &ResoVoidParams, plot: Area) -> (s: Scene)
    ensures
        scene_of::<A>(*e, *p, plot, s),
{
    let ax = Axis::new::<A>(plot, e.sample_rate);
    let mut levels: [Single; 4] = [Single(DB_LINES[0]); 4];
    for k in 0..4usize
        invariant
            forall|m: int| 0 <= m < k ==> y_at::<A>(ax, Single(DB_LINES@[m]), #[trigger] levels@[m]),
    {
        levels[k] = ax.y_of::<A>(Single(DB_LINES[k]));
    }
    let spectrum = interpolate_curve::<A>(
        &ax,
        &e.centers,
        &e.latest_spectrum,
        Trace::Spectrum,
        CURVE_POINTS,
    );
    let lower = interpolate_curve::<A>(
        &ax,
        &e.centers,
        &e.latest_spectrum,
        Trace::Envelope,
        CURVE_POINTS,
    );
    let db = reduction_levels::<A>(&e.latest_reduction);
    assert(gain_levels_of::<A>(e.latest_reduction@, db@));
    let n = e.nodes(p);
    let (base, range) = shape_scale::<A>(&ax);
    let shape = shape_curve::<A>(&ax, &n, base, range, SHAPE_POINTS);
    let s = Scene {
        axis: ax,
        marks: grid_marks::<A>(&ax),
        levels,
        fill: fill_under::<A>(&ax, &spectrum),
        envelope: envelope_area(&spectrum, &lower),
        spectrum,
        reduction: interpolate_curve::<A>(&ax, &e.centers, &db, Trace::Reduction, CURVE_POINTS),
        shape_area: area_to_line(&shape, base),
        shape,
        nodes: node_marks::<A>(e, &ax, &n),
        top_khz: top_khz::<A>(ax.f_max),
    };
    assert(curve_of::<A>(ax, e.centers@, e.latest_spectrum@, Trace::Envelope, CURVE_POINTS, lower@));
    assert(shape_scale_of::<A>(s.axis, base, range));
    assert(curves_of::<A>(*e, n, s));
    s
}

} // verus!
