//! Knobs: how they look, and what dragging, clicking and typing does.

use vstd::prelude::*;
use vstd::string::*;
use crate::arith::{
    cos_of, count_of, minus_of, over_of, plus_of, sin_of, times_of, Arith,
};
use crate::dsp::detector::follow_of;
use crate::gui::axis::Pt;
use crate::numbers::{ONE, PI, THREE_QUARTERS, ZERO};
use crate::single::Single;
use crate::text::{fixed_of, parse_of, trim, trimmed, NumberText};

verus! {

/// Where a knob's sweep ends, in half turns, `2.25`. It begins at 0.75.
pub const SWEEP_END: u32 = 0x4010_0000;
/// Pieces of a half turn when an arc is drawn, `32`.
pub const ARC_PIECES: u32 = 0x4200_0000;
/// Pixels of a drag over the whole range of a knob, `200`.
pub const DRAG_SPAN: u32 = 0x4348_0000;

// ----- Looks ------------------------------------------------------------------

/// `a` is `share` half turns.
pub open spec fn turn_of<A: Arith>(share: Single, a: Single) -> bool {
    times_of::<A>(Single(PI), share, a)
}

/// The angles of a knob: where its sweep begins and ends, and where it stands.
#[derive(Clone, Copy, PartialEq, Eq, Structural, Debug)]
pub struct KnobAngles {
    pub begin: Single,
    pub end: Single,
    pub now: Single,
}

/// `k` are the angles of a knob at `value` of the range from `min` to `max`.
pub open spec fn knob_angles_of<A: Arith>(value: Single, min: Single, max: Single, k: KnobAngles) -> bool {
    &&& turn_of::<A>(Single(THREE_QUARTERS), k.begin)
    &&& turn_of::<A>(Single(SWEEP_END), k.end)
    &&& exists|up: Single, range: Single, raw: Single, sweep: Single, way: Single|
        {
            &&& #[trigger] minus_of::<A>(value, min, up)
            &&& #[trigger] minus_of::<A>(max, min, range)
            &&& #[trigger] over_of::<A>(up, range, raw)
            &&& #[trigger] minus_of::<A>(k.end, k.begin, sweep)
            &&& #[trigger] times_of::<A>(raw.held(Single(ZERO), Single(ONE)), sweep, way)
            &&& plus_of::<A>(k.begin, way, k.now)
        }
}

/// The angles of a knob at `value` of the range from `min` to `max`.
pub fn knob_angles<A: Arith>(value: Single, min: Single, max: Single) -> (k: KnobAngles)
    ensures
        knob_angles_of::<A>(value, min, max, k),
{
    let raw = A::over(A::minus(value, min), A::minus(max, min));
    let t = raw.clamp(Single(ZERO), Single(ONE));
    let begin = A::times(Single(PI), Single(THREE_QUARTERS));
    let end = A::times(Single(PI), Single(SWEEP_END));
    let way = A::times(t, A::minus(end, begin));
    KnobAngles { begin, end, now: A::plus(begin, way) }
}

/// `p` lies on a circle at `angle`.
pub open spec fn on_circle_of<A: Arith>(center: Pt, radius: Single, angle: Single, p: Pt) -> bool {
    exists|c: Single, s: Single, dx: Single, dy: Single|
        {
            &&& #[trigger] cos_of::<A>(angle, c)
            &&& #[trigger] sin_of::<A>(angle, s)
            &&& #[trigger] times_of::<A>(radius, c, dx)
            &&& #[trigger] times_of::<A>(radius, s, dy)
            &&& plus_of::<A>(center.x, dx, p.x)
            &&& plus_of::<A>(center.y, dy, p.y)
        }
}

/// The place on a circle at `angle`.
pub fn on_circle<A: Arith>(center: Pt, radius: Single, angle: Single) -> (p: Pt)
    ensures
        on_circle_of::<A>(center, radius, angle, p),
{
    let c = A::cos(angle);
    let s = A::sin(angle);
    let dx = A::times(radius, c);
    let dy = A::times(radius, s);
    Pt { x: A::plus(center.x, dx), y: A::plus(center.y, dy) }
}

/// `n` is how many straight pieces an arc is drawn in: from 1 to 64, by its span.
pub open spec fn arc_steps_of<A: Arith>(start: Single, end: Single, n: int) -> bool {
    exists|span: Single, scaled: Single, raw: Single|
        {
            &&& #[trigger] minus_of::<A>(end, start, span)
            &&& #[trigger] times_of::<A>(span.absolute(), Single(ARC_PIECES), scaled)
            &&& #[trigger] over_of::<A>(scaled, Single(PI), raw)
            &&& n == if raw.index_part() < 63 {
                raw.index_part() as int + 1
            } else {
                64
            }
        }
}

fn arc_steps<A: Arith>(start: Single, end: Single) -> (n: usize)
    ensures
        arc_steps_of::<A>(start, end, n as int),
        1 <= n <= 64,
{
    let span = A::minus(end, start).abs();
    let raw = A::over(A::times(span, Single(ARC_PIECES)), Single(PI)).whole_index();
    if raw < 63 {
        raw + 1
    } else {
        64
    }
}

/// `a` is the angle of point `i` of `n` of an arc.
pub open spec fn arc_angle_of<A: Arith>(start: Single, end: Single, i: usize, n: usize, a: Single) -> bool {
    exists|x: Single, y: Single, t: Single|
        {
            &&& #[trigger] count_of::<A>(i, x)
            &&& #[trigger] count_of::<A>(n, y)
            &&& #[trigger] over_of::<A>(x, y, t)
            &&& follow_of::<A>(start, end, t, a)
        }
}

fn arc_angle<A: Arith>(start: Single, end: Single, i: usize, n: usize) -> (a: Single)
    ensures
        arc_angle_of::<A>(start, end, i, n, a),
{
    let t = A::over(A::of_count(i), A::of_count(n));
    A::plus(start, A::times(A::minus(end, start), t))
}

/// `p` is point `i` of `n` of an arc.
pub open spec fn arc_point_of<A: Arith>(
    center: Pt,
    radius: Single,
    start: Single,
    end: Single,
    i: usize,
    n: usize,
    p: Pt,
) -> bool {
    exists|a: Single| #[trigger]
        arc_angle_of::<A>(start, end, i, n, a) && on_circle_of::<A>(center, radius, a, p)
}

/// The points along an arc, to be joined by straight pieces.
pub fn draw_arc<A: Arith>(center: Pt, radius: Single, start: Single, end: Single) -> (pts: Vec<Pt>)
    ensures
        pts@.len() >= 2,
        arc_steps_of::<A>(start, end, pts@.len() - 1),
        on_circle_of::<A>(center, radius, start, pts@[0]),
        forall|i: int|
            1 <= i < pts@.len() ==> arc_point_of::<A>(
                center,
                radius,
                start,
                end,
                i as usize,
                (pts@.len() - 1) as usize,
                #[trigger] pts@[i],
            ),
{
    let n = arc_steps::<A>(start, end);
    let mut pts: Vec<Pt> = Vec::new();
    pts.push(on_circle::<A>(center, radius, start));
    for i in 1..(n + 1)
        invariant
            1 <= n <= 64,
            pts@.len() == i,
            on_circle_of::<A>(center, radius, start, pts@[0]),
            forall|m: int|
                1 <= m < i ==> arc_point_of::<A>(
                    center,
                    radius,
                    start,
                    end,
                    m as usize,
                    n,
                    #[trigger] pts@[m],
                ),
    {
        let a = arc_angle::<A>(start, end, i, n);
        pts.push(on_circle::<A>(center, radius, a));
    }
    pts
}

// ----- Typing -----------------------------------------------------------------

/// What a typed text sets a knob to: a number held to the range, or nothing
/// where it is not a number or not a finite one.
pub open spec fn entry_value(v: Option<Single>, min: Single, max: Single) -> Option<Single> {
    match v {
        Some(x) => if x.finite() {
            Some(x.held(min, max))
        } else {
            None
        },
        None => None,
    }
}

/// What a number read from a typed text sets a knob to.
pub fn accept_entry(v: Option<Single>, min: Single, max: Single) -> (r: Option<Single>)
    ensures
        r == entry_value(v, min, max),
{
    match v {
        Some(x) => if x.is_finite() {
            Some(x.clamp(min, max))
        } else {
            None
        },
        None => None,
    }
}

/// `r` is what `text` sets a knob to.
pub open spec fn entry_of<N: NumberText>(text: Seq<char>, min: Single, max: Single, r: Option<Single>) -> bool {
    exists|v: Option<Single>| #[trigger]
        parse_of::<N>(trimmed(text), v) && r == entry_value(v, min, max)
}

/// What a typed text sets a knob to.
pub fn parse_knob_entry<N: NumberText>(text: &str, min: Single, max: Single) -> (r: Option<Single>)
    ensures
        entry_of::<N>(text@, min, max, r),
{
    let t = trim(text);
    let s = t.as_str();
    let v = N::parse(s);
    assert(call_ensures(N::parse, (s,), v));
    assert(parse_of::<N>(trimmed(text@), v));
    accept_entry(v, min, max)
}

/// What an entry sets a knob to lies in its range.
pub proof fn lemma_entry_in_range(v: Option<Single>, min: Single, max: Single)
    requires
        min.at_most(max),
    ensures
        entry_value(v, min, max) matches Some(x) ==> min.at_most(x) && x.at_most(max),
{
}

// ----- Handling ---------------------------------------------------------------

/// Whether a knob is being typed into, and what.
pub struct KnobEdit {
    pub editing: bool,
    pub text: String,
}

/// What happened to a knob since it was last painted.
#[derive(Clone, Copy, PartialEq, Eq, Structural, Debug)]
pub struct KnobEvents {
    pub secondary_clicked: bool,
    pub double_clicked: bool,
    pub dragged: bool,
    /// How far down the drag went, in pixels.
    pub drag_dy: Single,
    pub enter: bool,
    pub escape: bool,
    pub lost_focus: bool,
}

/// Clicks on a knob: the secondary button sets it back to its default and ends
/// any typing, a double click begins typing with the value as it stands.
pub fn knob_clicked<N: NumberText>(
    edit: &mut KnobEdit,
    ev: KnobEvents,
    value: Single,
    default: Single,
    min: Single,
    max: Single,
) -> (r: Option<Single>)
    ensures
        ev.secondary_clicked ==> {
            &&& r == Some(default.held(min, max))
            &&& !final(edit).editing
            &&& final(edit).text == old(edit).text
        },
        !ev.secondary_clicked ==> r is None,
        !ev.secondary_clicked && ev.double_clicked ==> {
            &&& final(edit).editing
            &&& fixed_of::<N>(value, 2, final(edit).text@)
        },
        !ev.secondary_clicked && !ev.double_clicked ==> *final(edit) == *old(edit),
{
    if ev.secondary_clicked {
        edit.editing = false;
        return Some(default.clamp(min, max));
    }
    if ev.double_clicked {
        edit.editing = true;
        let t = N::fixed(value, 2);
        assert(call_ensures(N::fixed, (value, 2usize), t));
        edit.text = t;
    }
    None
}

/// `r` is where a drag by `dy` takes a knob: up for more.
pub open spec fn knob_drag_of<A: Arith>(
    value: Single,
    dy: Single,
    min: Single,
    max: Single,
    r: Single,
) -> bool {
    exists|share: Single, range: Single, delta: Single, raw: Single|
        {
            &&& #[trigger] over_of::<A>(dy.opposite(), Single(DRAG_SPAN), share)
            &&& #[trigger] minus_of::<A>(max, min, range)
            &&& #[trigger] times_of::<A>(share, range, delta)
            &&& #[trigger] plus_of::<A>(value, delta, raw)
            &&& r == raw.held(min, max)
        }
}

fn knob_drag<A: Arith>(value: Single, dy: Single, min: Single, max: Single) -> (r: Single)
    ensures
        knob_drag_of::<A>(value, dy, min, max, r),
{
    let share = A::over(dy.negated(), Single(DRAG_SPAN));
    let delta = A::times(share, A::minus(max, min));
    A::plus(value, delta).clamp(min, max)
}

/// The rest of what happens to a knob. While it is typed into, `typed` is its
/// text: escape or a click elsewhere drops it, enter takes it if it is a number.
/// Otherwise a drag moves the knob.
pub fn knob_moved<A: Arith, N: NumberText>(
    edit: &mut KnobEdit,
    typed: String,
    ev: KnobEvents,
    value: Single,
    min: Single,
    max: Single,
) -> (r: Option<Single>)
    ensures
        !old(edit).editing ==> {
            &&& *final(edit) == *old(edit)
            &&& ev.dragged ==> r is Some && knob_drag_of::<A>(value, ev.drag_dy, min, max, r->0)
            &&& !ev.dragged ==> r is None
        },
        old(edit).editing ==> final(edit).text == typed,
        old(edit).editing && ev.escape ==> r is None && !final(edit).editing,
        old(edit).editing && !ev.escape && ev.enter ==> {
            &&& entry_of::<N>(typed@, min, max, r)
            &&& final(edit).editing == (r is None)
        },
        old(edit).editing && !ev.escape && !ev.enter ==> {
            &&& r is None
            &&& final(edit).editing == !ev.lost_focus
        },
{
    if edit.editing {
        let mut r: Option<Single> = None;
        if ev.escape {
            edit.editing = false;
        } else if ev.enter {
            r = parse_knob_entry::<N>(typed.as_str(), min, max);
            if r.is_some() {
                edit.editing = false;
            }
        } else if ev.lost_focus {
            edit.editing = false;
        }
        edit.text = typed;
        r
    } else if ev.dragged {
        Some(knob_drag::<A>(value, ev.drag_dy, min, max))
    } else {
        None
    }
}

} // verus!
