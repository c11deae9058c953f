//! The node handles on the plot, and what dragging and clicking does to them.

use vstd::prelude::*;
use crate::arith::{hypot_of, log10_of, minus_of, over_of, plus_of, times_of, Arith};
use crate::dsp::{BANDS, MAX_NODES};
use crate::gui::axis::{depth_y, freq_at, x_at, Area, Axis, Pt};
use crate::gui::curve::{nearest_band, nearest_band_of, Nodes};
use crate::gui::theme::{gr_tint, rgb, tint_of, tint_share, tint_share_of, Rgb};
use crate::numbers::{
    HALF, MINUS_TWENTY, ONE, ONE_TEN_THOUSANDTH, QUARTER, TEN, THREE_QUARTERS, TWENTY, TWO, ZERO,
};
use crate::single::Single;

verus! {

/// Radius of a handle without reduction, `8`.
pub const HANDLE_RADIUS: u32 = 0x4100_0000;
/// How near a click counts as on a handle, `24`.
pub const NEAR: u32 = 0x41c0_0000;

/// Half the width of the place that a press on a badge counts in, `12`. It is 20
/// high.
pub const BADGE_REACH: u32 = 0x4140_0000;

/// `area` is the place around `center` that a press on a badge counts in.
pub open spec fn badge_hit_of<A: Arith>(center: Pt, area: Area) -> bool {
    &&& minus_of::<A>(center.x, Single(BADGE_REACH), area.left)
    &&& plus_of::<A>(center.x, Single(BADGE_REACH), area.right)
    &&& minus_of::<A>(center.y, Single(TEN), area.top)
    &&& plus_of::<A>(center.y, Single(TEN), area.bottom)
}

/// The place around the center of a badge that a press on the badge counts in.
pub fn badge_hit<A: Arith>(center: Pt) -> (area: Area)
    ensures
        badge_hit_of::<A>(center, area),
{
    Area {
        left: A::minus(center.x, Single(BADGE_REACH)),
        top: A::minus(center.y, Single(TEN)),
        right: A::plus(center.x, Single(BADGE_REACH)),
        bottom: A::plus(center.y, Single(TEN)),
    }
}

/// Whether a drag that began with the press at `press` moves a node whose badge is
/// hit in `hit`: a press on the badge leaves the node below it where it is.
pub fn drag_moves_node(hit: Area, press: Option<Pt>) -> (r: bool)
    ensures
        r <==> !(press matches Some(p) && hit.holds(p)),
{
    match press {
        Some(p) => !hit.contains(p),
        None => true,
    }
}

// ----- Order ------------------------------------------------------------------

/// Where a node of frequency `f` goes in `order`: behind all nodes, from the end,
/// that are not above it.
pub open spec fn place(order: Seq<usize>, freqs: Seq<Single>, f: Single) -> int
    decreases order.len(),
{
    if order.len() == 0 || !f.below(freqs[order.last() as int]) {
        order.len() as int
    } else {
        place(order.drop_last(), freqs, f)
    }
}

/// The enabled ones of the first `n` slots by frequency; equal ones in the order
/// of their slots.
pub open spec fn ranked(enabled: Seq<bool>, freqs: Seq<Single>, n: int) -> Seq<usize>
    decreases n,
{
    if n <= 0 {
        seq![]
    } else {
        let rest = ranked(enabled, freqs, n - 1);
        if enabled[n - 1] {
            rest.insert(place(rest, freqs, freqs[n - 1]), (n - 1) as usize)
        } else {
            rest
        }
    }
}

proof fn lemma_place_bounds(order: Seq<usize>, freqs: Seq<Single>, f: Single)
    ensures
        0 <= place(order, freqs, f) <= order.len(),
    decreases order.len(),
{
    if order.len() > 0 {
        lemma_place_bounds(order.drop_last(), freqs, f);
    }
}

/// The enabled slots by frequency.
pub fn freq_order(enabled: &[bool; MAX_NODES], freqs: &[Single; MAX_NODES]) -> (order: Vec<usize>)
    ensures
        order@ == ranked(enabled@, freqs@, MAX_NODES as int),
        forall|k: int| 0 <= k < order@.len() ==> (#[trigger] order@[k]) < MAX_NODES,
{
    let mut order: Vec<usize> = Vec::new();
    for j in 0..MAX_NODES
        invariant
            order@ == ranked(enabled@, freqs@, j as int),
            forall|k: int| 0 <= k < order@.len() ==> (#[trigger] order@[k]) < MAX_NODES,
    {
        if enabled[j] {
            let f = freqs[j];
            let n: usize = order.len();
            let mut k: usize = n;
            assert(order@.take(n as int) =~= order@);
            while k > 0 && f.lt(freqs[order[k - 1]])
                invariant
                    n == order@.len(),
                    k <= n,
                    forall|m: int| 0 <= m < order@.len() ==> (#[trigger] order@[m]) < MAX_NODES,
                    place(order@, freqs@, f) == place(order@.take(k as int), freqs@, f),
                decreases k,
            {
                assert(order@.take(k as int).drop_last() =~= order@.take(k - 1));
                assert(order@.take(k as int).last() == order@[k - 1]);
                k = k - 1;
            }
            proof {
                if k > 0 {
                    assert(order@.take(k as int).last() == order@[k - 1]);
                }
                assert(place(order@, freqs@, f) == k);
            }
            order.insert(k, j);
        }
    }
    order
}

/// The order names every enabled slot once, and no other.
pub proof fn lemma_order_names_enabled(enabled: Seq<bool>, freqs: Seq<Single>, n: int)
    requires
        0 <= n <= MAX_NODES,
    ensures
        ranked(enabled, freqs, n).no_duplicates(),
        forall|j: usize|
            #[trigger] ranked(enabled, freqs, n).contains(j) <==> (j < n && enabled[j as int]),
    decreases n,
{
    if n > 0 {
        lemma_order_names_enabled(enabled, freqs, n - 1);
        let rest = ranked(enabled, freqs, n - 1);
        if enabled[n - 1] {
            let k = place(rest, freqs, freqs[n - 1]);
            let slot = (n - 1) as usize;
            let all = rest.insert(k, slot);
            lemma_place_bounds(rest, freqs, freqs[n - 1]);
            assert(!rest.contains(slot));
            assert forall|j: usize| #[trigger] all.contains(j) <==> (j < n && enabled[j as int]) by {
                if all.contains(j) && j != slot {
                    let m = choose|m: int| 0 <= m < all.len() && all[m] == j;
                    assert(rest[if m < k { m } else { m - 1 }] == j);
                    assert(rest.contains(j));
                }
                if j < n && enabled[j as int] {
                    if j == slot {
                        assert(all[k] == slot);
                    } else {
                        assert(rest.contains(j));
                        let m = choose|m: int| 0 <= m < rest.len() && rest[m] == j;
                        assert(all[if m < k { m } else { m + 1 }] == j);
                    }
                }
            }
            assert forall|a: int, b: int| 0 <= a < b < all.len() implies all[a] != all[b] by {
                if a == k {
                    assert(rest.contains(rest[b - 1]));
                } else if b == k {
                    assert(rest.contains(rest[a]));
                } else {
                    let a0 = if a < k { a } else { a - 1 };
                    let b0 = if b < k { b } else { b - 1 };
                    assert(rest[a0] != rest[b0]);
                }
            }
        }
    }
}

/// No node comes before one of lower frequency.
pub open spec fn ascending(order: Seq<usize>, freqs: Seq<Single>) -> bool {
    forall|a: int, b: int|
        0 <= a < b < order.len() ==> freqs[#[trigger] order[a] as int].at_most(
            freqs[#[trigger] order[b] as int],
        )
}

/// The order of the nodes is by frequency.
pub proof fn lemma_order_ascends(enabled: Seq<bool>, freqs: Seq<Single>, n: int)
    requires
        0 <= n <= MAX_NODES,
        forall|j: int| 0 <= j < n && enabled[j] ==> !(#[trigger] freqs[j]).nan(),
    ensures
        ascending(ranked(enabled, freqs, n), freqs),
    decreases n,
{
    if n > 0 {
        lemma_order_ascends(enabled, freqs, n - 1);
        lemma_order_names_enabled(enabled, freqs, n - 1);
        let rest = ranked(enabled, freqs, n - 1);
        if enabled[n - 1] {
            let f = freqs[n - 1];
            let k = place(rest, freqs, f);
            lemma_place_bounds(rest, freqs, f);
            lemma_place_splits(rest, freqs, f);
            let all = rest.insert(k, (n - 1) as usize);
            assert forall|a: int, b: int| 0 <= a < b < all.len() implies freqs[#[trigger] all[a] as int].at_most(
                freqs[#[trigger] all[b] as int],
            ) by {
                if a == k {
                    assert(all[b] == rest[b - 1]);
                    assert(rest.contains(rest[b - 1]));
                } else if b == k {
                    assert(all[a] == rest[a]);
                    assert(rest.contains(rest[a]));
                    if a < k - 1 {
                        assert(freqs[rest[a] as int].at_most(freqs[rest[k - 1] as int]));
                    }
                    assert(rest.contains(rest[k - 1]));
                } else {
                    let a0 = if a < k { a } else { a - 1 };
                    let b0 = if b < k { b } else { b - 1 };
                    assert(all[a] == rest[a0] && all[b] == rest[b0]);
                }
            }
        }
    }
}

proof fn lemma_place_splits(order: Seq<usize>, freqs: Seq<Single>, f: Single)
    ensures
        ({
            let k = place(order, freqs, f);
            &&& 0 <= k <= order.len()
            &&& k > 0 ==> !f.below(freqs[order[k - 1] as int])
            &&& forall|m: int| k <= m < order.len() ==> f.below(freqs[#[trigger] order[m] as int])
        }),
    decreases order.len(),
{
    if order.len() > 0 && f.below(freqs[order.last() as int]) {
        let rest = order.drop_last();
        lemma_place_splits(rest, freqs, f);
        let k = place(order, freqs, f);
        assert forall|m: int| k <= m < order.len() implies f.below(freqs[#[trigger] order[m] as int]) by {
            if m < rest.len() {
                assert(order[m] == rest[m]);
            }
        }
        if k > 0 {
            assert(order[k - 1] == rest[k - 1]);
        }
    }
}

// ----- Dragging ---------------------------------------------------------------

/// Where slot `i` stands in the order; at the front where it does not.
pub open spec fn rank(order: Seq<usize>, i: usize) -> int {
    if order.contains(i) {
        order.index_of(i)
    } else {
        0
    }
}

/// The frequency that a drag may not take a node below.
pub open spec fn lower_bound(order: Seq<usize>, freqs: Seq<Single>, i: usize) -> Single {
    if rank(order, i) > 0 {
        freqs[order[rank(order, i) - 1] as int]
    } else {
        Single(TWENTY)
    }
}

/// The frequency that a drag may not take a node above.
pub open spec fn upper_bound(order: Seq<usize>, freqs: Seq<Single>, i: usize, f_max: Single) -> Single {
    if rank(order, i) + 1 < order.len() {
        freqs[order[rank(order, i) + 1] as int]
    } else {
        f_max
    }
}

fn find_rank(order: &Vec<usize>, i: usize) -> (r: usize)
    requires
        order@.no_duplicates(),
    ensures
        r == rank(order@, i),
        r == 0 || r < order@.len(),
{
    let n: usize = order.len();
    let mut k: usize = 0;
    while k < n
        invariant
            n == order@.len(),
            k <= n,
            order@.no_duplicates(),
            forall|m: int| 0 <= m < k ==> order@[m] != i,
        decreases n - k,
    {
        if order[k] == i {
            assert(order@.contains(i));
            assert(order@[order@.index_of(i)] == i);
            return k;
        }
        k = k + 1;
    }
    assert(!order@.contains(i));
    0
}

/// `new` is where a drag by `(dx, dy)` takes a node: down for less depth, and
/// along the axis between its neighbours.
pub open spec fn dragged_of<A: Arith>(
    ax: Axis,
    depth: Single,
    freq: Single,
    lo: Single,
    hi: Single,
    dx: Single,
    dy: Single,
    new: (Single, Single),
) -> bool {
    &&& exists|share: Single, raw: Single|
        {
            &&& #[trigger] over_of::<A>(dy.opposite(), ax.height, share)
            &&& #[trigger] plus_of::<A>(depth, share, raw)
            &&& new.0 == raw.held(Single(ZERO), Single(ONE))
        }
    &&& exists|x: Single, to: Single, raw: Single|
        {
            &&& #[trigger] x_at::<A>(ax, freq, x)
            &&& #[trigger] plus_of::<A>(x, dx, to)
            &&& #[trigger] freq_at::<A>(ax, to, raw)
            &&& new.1 == raw.held(lo, hi).held(Single(TWENTY), ax.f_max)
        }
}

/// Where a drag by `(dx, dy)` takes node `i`, as depth and frequency. Enabled
/// nodes never cross.
pub fn drag_node<A: Arith>(
    ax: &Axis,
    nodes: &Nodes,
    order: &Vec<usize>,
    i: usize,
    dx: Single,
    dy: Single,
) -> (new: (Single, Single))
    requires
        i < MAX_NODES,
        order@ == ranked(nodes.enabled@, nodes.freqs@, MAX_NODES as int),
    ensures
        dragged_of::<A>(
            *ax,
            nodes.depths@[i as int],
            nodes.freqs@[i as int],
            lower_bound(order@, nodes.freqs@, i),
            upper_bound(order@, nodes.freqs@, i, ax.f_max),
            dx,
            dy,
            new,
        ),
{
    proof {
        lemma_order_names_enabled(nodes.enabled@, nodes.freqs@, MAX_NODES as int);
        assert forall|k: int| 0 <= k < order@.len() implies (#[trigger] order@[k]) < MAX_NODES by {
            assert(order@.contains(order@[k]));
        }
    }
    let r = find_rank(order, i);
    let n: usize = order.len();
    let lo = if r > 0 {
        nodes.freqs[order[r - 1]]
    } else {
        Single(TWENTY)
    };
    let hi = if n > 0 && r < n - 1 {
        nodes.freqs[order[r + 1]]
    } else {
        ax.f_max
    };
    let share = A::over(dy.negated(), ax.height);
    let raw_depth = A::plus(nodes.depths[i], share);
    let depth = raw_depth.clamp(Single(ZERO), Single(ONE));
    let x = ax.x_of::<A>(nodes.freqs[i]);
    let to = A::plus(x, dx);
    let raw = ax.freq_of_x::<A>(to);
    let freq = raw.clamp(lo, hi).clamp(Single(TWENTY), ax.f_max);
    assert(over_of::<A>(dy.opposite(), ax.height, share));
    assert(x_at::<A>(*ax, nodes.freqs@[i as int], x));
    (depth, freq)
}

/// A drag keeps the nodes in order: the node on the plot that is dragged never
/// crosses a neighbour, whether or not that one is on the plot too.
pub proof fn lemma_drag_keeps_order<A: Arith>(
    ax: Axis,
    enabled: Seq<bool>,
    freqs: Seq<Single>,
    depth: Single,
    i: usize,
    dx: Single,
    dy: Single,
    new: (Single, Single),
)
    requires
        enabled.len() == MAX_NODES,
        freqs.len() == MAX_NODES,
        i < MAX_NODES,
        enabled[i as int],
        Single(TWENTY).at_most(freqs[i as int]),
        freqs[i as int].at_most(ax.f_max),
        forall|j: int| 0 <= j < MAX_NODES && enabled[j] ==> !(#[trigger] freqs[j]).nan(),
        ({
            let order = ranked(enabled, freqs, MAX_NODES as int);
            dragged_of::<A>(
                ax,
                depth,
                freqs[i as int],
                lower_bound(order, freqs, i),
                upper_bound(order, freqs, i, ax.f_max),
                dx,
                dy,
                new,
            )
        }),
        !new.1.nan(),
    ensures
        ascending(
            ranked(enabled, freqs, MAX_NODES as int),
            freqs.update(i as int, new.1),
        ),
        Single(TWENTY).at_most(new.1),
        new.1.at_most(ax.f_max),
{
    let order = ranked(enabled, freqs, MAX_NODES as int);
    lemma_order_names_enabled(enabled, freqs, MAX_NODES as int);
    lemma_order_ascends(enabled, freqs, MAX_NODES as int);
    assert(order.contains(i));
    let r = order.index_of(i);
    assert(order[r] == i);
    let lo = lower_bound(order, freqs, i);
    let hi = upper_bound(order, freqs, i, ax.f_max);
    assert forall|k: int| 0 <= k < order.len() implies (#[trigger] order[k]) < MAX_NODES
        && enabled[order[k] as int] by {
        assert(order.contains(order[k]));
    }
    let f = freqs[i as int];
    if r > 0 {
        assert(freqs[order[r - 1] as int].at_most(freqs[order[r] as int]));
    }
    if r + 1 < order.len() {
        assert(freqs[order[r] as int].at_most(freqs[order[r + 1] as int]));
    }
    assert(lo.at_most(f) && f.at_most(hi));
    assert(lo.at_most(new.1) && new.1.at_most(hi));
    let after = freqs.update(i as int, new.1);
    assert forall|a: int, b: int| 0 <= a < b < order.len() implies after[#[trigger] order[a] as int].at_most(
        after[#[trigger] order[b] as int],
    ) by {
        if a == r {
            assert(order[b] != i);
            if b > r + 1 {
                assert(freqs[order[r + 1] as int].at_most(freqs[order[b] as int]));
            }
        } else if b == r {
            assert(order[a] != i);
            if a < r - 1 {
                assert(freqs[order[a] as int].at_most(freqs[order[r - 1] as int]));
            }
        } else {
            assert(order[a] != i && order[b] != i);
        }
    }
}

// ----- Handles ----------------------------------------------------------------

/// `c` is where a node stands.
pub open spec fn node_center_of<A: Arith>(ax: Axis, depth: Single, freq: Single, c: Pt) -> bool {
    x_at::<A>(ax, freq, c.x) && depth_y::<A>(ax, depth, c.y)
}

/// The color of slot `i`.
pub open spec fn node_color_of(i: int) -> Rgb {
    seq![
        rgb(10, 196, 182),
        rgb(236, 72, 153),
        rgb(250, 204, 21),
        rgb(34, 197, 94),
        rgb(59, 130, 246),
        rgb(139, 92, 255),
        rgb(249, 115, 22),
        rgb(239, 68, 68),
    ][i]
}

/// The color of slot `i`.
pub fn node_color(i: usize) -> (c: Rgb)
    requires
        i < MAX_NODES,
    ensures
        c == node_color_of(i as int),
{
    match i {
        0 => Rgb::new(10, 196, 182),
        1 => Rgb::new(236, 72, 153),
        2 => Rgb::new(250, 204, 21),
        3 => Rgb::new(34, 197, 94),
        4 => Rgb::new(59, 130, 246),
        5 => Rgb::new(139, 92, 255),
        6 => Rgb::new(249, 115, 22),
        _ => Rgb::new(239, 68, 68),
    }
}

/// A handle as it is painted.
#[derive(Clone, Copy, PartialEq, Eq, Structural, Debug)]
pub struct Handle {
    pub center: Pt,
    pub color: Rgb,
    pub radius: Single,
}

/// `db` is the reduction that a gain stands for, as a positive number.
pub open spec fn reduction_db_of<A: Arith>(gain: Single, db: Single) -> bool {
    exists|log: Single| #[trigger]
        log10_of::<A>(gain.larger(Single(ONE_TEN_THOUSANDTH)), log) && times_of::<A>(
            Single(MINUS_TWENTY),
            log,
            db,
        )
}

/// `h` is the handle of slot `i`: it takes on color and swells with the reduction
/// of the band nearest to it, whose gain is `gain`.
pub open spec fn handle_of<A: Arith>(
    ax: Axis,
    i: int,
    depth: Single,
    freq: Single,
    gain: Single,
    h: Handle,
) -> bool {
    &&& node_center_of::<A>(ax, depth, freq, h.center)
    &&& exists|db: Single, t: Single, more: Single|
        {
            &&& #[trigger] reduction_db_of::<A>(gain, db)
            &&& #[trigger] tint_share_of::<A>(db, t)
            &&& #[trigger] times_of::<A>(Single(TWO), t, more)
            &&& plus_of::<A>(Single(HANDLE_RADIUS), more, h.radius)
            &&& tint_of::<A>(node_color_of(i), db, h.color)
        }
}

fn handle<A: Arith>(ax: &Axis, i: usize, depth: Single, freq: Single, gain: Single) -> (h: Handle)
    requires
        i < MAX_NODES,
    ensures
        handle_of::<A>(*ax, i as int, depth, freq, gain, h),
{
    let log = A::log10(gain.max(Single(ONE_TEN_THOUSANDTH)));
    let db = A::times(Single(MINUS_TWENTY), log);
    assert(reduction_db_of::<A>(gain, db));
    let t = tint_share::<A>(db);
    let more = A::times(Single(TWO), t);
    let center = Pt { x: ax.x_of::<A>(freq), y: ax.y_of_depth::<A>(depth) };
    Handle {
        center,
        color: gr_tint::<A>(node_color(i), db),
        radius: A::plus(Single(HANDLE_RADIUS), more),
    }
}

/// `h` is the handle of slot `i`.
pub open spec fn node_handle_of<A: Arith>(
    ax: Axis,
    nodes: Nodes,
    i: int,
    centers: Seq<Single>,
    reduction: Seq<Single>,
    h: Handle,
) -> bool {
    exists|band: int| #[trigger]
        nearest_band_of::<A>(centers, nodes.freqs@[i], band) && handle_of::<A>(
            ax,
            i,
            nodes.depths@[i],
            nodes.freqs@[i],
            reduction[band],
            h,
        )
}

/// The handle of slot `i`, where there is one to paint: the slot is enabled and
/// lies on the plot.
pub fn node_handle<A: Arith>(
    ax: &Axis,
    nodes: &Nodes,
    i: usize,
    centers: &[Single; BANDS],
    reduction: &[Single; BANDS],
) -> (r: Option<Handle>)
    requires
        i < MAX_NODES,
    ensures
        r is Some <==> nodes.enabled@[i as int] && ax.shows(nodes.freqs@[i as int]),
        r matches Some(h) ==> node_handle_of::<A>(*ax, *nodes, i as int, centers@, reduction@, h),
{
    if !nodes.enabled[i] || !ax.is_shown(nodes.freqs[i]) {
        return None;
    }
    let freq = nodes.freqs[i];
    let band = nearest_band::<A>(centers, freq);
    Some(handle::<A>(ax, i, nodes.depths[i], freq, reduction[band]))
}

/// `pts` is the line of a shape's glyph in a box from `l` to `r` and from `t` to
/// `b`, with `mid` halfway: a bump, or a shelf on either side.
pub open spec fn glyph_of<A: Arith>(
    shape: usize,
    l: Single,
    r: Single,
    t: Single,
    b: Single,
    mid: Single,
    pts: Seq<Pt>,
) -> bool {
    if shape == 0 {
        exists|w: Single, h: Single, wq: Single, wt: Single, hq: Single|
            {
                &&& #[trigger] minus_of::<A>(r, l, w)
                &&& #[trigger] minus_of::<A>(b, t, h)
                &&& #[trigger] times_of::<A>(w, Single(QUARTER), wq)
                &&& #[trigger] times_of::<A>(w, Single(THREE_QUARTERS), wt)
                &&& #[trigger] times_of::<A>(h, Single(QUARTER), hq)
                &&& pts.len() == 5
                &&& pts[0] == (Pt { x: l, y: b })
                &&& plus_of::<A>(l, wq, pts[1].x)
                &&& plus_of::<A>(t, hq, pts[1].y)
                &&& pts[2] == (Pt { x: mid, y: t })
                &&& plus_of::<A>(l, wt, pts[3].x)
                &&& plus_of::<A>(t, hq, pts[3].y)
                &&& pts[4] == (Pt { x: r, y: b })
            }
    } else if shape == 1 {
        pts == seq![Pt { x: l, y: t }, Pt { x: mid, y: t }, Pt { x: r, y: b }]
    } else {
        pts == seq![Pt { x: l, y: b }, Pt { x: mid, y: t }, Pt { x: r, y: t }]
    }
}

/// The line of a shape's glyph.
pub fn glyph<A: Arith>(shape: usize, l: Single, r: Single, t: Single, b: Single, mid: Single) -> (pts: Vec<
    Pt,
>)
    ensures
        glyph_of::<A>(shape, l, r, t, b, mid, pts@),
{
    let mut pts: Vec<Pt> = Vec::new();
    if shape == 0 {
        let w = A::minus(r, l);
        let h = A::minus(b, t);
        let wq = A::times(w, Single(QUARTER));
        let wt = A::times(w, Single(THREE_QUARTERS));
        let hq = A::times(h, Single(QUARTER));
        pts.push(Pt { x: l, y: b });
        pts.push(Pt { x: A::plus(l, wq), y: A::plus(t, hq) });
        pts.push(Pt { x: mid, y: t });
        pts.push(Pt { x: A::plus(l, wt), y: A::plus(t, hq) });
        pts.push(Pt { x: r, y: b });
        assert(minus_of::<A>(r, l, w));
        assert(minus_of::<A>(b, t, h));
    } else if shape == 1 {
        pts.push(Pt { x: l, y: t });
        pts.push(Pt { x: mid, y: t });
        pts.push(Pt { x: r, y: b });
        assert(pts@ =~= seq![Pt { x: l, y: t }, Pt { x: mid, y: t }, Pt { x: r, y: b }]);
    } else {
        pts.push(Pt { x: l, y: b });
        pts.push(Pt { x: mid, y: t });
        pts.push(Pt { x: r, y: t });
        assert(pts@ =~= seq![Pt { x: l, y: b }, Pt { x: mid, y: t }, Pt { x: r, y: t }]);
    }
    pts
}

// ----- New nodes --------------------------------------------------------------

/// A node to be made.
#[derive(Clone, Copy, PartialEq, Eq, Structural, Debug)]
pub struct NewNode {
    pub slot: usize,
    pub depth: Single,
    pub freq: Single,
}

/// `d` is how far a click is from a node.
pub open spec fn click_distance_of<A: Arith>(
    ax: Axis,
    depth: Single,
    freq: Single,
    click: Pt,
    d: Single,
) -> bool {
    exists|c: Pt, dx: Single, dy: Single|
        {
            &&& #[trigger] node_center_of::<A>(ax, depth, freq, c)
            &&& #[trigger] minus_of::<A>(c.x, click.x, dx)
            &&& #[trigger] minus_of::<A>(c.y, click.y, dy)
            &&& hypot_of::<A>(dx, dy, d)
        }
}

fn click_distance<A: Arith>(ax: &Axis, depth: Single, freq: Single, click: Pt) -> (d: Single)
    ensures
        click_distance_of::<A>(*ax, depth, freq, click, d),
{
    let c = Pt { x: ax.x_of::<A>(freq), y: ax.y_of_depth::<A>(depth) };
    assert(node_center_of::<A>(*ax, depth, freq, c));
    A::hypot(A::minus(c.x, click.x), A::minus(c.y, click.y))
}

/// `ds` are the distances of a click from all enabled nodes.
pub open spec fn click_distances_of<A: Arith>(ax: Axis, nodes: Nodes, click: Pt, ds: Seq<Single>) -> bool {
    &&& ds.len() == MAX_NODES
    &&& forall|j: int|
        0 <= j < MAX_NODES && nodes.enabled@[j] ==> click_distance_of::<A>(
            ax,
            nodes.depths@[j],
            nodes.freqs@[j],
            click,
            #[trigger] ds[j],
        )
}

/// The first slot that is not in use.
pub open spec fn first_free(enabled: Seq<bool>, slot: int) -> bool {
    &&& 0 <= slot < MAX_NODES
    &&& !enabled[slot]
    &&& forall|j: int| 0 <= j < slot ==> #[trigger] enabled[j]
}

/// `r` is the node that a double click makes: in the first slot not in use, at
/// half depth, at the frequency of the click. None where the click is outside the
/// plot or on a node, or where all slots are in use.
pub open spec fn node_made_of<A: Arith>(ax: Axis, nodes: Nodes, click: Pt, r: Option<NewNode>) -> bool {
    &&& exists|ds: Seq<Single>|
        {
            &&& #[trigger] click_distances_of::<A>(ax, nodes, click, ds)
            &&& r is None <==> !ax.plot.holds(click) || (exists|j: int|
                0 <= j < MAX_NODES && nodes.enabled@[j] && (#[trigger] ds[j]).below(Single(NEAR))) || (
            forall|j: int| 0 <= j < MAX_NODES ==> #[trigger] nodes.enabled@[j])
        }
    &&& r matches Some(n) ==> {
        &&& first_free(nodes.enabled@, n.slot as int)
        &&& n.depth == Single(HALF)
        &&& exists|raw: Single| #[trigger]
            freq_at::<A>(ax, click.x, raw) && n.freq == raw.held(Single(TWENTY), ax.f_max)
    }
}

/// The node that a double click makes.
pub fn new_node<A: Arith>(ax: &Axis, nodes: &Nodes, click: Pt) -> (r: Option<NewNode>)
    ensures
        node_made_of::<A>(*ax, *nodes, click, r),
{
    let mut near = false;
    let ghost mut ds: Seq<Single> = seq![];
    for j in 0..MAX_NODES
        invariant
            ds.len() == j,
            forall|m: int|
                0 <= m < j && nodes.enabled@[m] ==> click_distance_of::<A>(
                    *ax,
                    nodes.depths@[m],
                    nodes.freqs@[m],
                    click,
                    #[trigger] ds[m],
                ),
            near <==> exists|m: int|
                0 <= m < j && nodes.enabled@[m] && (#[trigger] ds[m]).below(Single(NEAR)),
    {
        let ghost before = ds;
        if nodes.enabled[j] {
            let d = click_distance::<A>(ax, nodes.depths[j], nodes.freqs[j], click);
            proof {
                ds = ds.push(d);
            }
            if d.lt(Single(NEAR)) {
                near = true;
                assert(ds[j as int].below(Single(NEAR)));
            }
        } else {
            proof {
                ds = ds.push(Single(ZERO));
            }
        }
        proof {
            assert(forall|m: int| 0 <= m < j ==> ds[m] == #[trigger] before[m]);
        }
    }
    assert(click_distances_of::<A>(*ax, *nodes, click, ds));
    if near || !ax.plot.contains(click) {
        return None;
    }
    let mut slot: usize = 0;
    while slot < MAX_NODES && nodes.enabled[slot]
        invariant
            slot <= MAX_NODES,
            forall|j: int| 0 <= j < slot ==> #[trigger] nodes.enabled@[j],
        decreases MAX_NODES - slot,
    {
        slot = slot + 1;
    }
    if slot == MAX_NODES {
        return None;
    }
    let raw = ax.freq_of_x::<A>(click.x);
    assert(freq_at::<A>(*ax, click.x, raw));
    Some(NewNode { slot, depth: Single(HALF), freq: raw.clamp(Single(TWENTY), ax.f_max) })
}

} // verus!
