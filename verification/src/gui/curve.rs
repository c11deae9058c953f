//! Curves through the bands.

use vstd::prelude::*;
use crate::arith::{
    count_of, log10_of, log2_of, minus_of, over_of, plus_of, pow_of, times_of, Arith,
};
use crate::dsp::detector::{node_shape, node_shape_of};
use crate::dsp::{BANDS, MAX_NODES};
use crate::gui::axis::{x_at, y_at, Area, Axis, Pt, DB_MIN};
use crate::numbers::{HALF, ONE, ONE_TEN_THOUSANDTH, SIX, TEN, TWELVE, TWENTY, ZERO};
use crate::single::{Single, INFINITY_BITS};
use crate::text::{joined, lemma_joined_push};

verus! {

/// Lowest level of the reduction curve, `-40` dB.
pub const REDUCTION_MIN: u32 = 0xc220_0000;

/// Opacity of the fill just under the spectrum, `38` of 255.
pub const FILL_ALPHA: u32 = 0x4218_0000;
/// How fast the fill fades downward, `1.5`.
pub const FILL_POWER: u32 = 0x3fc0_0000;
/// Pieces of the fill in one column.
pub const FILL_SEGMENTS: usize = 7;

/// Where full depth lies, as a share of the plot from its top, `0.05`.
pub const SHAPE_TOP: u32 = 0x3d4c_cccd;
/// How far zero depth lies below full depth, as a share of the plot, `0.9`.
pub const SHAPE_RANGE: u32 = 0x3f66_6666;

/// What a curve shows, and how its levels are held to the plot.
#[derive(Clone, Copy, PartialEq, Eq, Structural, Debug)]
pub enum Trace {
    Spectrum,
    /// The spectrum, 6 dB lower.
    Envelope,
    Reduction,
}

/// `r` is the level `db` as the trace shows it.
pub open spec fn shown_level_of<A: Arith>(trace: Trace, db: Single, r: Single) -> bool {
    match trace {
        Trace::Spectrum => r == db.held(Single(DB_MIN), Single(TWELVE)),
        Trace::Envelope => exists|lower: Single| #[trigger]
            minus_of::<A>(db, Single(SIX), lower) && r == lower.held(Single(DB_MIN), Single(TWELVE)),
        Trace::Reduction => r == db.held(Single(REDUCTION_MIN), Single(ZERO)),
    }
}

fn shown_level<A: Arith>(trace: Trace, db: Single) -> (r: Single)
    ensures
        shown_level_of::<A>(trace, db, r),
{
    match trace {
        Trace::Spectrum => db.clamp(Single(DB_MIN), Single(TWELVE)),
        Trace::Envelope => A::minus(db, Single(SIX)).clamp(Single(DB_MIN), Single(TWELVE)),
        Trace::Reduction => db.clamp(Single(REDUCTION_MIN), Single(ZERO)),
    }
}

/// `log` is the logarithm of the frequency of point `i` of `n`, evenly spread
/// over the plot.
pub open spec fn sweep_of<A: Arith>(ax: Axis, i: usize, n: usize, log: Single) -> bool {
    exists|at: Single, last: Single, t: Single, way: Single|
        {
            &&& #[trigger] count_of::<A>(i, at)
            &&& #[trigger] count_of::<A>((n - 1) as usize, last)
            &&& #[trigger] over_of::<A>(at, last, t)
            &&& #[trigger] times_of::<A>(t, ax.l_span, way)
            &&& plus_of::<A>(ax.l_min, way, log)
        }
}

fn sweep<A: Arith>(ax: &Axis, i: usize, n: usize) -> (log: Single)
    requires
        i < n,
    ensures
        sweep_of::<A>(*ax, i, n, log),
{
    let t = A::over(A::of_count(i), A::of_count(n - 1));
    A::plus(ax.l_min, A::times(t, ax.l_span))
}

/// The bands up to `r` have centers up to `freq`, as far as their neighbours
/// tell: for centers in ascending order, `r` is the number of such bands.
pub open spec fn splits(centers: Seq<Single>, freq: Single, r: int) -> bool {
    &&& 0 <= r <= BANDS
    &&& r > 0 ==> centers[r - 1].at_most(freq)
    &&& r < BANDS ==> !centers[r].at_most(freq)
}

fn split_at(centers: &[Single; BANDS], freq: Single) -> (r: usize)
    ensures
        splits(centers@, freq, r as int),
{
    let mut lo: usize = 0;
    let mut hi: usize = BANDS;
    while lo < hi
        invariant
            lo <= hi <= BANDS,
            lo > 0 ==> centers@[lo - 1].at_most(freq),
            hi < BANDS ==> !centers@[hi as int].at_most(freq),
        decreases hi - lo,
    {
        let mid: usize = lo + (hi - lo) / 2;
        if centers[mid].le(freq) {
            lo = mid + 1;
        } else {
            hi = mid;
        }
    }
    lo
}

/// For centers in ascending order there is just one place where `freq` splits
/// them.
pub proof fn lemma_split_is_unique(centers: Seq<Single>, freq: Single, a: int, b: int)
    requires
        forall|i: int, j: int|
            0 <= i < j < BANDS ==> (#[trigger] centers[i]).at_most(#[trigger] centers[j]),
        splits(centers, freq, a),
        splits(centers, freq, b),
    ensures
        a == b,
{
    if a < b {
        if a < b - 1 {
            assert(centers[a].at_most(centers[b - 1]));
        }
    } else if b < a {
        if b < a - 1 {
            assert(centers[b].at_most(centers[a - 1]));
        }
    }
}

/// `v` is the value at a frequency of logarithm `log`, between those of the two
/// neighbouring bands.
pub open spec fn blended_of<A: Arith>(
    c0: Single,
    c1: Single,
    v0: Single,
    v1: Single,
    log: Single,
    v: Single,
) -> bool {
    exists|l0: Single, l1: Single, t: Single, rise: Single, way: Single|
        {
            &&& #[trigger] log10_of::<A>(c0.larger(Single(TWENTY)), l0)
            &&& #[trigger] log10_of::<A>(c1.larger(Single(TWENTY)), l1)
            &&& #[trigger] local_share_of::<A>(l0, l1, log, t)
            &&& #[trigger] minus_of::<A>(v1, v0, rise)
            &&& #[trigger] times_of::<A>(t, rise, way)
            &&& plus_of::<A>(v0, way, v)
        }
}

/// `t` is how far `log` is from `l0` to `l1`; nowhere where they coincide.
pub open spec fn local_share_of<A: Arith>(l0: Single, l1: Single, log: Single, t: Single) -> bool {
    if l0.below(l1) {
        exists|past: Single, span: Single|
            {
                &&& #[trigger] minus_of::<A>(log, l0, past)
                &&& #[trigger] minus_of::<A>(l1, l0, span)
                &&& over_of::<A>(past, span, t)
            }
    } else {
        t == Single(ZERO)
    }
}

fn local_share<A: Arith>(l0: Single, l1: Single, log: Single) -> (t: Single)
    ensures
        local_share_of::<A>(l0, l1, log, t),
{
    if l0.lt(l1) {
        A::over(A::minus(log, l0), A::minus(l1, l0))
    } else {
        Single(ZERO)
    }
}

fn blended<A: Arith>(c0: Single, c1: Single, v0: Single, v1: Single, log: Single) -> (v: Single)
    ensures
        blended_of::<A>(c0, c1, v0, v1, log, v),
{
    let l0 = A::log10(c0.max(Single(TWENTY)));
    let l1 = A::log10(c1.max(Single(TWENTY)));
    let t = local_share::<A>(l0, l1, log);
    A::plus(v0, A::times(t, A::minus(v1, v0)))
}

/// `v` is the value of the bands at `freq`: between two bands a blend of both,
/// beyond the ends that of the last band there.
pub open spec fn value_at<A: Arith>(
    centers: Seq<Single>,
    values: Seq<Single>,
    freq: Single,
    log: Single,
    v: Single,
) -> bool {
    exists|r: int| #[trigger]
        splits(centers, freq, r) && if r == 0 {
            v == values[0]
        } else if r >= BANDS {
            v == values[BANDS - 1]
        } else {
            blended_of::<A>(centers[r - 1], centers[r], values[r - 1], values[r], log, v)
        }
}

/// `p` is point `i` of `n` of a curve.
pub open spec fn curve_point_of<A: Arith>(
    ax: Axis,
    centers: Seq<Single>,
    values: Seq<Single>,
    trace: Trace,
    i: usize,
    n: usize,
    p: Pt,
) -> bool {
    exists|log: Single, freq: Single, v: Single, level: Single|
        {
            &&& #[trigger] sweep_of::<A>(ax, i, n, log)
            &&& #[trigger] pow_of::<A>(Single(TEN), log, freq)
            &&& #[trigger] value_at::<A>(centers, values, freq, log, v)
            &&& #[trigger] shown_level_of::<A>(trace, v, level)
            &&& x_at::<A>(ax, freq, p.x)
            &&& y_at::<A>(ax, level, p.y)
        }
}

fn curve_point<A: Arith>(
    ax: &Axis,
    centers: &[Single; BANDS],
    values: &[Single; BANDS],
    trace: Trace,
    i: usize,
    n: usize,
) -> (p: Pt)
    requires
        i < n,
    ensures
        curve_point_of::<A>(*ax, centers@, values@, trace, i, n, p),
{
    let log = sweep::<A>(ax, i, n);
    let freq = A::pow(Single(TEN), log);
    let r = split_at(centers, freq);
    assert(splits(centers@, freq, r as int));
    let v = if r == 0 {
        values[0]
    } else if r >= BANDS {
        values[BANDS - 1]
    } else {
        blended::<A>(centers[r - 1], centers[r], values[r - 1], values[r], log)
    };
    assert(value_at::<A>(centers@, values@, freq, log, v));
    let level = shown_level::<A>(trace, v);
    Pt { x: ax.x_of::<A>(freq), y: ax.y_of::<A>(level) }
}

/// `pts` are the `n` points of a curve.
pub open spec fn curve_of<A: Arith>(
    ax: Axis,
    centers: Seq<Single>,
    values: Seq<Single>,
    trace: Trace,
    n: usize,
    pts: Seq<Pt>,
) -> bool {
    &&& pts.len() == n
    &&& forall|i: int|
        0 <= i < n ==> curve_point_of::<A>(
            ax,
            centers,
            values,
            trace,
            i as usize,
            n,
            #[trigger] pts[i],
        )
}

/// A smooth curve of `target_points` points through the bands.
pub fn interpolate_curve<A: Arith>(
    ax: &Axis,
    centers: &[Single; BANDS],
    values: &[Single; BANDS],
    trace: Trace,
    target_points: usize,
) -> (pts: Vec<Pt>)
    ensures
        curve_of::<A>(*ax, centers@, values@, trace, target_points, pts@),
{
    let mut pts: Vec<Pt> = Vec::with_capacity(target_points);
    for i in 0..target_points
        invariant
            pts@.len() == i,
            forall|m: int|
                0 <= m < i ==> curve_point_of::<A>(
                    *ax,
                    centers@,
                    values@,
                    trace,
                    m as usize,
                    target_points,
                    #[trigger] pts@[m],
                ),
    {
        pts.push(curve_point::<A>(ax, centers, values, trace, i, target_points));
    }
    pts
}

// ----- Levels -----------------------------------------------------------------

/// `r` is a linear gain in dB; gains below 1e-4 count as that.
pub open spec fn gain_level_of<A: Arith>(gain: Single, r: Single) -> bool {
    exists|log: Single| #[trigger]
        log10_of::<A>(gain.larger(Single(ONE_TEN_THOUSANDTH)), log) && times_of::<A>(
            Single(TWENTY),
            log,
            r,
        )
}

/// The gains of all bands in dB.
pub fn reduction_levels<A: Arith>(reduction: &[Single; BANDS]) -> (r: [Single; BANDS])
    ensures
        forall|i: int| 0 <= i < BANDS ==> gain_level_of::<A>(reduction@[i], #[trigger] r@[i]),
{
    let mut r = [Single(ZERO); BANDS];
    for i in 0..BANDS
        invariant
            forall|m: int| 0 <= m < i ==> gain_level_of::<A>(reduction@[m], #[trigger] r@[m]),
    {
        let log = A::log10(reduction[i].max(Single(ONE_TEN_THOUSANDTH)));
        r[i] = A::times(Single(TWENTY), log);
    }
    r
}

/// `d` is the distance of a band from a frequency of logarithm `target`.
pub open spec fn band_distance_of<A: Arith>(center: Single, target: Single, d: Single) -> bool {
    exists|log: Single, off: Single|
        {
            &&& #[trigger] log2_of::<A>(center, log)
            &&& #[trigger] minus_of::<A>(log, target, off)
            &&& d == off.absolute()
        }
}

/// The first of the first `n` bands that is nearer than all before it, and how
/// near it is. Bands without a center are passed over.
pub open spec fn nearest_of(centers: Seq<Single>, ds: Seq<Single>, n: int) -> (int, Single)
    decreases n,
{
    if n <= 0 {
        (0, Single(INFINITY_BITS))
    } else {
        let best = nearest_of(centers, ds, n - 1);
        if !centers[n - 1].at_most(Single(ZERO)) && ds[n - 1].below(best.1) {
            (n - 1, ds[n - 1])
        } else {
            best
        }
    }
}

/// `r` is the band nearest to `freq`, by the distance of their logarithms; the
/// first one where no band has a center yet.
pub open spec fn nearest_band_of<A: Arith>(centers: Seq<Single>, freq: Single, r: int) -> bool {
    exists|target: Single, ds: Seq<Single>|
        {
            &&& #[trigger] log2_of::<A>(freq.larger(Single(ONE)), target)
            &&& #[trigger] ds.len() == BANDS
            &&& forall|i: int|
                0 <= i < BANDS && !centers[i].at_most(Single(ZERO)) ==> band_distance_of::<A>(
                    centers[i],
                    target,
                    #[trigger] ds[i],
                )
            &&& r == nearest_of(centers, ds, BANDS as int).0
        }
}

/// The band nearest to `freq`.
pub fn nearest_band<A: Arith>(centers: &[Single; BANDS], freq: Single) -> (r: usize)
    ensures
        r < BANDS,
        nearest_band_of::<A>(centers@, freq, r as int),
{
    let target = A::log2(freq.max(Single(ONE)));
    let mut best: usize = 0;
    let mut best_dist = Single(INFINITY_BITS);
    let ghost mut ds: Seq<Single> = seq![];
    for i in 0..BANDS
        invariant
            ds.len() == i,
            best < BANDS,
            (best as int, best_dist) == nearest_of(centers@, ds, i as int),
            forall|m: int|
                0 <= m < i && !centers@[m].at_most(Single(ZERO)) ==> band_distance_of::<A>(
                    centers@[m],
                    target,
                    #[trigger] ds[m],
                ),
    {
        let ghost before = ds;
        if centers[i].le(Single(ZERO)) {
            proof {
                ds = ds.push(Single(ZERO));
            }
        } else {
            let d = A::minus(A::log2(centers[i]), target).abs();
            assert(band_distance_of::<A>(centers@[i as int], target, d));
            proof {
                ds = ds.push(d);
            }
            if d.lt(best_dist) {
                best_dist = d;
                best = i;
            }
        }
        proof {
            lemma_nearest_prefix(centers@, before, ds, i as int);
        }
    }
    assert(ds.len() == BANDS);
    best
}

proof fn lemma_nearest_prefix(centers: Seq<Single>, a: Seq<Single>, b: Seq<Single>, n: int)
    requires
        0 <= n <= a.len(),
        n <= b.len(),
        forall|i: int| 0 <= i < n ==> a[i] == b[i],
    ensures
        nearest_of(centers, a, n) == nearest_of(centers, b, n),
    decreases n,
{
    if n > 0 {
        lemma_nearest_prefix(centers, a, b, n - 1);
    }
}

/// No band with a center is nearer than the nearest one.
pub proof fn lemma_nearest_is_nearest(centers: Seq<Single>, ds: Seq<Single>, n: int, i: int)
    requires
        0 <= i < n <= ds.len(),
        !centers[i].at_most(Single(ZERO)),
    ensures
        !ds[i].below(nearest_of(centers, ds, n).1),
        nearest_of(centers, ds, n).1 == Single(INFINITY_BITS) || nearest_of(centers, ds, n).1
            == ds[nearest_of(centers, ds, n).0],
    decreases n,
{
    if n == 1 {
    } else if i < n - 1 {
        lemma_nearest_is_nearest(centers, ds, n - 1, i);
    } else {
        lemma_nearest_origin(centers, ds, n - 1);
    }
}

proof fn lemma_nearest_origin(centers: Seq<Single>, ds: Seq<Single>, n: int)
    requires
        0 <= n <= ds.len(),
    ensures
        nearest_of(centers, ds, n).1 == Single(INFINITY_BITS) || nearest_of(centers, ds, n).1
            == ds[nearest_of(centers, ds, n).0],
    decreases n,
{
    if n > 0 {
        lemma_nearest_origin(centers, ds, n - 1);
    }
}

// ----- Fill under the spectrum ------------------------------------------------

/// A piece of the fill, and how opaque it is.
#[derive(Clone, Copy, PartialEq, Eq, Structural, Debug)]
pub struct Strip {
    pub area: Area,
    pub alpha: u8,
}

/// Points of a curve from one column of the fill to the next.
pub open spec fn column_step(len: nat) -> int {
    if len > 300 {
        2
    } else {
        1
    }
}

/// `w` is the width of the column at point `i`: to the next column, or else from
/// the one before, and never below 1.
pub open spec fn column_width_of<A: Arith>(pts: Seq<Pt>, i: int, w: Single) -> bool {
    let step = column_step(pts.len());
    if i + step < pts.len() {
        exists|d: Single| #[trigger]
            minus_of::<A>(pts[i + step].x, pts[i].x, d) && w == d.absolute().larger(Single(ONE))
    } else if i >= step {
        exists|d: Single| #[trigger]
            minus_of::<A>(pts[i].x, pts[i - step].x, d) && w == d.absolute().larger(Single(ONE))
    } else {
        w == Single(ONE)
    }
}

fn column_width<A: Arith>(pts: &Vec<Pt>, i: usize, step: usize) -> (w: Single)
    requires
        i < pts@.len(),
        step == column_step(pts@.len()),
    ensures
        column_width_of::<A>(pts@, i as int, w),
{
    let n: usize = pts.len();
    if step < n - i {
        A::minus(pts[i + step].x, pts[i].x).abs().max(Single(ONE))
    } else if i >= step {
        A::minus(pts[i].x, pts[i - step].x).abs().max(Single(ONE))
    } else {
        Single(ONE)
    }
}

/// `s` is piece `seg` of the column that hangs `drop` down from `p`.
pub open spec fn strip_of<A: Arith>(p: Pt, width: Single, drop: Single, seg: usize, s: Strip) -> bool {
    exists|n: Single, a: Single, e: Single, d0: Single, d1: Single|
        {
            &&& #[trigger] count_of::<A>(FILL_SEGMENTS, n)
            &&& #[trigger] count_of::<A>(seg, a)
            &&& #[trigger] count_of::<A>((seg + 1) as usize, e)
            &&& #[trigger] over_of::<A>(a, n, d0)
            &&& #[trigger] over_of::<A>(e, n, d1)
            &&& strip_alpha_of::<A>(d0, d1, s.alpha)
            &&& s.area.left == p.x
            &&& plus_of::<A>(p.x, width, s.area.right)
            &&& exists|off: Single| #[trigger]
                times_of::<A>(d0, drop, off) && plus_of::<A>(p.y, off, s.area.top)
            &&& exists|off: Single, end: Single|
                {
                    &&& #[trigger] times_of::<A>(d1, drop, off)
                    &&& #[trigger] plus_of::<A>(p.y, off, end)
                    &&& plus_of::<A>(end, Single(HALF), s.area.bottom)
                }
        }
}

/// `alpha` is the opacity of the piece from `d0` to `d1` of a column.
pub open spec fn strip_alpha_of<A: Arith>(d0: Single, d1: Single, alpha: u8) -> bool {
    exists|both: Single, mid: Single, rest: Single, p: Single, raw: Single|
        {
            &&& #[trigger] plus_of::<A>(d0, d1, both)
            &&& #[trigger] times_of::<A>(both, Single(HALF), mid)
            &&& #[trigger] minus_of::<A>(Single(ONE), mid, rest)
            &&& #[trigger] pow_of::<A>(rest, Single(FILL_POWER), p)
            &&& #[trigger] times_of::<A>(Single(FILL_ALPHA), p, raw)
            &&& alpha == raw.byte_part()
        }
}

fn strip_alpha<A: Arith>(d0: Single, d1: Single) -> (alpha: u8)
    ensures
        strip_alpha_of::<A>(d0, d1, alpha),
{
    let mid = A::times(A::plus(d0, d1), Single(HALF));
    let p = A::pow(A::minus(Single(ONE), mid), Single(FILL_POWER));
    A::times(Single(FILL_ALPHA), p).whole_byte()
}

fn strip<A: Arith>(p: Pt, width: Single, drop: Single, seg: usize) -> (s: Strip)
    requires
        seg < FILL_SEGMENTS,
    ensures
        strip_of::<A>(p, width, drop, seg, s),
{
    let n = A::of_count(FILL_SEGMENTS);
    let a = A::of_count(seg);
    let e = A::of_count(seg + 1);
    let d0 = A::over(a, n);
    let d1 = A::over(e, n);
    let top_off = A::times(d0, drop);
    let end_off = A::times(d1, drop);
    let end = A::plus(p.y, end_off);
    let s = Strip {
        area: Area {
            left: p.x,
            top: A::plus(p.y, top_off),
            right: A::plus(p.x, width),
            bottom: A::plus(end, Single(HALF)),
        },
        alpha: strip_alpha::<A>(d0, d1),
    };
    assert(times_of::<A>(d0, drop, top_off));
    assert(times_of::<A>(d1, drop, end_off));
    assert(count_of::<A>(FILL_SEGMENTS, n));
    assert(count_of::<A>(seg, a));
    assert(count_of::<A>((seg + 1) as usize, e));
    s
}

/// `strips` is the column at point `i`, from the curve down to the bottom of the
/// plot. A column that would not hang down is empty.
pub open spec fn column_of<A: Arith>(bottom: Single, pts: Seq<Pt>, i: int, strips: Seq<Strip>) -> bool {
    exists|width: Single, drop: Single|
        {
            &&& #[trigger] column_width_of::<A>(pts, i, width)
            &&& #[trigger] minus_of::<A>(bottom, pts[i].y, drop)
            &&& if drop.at_most(Single(ZERO)) {
                strips.len() == 0
            } else {
                &&& strips.len() == FILL_SEGMENTS
                &&& forall|k: int|
                    0 <= k < FILL_SEGMENTS ==> strip_of::<A>(
                        pts[i],
                        width,
                        drop,
                        k as usize,
                        #[trigger] strips[k],
                    )
            }
        }
}

fn column<A: Arith>(bottom: Single, pts: &Vec<Pt>, i: usize, step: usize) -> (strips: Vec<Strip>)
    requires
        i < pts@.len(),
        step == column_step(pts@.len()),
    ensures
        column_of::<A>(bottom, pts@, i as int, strips@),
{
    let width = column_width::<A>(pts, i, step);
    let p = pts[i];
    let drop = A::minus(bottom, p.y);
    let mut strips: Vec<Strip> = Vec::new();
    if !drop.le(Single(ZERO)) {
        for k in 0..FILL_SEGMENTS
            invariant
                strips@.len() == k,
                forall|m: int|
                    0 <= m < k ==> strip_of::<A>(p, width, drop, m as usize, #[trigger] strips@[m]),
        {
            strips.push(strip::<A>(p, width, drop, k));
        }
    }
    assert(column_width_of::<A>(pts@, i as int, width));
    assert(minus_of::<A>(bottom, pts@[i as int].y, drop));
    strips
}

/// `strips` is the fill between a curve and the bottom of the plot, column after
/// column.
pub open spec fn fill_of<A: Arith>(bottom: Single, pts: Seq<Pt>, strips: Seq<Strip>) -> bool {
    exists|columns: Seq<Seq<Strip>>|
        {
            &&& (#[trigger] columns.len() - 1) * column_step(pts.len()) < pts.len()
            &&& columns.len() * column_step(pts.len()) >= pts.len()
            &&& forall|k: int|
                0 <= k < columns.len() ==> column_of::<A>(
                    bottom,
                    pts,
                    k * column_step(pts.len()),
                    #[trigger] columns[k],
                )
            &&& strips == joined(columns)
        }
}

/// The fill between a curve and the bottom of the plot. Every column stands on
/// its own, so nothing is ever drawn across.
pub fn fill_under<A: Arith>(ax: &Axis, pts: &Vec<Pt>) -> (strips: Vec<Strip>)
    ensures
        fill_of::<A>(ax.plot.bottom, pts@, strips@),
{
    let n: usize = pts.len();
    let step: usize = if n > 300 {
        2
    } else {
        1
    };
    let mut strips: Vec<Strip> = Vec::new();
    let ghost mut columns: Seq<Seq<Strip>> = seq![];
    let mut i: usize = 0;
    assert(strips@ =~= joined(columns));
    if n == 0 {
        assert((columns.len() - 1) * column_step(pts@.len()) < pts@.len());
        return strips;
    }
    loop
        invariant_except_break
            i == columns.len() * step,
            i < n,
        invariant
            n == pts@.len(),
            n > 0,
            step == column_step(pts@.len()),
            strips@ == joined(columns),
            forall|k: int|
                0 <= k < columns.len() ==> column_of::<A>(
                    ax.plot.bottom,
                    pts@,
                    k * column_step(pts@.len()),
                    #[trigger] columns[k],
                ),
        ensures
            (columns.len() - 1) * column_step(pts@.len()) < pts@.len(),
            columns.len() * column_step(pts@.len()) >= pts@.len(),
            strips@ == joined(columns),
            forall|k: int|
                0 <= k < columns.len() ==> column_of::<A>(
                    ax.plot.bottom,
                    pts@,
                    k * column_step(pts@.len()),
                    #[trigger] columns[k],
                ),
        decreases n - i,
    {
        let mut more = column::<A>(ax.plot.bottom, pts, i, step);
        let ghost part = more@;
        let ghost before = columns;
        strips.append(&mut more);
        proof {
            lemma_joined_push(columns, part);
            columns = columns.push(part);
            assert(column_step(pts@.len()) == 1 || column_step(pts@.len()) == 2);
            assert(forall|k: int| 0 <= k < before.len() ==> columns[k] == #[trigger] before[k]);
        }
        if step >= n - i {
            break;
        }
        i = i + step;
    }
    strips
}

// ----- Areas ------------------------------------------------------------------

/// The outline of the band between a curve and its envelope: along the curve,
/// back along the envelope, and back to the start.
pub fn envelope_area(curve: &Vec<Pt>, envelope: &Vec<Pt>) -> (area: Vec<Pt>)
    requires
        curve@.len() > 0,
    ensures
        area@ == curve@ + envelope@.reverse() + seq![curve@[0]],
{
    let mut area: Vec<Pt> = Vec::new();
    let n: usize = curve.len();
    for i in 0..n
        invariant
            n == curve@.len(),
            area@ == curve@.take(i as int),
    {
        area.push(curve[i]);
        assert(area@ =~= curve@.take(i + 1));
    }
    assert(curve@.take(n as int) =~= curve@);
    let m: usize = envelope.len();
    assert(area@ =~= curve@ + envelope@.reverse().take(0));
    for j in 0..m
        invariant
            m == envelope@.len(),
            area@ == curve@ + envelope@.reverse().take(j as int),
    {
        area.push(envelope[m - 1 - j]);
        assert(area@ =~= curve@ + envelope@.reverse().take(j + 1));
    }
    assert(envelope@.reverse().take(m as int) =~= envelope@.reverse());
    area.push(curve[0]);
    assert(area@ =~= curve@ + envelope@.reverse() + seq![curve@[0]]);
    area
}

/// The outline of the area between a curve and a level line.
pub fn area_to_line(curve: &Vec<Pt>, y: Single) -> (area: Vec<Pt>)
    requires
        curve@.len() > 0,
    ensures
        area@ == seq![Pt { x: curve@[0].x, y }] + curve@ + seq![Pt { x: curve@.last().x, y }],
{
    let mut area: Vec<Pt> = Vec::new();
    area.push(Pt { x: curve[0].x, y });
    let n: usize = curve.len();
    let ghost head = seq![Pt { x: curve@[0].x, y }];
    assert(area@ =~= head + curve@.take(0));
    for i in 0..n
        invariant
            n == curve@.len(),
            area@ == head + curve@.take(i as int),
    {
        area.push(curve[i]);
        assert(area@ =~= head + curve@.take(i + 1));
    }
    assert(curve@.take(n as int) =~= curve@);
    area.push(Pt { x: curve[n - 1].x, y });
    assert(area@ =~= head + curve@ + seq![Pt { x: curve@.last().x, y }]);
    area
}

// ----- The nodes' curve -------------------------------------------------------

/// `base` is where full depth lies, and `range` how far zero depth is below it.
pub open spec fn shape_scale_of<A: Arith>(ax: Axis, base: Single, range: Single) -> bool {
    &&& exists|off: Single| #[trigger]
        times_of::<A>(ax.height, Single(SHAPE_TOP), off) && plus_of::<A>(ax.plot.top, off, base)
    &&& times_of::<A>(ax.height, Single(SHAPE_RANGE), range)
}

/// Where full depth lies, and how far zero depth is below it.
pub fn shape_scale<A: Arith>(ax: &Axis) -> (r: (Single, Single))
    ensures
        shape_scale_of::<A>(*ax, r.0, r.1),
{
    let off = A::times(ax.height, Single(SHAPE_TOP));
    let base = A::plus(ax.plot.top, off);
    let range = A::times(ax.height, Single(SHAPE_RANGE));
    assert(times_of::<A>(ax.height, Single(SHAPE_TOP), off));
    (base, range)
}

/// The nodes as they stand on the screen.
#[derive(Clone, Copy)]
pub struct Nodes {
    pub depths: [Single; MAX_NODES],
    pub freqs: [Single; MAX_NODES],
    pub shapes: [usize; MAX_NODES],
    pub enabled: [bool; MAX_NODES],
}

/// `p` is point `i` of `n` of the curve of the nodes' depth, which the detector
/// goes by.
pub open spec fn shape_point_of<A: Arith>(
    ax: Axis,
    nodes: Nodes,
    base: Single,
    range: Single,
    i: usize,
    n: usize,
    p: Pt,
) -> bool {
    exists|log: Single, freq: Single, depth: Single, lack: Single, off: Single|
        {
            &&& #[trigger] sweep_of::<A>(ax, i, n, log)
            &&& #[trigger] pow_of::<A>(Single(TEN), log, freq)
            &&& #[trigger] node_shape_of::<A>(
                freq,
                nodes.freqs@,
                nodes.depths@,
                nodes.shapes@,
                nodes.enabled@,
                depth,
            )
            &&& #[trigger] minus_of::<A>(Single(ONE), depth, lack)
            &&& #[trigger] times_of::<A>(lack, range, off)
            &&& x_at::<A>(ax, freq, p.x)
            &&& plus_of::<A>(base, off, p.y)
        }
}

/// The curve of the nodes' depth, in `n` points.
pub fn shape_curve<A: Arith>(ax: &Axis, nodes: &Nodes, base: Single, range: Single, n: usize) -> (pts: Vec<
    Pt,
>)
    ensures
        pts@.len() == n,
        forall|i: int|
            0 <= i < n ==> shape_point_of::<A>(
                *ax,
                *nodes,
                base,
                range,
                i as usize,
                n,
                #[trigger] pts@[i],
            ),
{
    let mut pts: Vec<Pt> = Vec::with_capacity(n);
    for i in 0..n
        invariant
            pts@.len() == i,
            forall|m: int|
                0 <= m < i ==> shape_point_of::<A>(
                    *ax,
                    *nodes,
                    base,
                    range,
                    m as usize,
                    n,
                    #[trigger] pts@[m],
                ),
    {
        let log = sweep::<A>(ax, i, n);
        let freq = A::pow(Single(TEN), log);
        let depth = node_shape::<A>(
            freq,
            &nodes.freqs,
            &nodes.depths,
            &nodes.shapes,
            &nodes.enabled,
        );
        let off = A::times(A::minus(Single(ONE), depth), range);
        let p = Pt { x: ax.x_of::<A>(freq), y: A::plus(base, off) };
        assert(shape_point_of::<A>(*ax, *nodes, base, range, i, n, p));
        pts.push(p);
    }
    pts
}

} // verus!
