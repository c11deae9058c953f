//! The plot: where frequencies and levels lie on it.

use vstd::prelude::*;
use crate::arith::{log10_of, minus_of, over_of, plus_of, pow_of, times_of, Arith};
use crate::numbers::{HALF, ONE, TEN, TWELVE, TWENTY, TWENTY_THOUSAND, TWO, ZERO};
use crate::single::Single;

verus! {

/// Lowest level on the plot, `-80` dB. The highest is 12 dB.
pub const DB_MIN: u32 = 0xc2a0_0000;

/// A place on the screen.
#[derive(Clone, Copy, PartialEq, Eq, Structural, Debug)]
pub struct Pt {
    pub x: Single,
    pub y: Single,
}

/// A rectangle on the screen.
#[derive(Clone, Copy, PartialEq, Eq, Structural, Debug)]
pub struct Area {
    pub left: Single,
    pub top: Single,
    pub right: Single,
    pub bottom: Single,
}

impl Area {
    /// The place is in the rectangle, its edges included.
    pub open spec fn holds(self, p: Pt) -> bool {
        self.left.at_most(p.x) && p.x.at_most(self.right) && self.top.at_most(p.y) && p.y.at_most(
            self.bottom,
        )
    }

    /// Whether the place is in the rectangle, its edges included.
    pub fn contains(self, p: Pt) -> (r: bool)
        ensures
            r == self.holds(p),
    {
        self.left.le(p.x) && p.x.le(self.right) && self.top.le(p.y) && p.y.le(self.bottom)
    }
}

/// The plot and its scales. Frequencies are laid out by their logarithm, from
/// 20 Hz up.
#[derive(Clone, Copy, PartialEq, Eq, Structural, Debug)]
pub struct Axis {
    pub plot: Area,
    pub width: Single,
    pub height: Single,
    /// Upper end in Hz.
    pub f_max: Single,
    /// Logarithms of both ends, and their distance.
    pub l_min: Single,
    pub l_max: Single,
    pub l_span: Single,
}

/// `ax` lays out `plot` for this sample rate: up to Nyquist, to 20 kHz at most
/// and to 40 Hz at least.
pub open spec fn axis_of<A: Arith>(plot: Area, rate: Single, ax: Axis) -> bool {
    &&& ax.plot == plot
    &&& minus_of::<A>(plot.right, plot.left, ax.width)
    &&& minus_of::<A>(plot.bottom, plot.top, ax.height)
    &&& exists|nyquist: Single, least: Single|
        {
            &&& #[trigger] times_of::<A>(rate, Single(HALF), nyquist)
            &&& #[trigger] times_of::<A>(Single(TWENTY), Single(TWO), least)
            &&& ax.f_max == nyquist.smaller(Single(TWENTY_THOUSAND)).larger(least)
        }
    &&& log10_of::<A>(Single(TWENTY), ax.l_min)
    &&& log10_of::<A>(ax.f_max, ax.l_max)
    &&& minus_of::<A>(ax.l_max, ax.l_min, ax.l_span)
}

/// `x` is where `freq` lies.
pub open spec fn x_at<A: Arith>(ax: Axis, freq: Single, x: Single) -> bool {
    exists|log: Single, way: Single, share: Single, off: Single|
        {
            &&& #[trigger] log10_of::<A>(freq.larger(Single(TWENTY)), log)
            &&& #[trigger] minus_of::<A>(log, ax.l_min, way)
            &&& #[trigger] over_of::<A>(way, ax.l_span, share)
            &&& #[trigger] times_of::<A>(share, ax.width, off)
            &&& plus_of::<A>(ax.plot.left, off, x)
        }
}

/// `freq` is what lies at `x`, or at the nearer end of the plot.
pub open spec fn freq_at<A: Arith>(ax: Axis, x: Single, freq: Single) -> bool {
    exists|off: Single, raw: Single, way: Single, log: Single|
        {
            &&& #[trigger] minus_of::<A>(x, ax.plot.left, off)
            &&& #[trigger] over_of::<A>(off, ax.width, raw)
            &&& #[trigger] times_of::<A>(raw.held(Single(ZERO), Single(ONE)), ax.l_span, way)
            &&& #[trigger] plus_of::<A>(ax.l_min, way, log)
            &&& pow_of::<A>(Single(TEN), log, freq)
        }
}

/// `y` is where a level of `db` lies.
pub open spec fn y_at<A: Arith>(ax: Axis, db: Single, y: Single) -> bool {
    exists|up: Single, range: Single, share: Single, off: Single|
        {
            &&& #[trigger] minus_of::<A>(db, Single(DB_MIN), up)
            &&& #[trigger] minus_of::<A>(Single(TWELVE), Single(DB_MIN), range)
            &&& #[trigger] over_of::<A>(up, range, share)
            &&& #[trigger] times_of::<A>(share, ax.height, off)
            &&& minus_of::<A>(ax.plot.bottom, off, y)
        }
}

/// `y` is where a depth from 0 to 1 lies, as the height of a handle.
pub open spec fn depth_y<A: Arith>(ax: Axis, depth: Single, y: Single) -> bool {
    exists|off: Single| #[trigger]
        times_of::<A>(depth, ax.height, off) && minus_of::<A>(ax.plot.bottom, off, y)
}

impl Axis {
    /// Lays out `plot` for this sample rate.
    pub fn new<A: Arith>(plot: Area, sample_rate: Single) -> (ax: Self)
        ensures
            axis_of::<A>(plot, sample_rate, ax),
    {
        let nyquist = A::times(sample_rate, Single(HALF));
        let least = A::times(Single(TWENTY), Single(TWO));
        let f_max = nyquist.min(Single(TWENTY_THOUSAND)).max(least);
        let l_min = A::log10(Single(TWENTY));
        let l_max = A::log10(f_max);
        Axis {
            plot,
            width: A::minus(plot.right, plot.left),
            height: A::minus(plot.bottom, plot.top),
            f_max,
            l_min,
            l_max,
            l_span: A::minus(l_max, l_min),
        }
    }

    /// Where `freq` lies.
    pub fn x_of<A: Arith>(&self, freq: Single) -> (x: Single)
        ensures
            x_at::<A>(*self, freq, x),
    {
        let log = A::log10(freq.max(Single(TWENTY)));
        let share = A::over(A::minus(log, self.l_min), self.l_span);
        A::plus(self.plot.left, A::times(share, self.width))
    }

    /// The frequency at `x`.
    pub fn freq_of_x<A: Arith>(&self, x: Single) -> (freq: Single)
        ensures
            freq_at::<A>(*self, x, freq),
    {
        let raw = A::over(A::minus(x, self.plot.left), self.width);
        let t = raw.clamp(Single(ZERO), Single(ONE));
        A::pow(Single(TEN), A::plus(self.l_min, A::times(t, self.l_span)))
    }

    /// Where a level of `db` lies.
    pub fn y_of<A: Arith>(&self, db: Single) -> (y: Single)
        ensures
            y_at::<A>(*self, db, y),
    {
        let up = A::minus(db, Single(DB_MIN));
        let range = A::minus(Single(TWELVE), Single(DB_MIN));
        A::minus(self.plot.bottom, A::times(A::over(up, range), self.height))
    }

    /// Where a depth lies.
    pub fn y_of_depth<A: Arith>(&self, depth: Single) -> (y: Single)
        ensures
            depth_y::<A>(*self, depth, y),
    {
        A::minus(self.plot.bottom, A::times(depth, self.height))
    }

    /// Whether `freq` lies on the plot.
    pub open spec fn shows(&self, freq: Single) -> bool {
        !freq.below(Single(TWENTY)) && !self.f_max.below(freq)
    }

    /// Whether `freq` lies on the plot.
    pub fn is_shown(&self, freq: Single) -> (r: bool)
        ensures
            r == self.shows(freq),
    {
        !freq.lt(Single(TWENTY)) && !self.f_max.lt(freq)
    }
}

/// Frequencies that the grid may mark: `100`, `250`, `500`, `1000`, `2000`,
/// `4000`, `8000` and `16000` Hz.
pub const GRID_FREQS: [u32; 8] = [
    0x42c8_0000, 0x437a_0000, 0x43fa_0000, 0x447a_0000,
    0x44fa_0000, 0x457a_0000, 0x45fa_0000, 0x467a_0000,
];

/// The marks of the grid that lie on the plot, in order.
pub open spec fn marks_on(ax: Axis, n: int) -> Seq<usize>
    decreases n,
{
    if n <= 0 {
        seq![]
    } else if Single(TWENTY).at_most(Single(GRID_FREQS@[n - 1])) && Single(GRID_FREQS@[n - 1]).at_most(
        ax.f_max,
    ) {
        marks_on(ax, n - 1).push((n - 1) as usize)
    } else {
        marks_on(ax, n - 1)
    }
}

/// The marks of the grid that lie on the plot: which one, and where.
pub fn grid_marks<A: Arith>(ax: &Axis) -> (r: Vec<(usize, Single)>)
    ensures
        r@.map_values(|m: (usize, Single)| m.0) == marks_on(*ax, 8),
        forall|k: int|
            0 <= k < r@.len() ==> (#[trigger] r@[k]).0 < 8 && x_at::<A>(
                *ax,
                Single(GRID_FREQS@[r@[k].0 as int]),
                r@[k].1,
            ),
{
    let mut r: Vec<(usize, Single)> = Vec::new();
    assert(r@.map_values(|m: (usize, Single)| m.0) =~= marks_on(*ax, 0));
    for i in 0..8usize
        invariant
            r@.map_values(|m: (usize, Single)| m.0) == marks_on(*ax, i as int),
            forall|k: int|
                0 <= k < r@.len() ==> (#[trigger] r@[k]).0 < 8 && x_at::<A>(
                    *ax,
                    Single(GRID_FREQS@[r@[k].0 as int]),
                    r@[k].1,
                ),
    {
        let f = Single(GRID_FREQS[i]);
        let ghost before = r@;
        if Single(TWENTY).le(f) && f.le(ax.f_max) {
            let x = ax.x_of::<A>(f);
            r.push((i, x));
            assert(r@.map_values(|m: (usize, Single)| m.0) =~= before.map_values(
                |m: (usize, Single)| m.0,
            ).push(i));
        }
    }
    r
}

/// What is written under a mark of the grid.
pub fn mark_label(i: usize) -> (s: &'static str)
    requires
        i < 8,
    ensures
        s@ == seq![
            "100"@, "250"@, "500"@, "1k"@, "2k"@, "4k"@, "8k"@, "16k"@,
        ][i as int],
{
    match i {
        0 => "100",
        1 => "250",
        2 => "500",
        3 => "1k",
        4 => "2k",
        5 => "4k",
        6 => "8k",
        _ => "16k",
    }
}

} // verus!
