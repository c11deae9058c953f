//! More asks for more.
//!
//! The laws here hold for every arithmetic that keeps the order of numbers where
//! exact arithmetic would.

use vstd::prelude::*;
use vstd::arithmetic::div_mod::lemma_fundamental_div_mod_converse;
use vstd::arithmetic::power2::{lemma_pow2_unfold, pow2};
use crate::arith::{
    count_of, exp_of, ln_of, log2_of, minus_of, over_of, plus_of, pow_of, sqrt_of, square_of, times_of, Arith,
};
use crate::dsp::attenuation::{tame, unit, within};
use crate::dsp::bands::{
    band_between, band_of, bin_of, center_of, edge_of, high_edge_of, layout_of, layout_terms_of, low_edge_of,
    Band, BandLayout, LayoutTerms, LAST_BAND, USED_SHARE,
};
use crate::dsp::detector::{
    attenuation_of, knee_of, reduction_of, FrameTerms, HARD_KNEE_DB, SOFT_KNEE_DB,
};
use crate::dsp::rounding::{
    apart, counts, lemma_counts, lemma_full_precision, lemma_not_subnormal, lemma_rounding_stays, lemma_sizes,
    lemma_zero_product, rounds, rounds_to, small, subnormal, ROUNDING_LIMIT,
};
use crate::dsp::BANDS;
use crate::numbers::{HALF, ONE, QUARTER, TEN, THIRTY_SIX, THOUSAND, TWENTY, TWENTY_THOUSAND, TWO, ZERO};
use crate::single::{
    lemma_index_near_rises, lemma_is_a_number, lemma_magnitude_orders, lemma_opposite, Single, FRACTION_SPAN,
};

verus! {

/// A finite number from zero up.
pub open spec fn amount(x: Single) -> bool {
    x.finite() && Single(ZERO).at_most(x)
}

/// A number of a size that the parameters and levels here have, up to 1000 either
/// way.
pub open spec fn moderate(x: Single) -> bool {
    x.finite() && apart(x.steps(), 0) <= Single(THOUSAND).steps()
}

/// `A` keeps the order of numbers where exact arithmetic would: sums, differences,
/// products of numbers from zero up, quotients by one positive number, squares by
/// size, roots, powers and logarithms. What comes of numbers is a number, and
/// numbers of moderate size do not overflow.
pub open spec fn monotone<A: Arith>() -> bool {
    &&& tame::<A>()
    &&& in_order::<A>()
    &&& defined::<A>()
}

/// The part of [`monotone`] on the order of results.
pub open spec fn in_order<A: Arith>() -> bool {
    &&& forall|a: Single, b: Single, c: Single, d: Single, r: Single, q: Single|
        a.at_most(b) && c.at_most(d) && !r.nan() && !q.nan() && #[trigger] plus_of::<A>(a, c, r)
            && #[trigger] plus_of::<A>(b, d, q) ==> r.at_most(q)
    &&& forall|a: Single, b: Single, c: Single, d: Single, r: Single, q: Single|
        a.at_most(b) && d.at_most(c) && !r.nan() && !q.nan() && #[trigger] minus_of::<A>(a, c, r)
            && #[trigger] minus_of::<A>(b, d, q) ==> r.at_most(q)
    &&& forall|a: Single, b: Single, c: Single, d: Single, r: Single, q: Single|
        Single(ZERO).at_most(a) && a.at_most(b) && Single(ZERO).at_most(c) && c.at_most(d) && !r.nan()
            && !q.nan() && #[trigger] times_of::<A>(a, c, r) && #[trigger] times_of::<A>(b, d, q)
            ==> r.at_most(q)
    &&& forall|a: Single, b: Single, c: Single, d: Single, r: Single, q: Single|
        a.at_most(b) && Single(ZERO).at_most(c) && !d.nan() && c.steps() == d.steps() && !r.nan() && !q.nan()
            && #[trigger] times_of::<A>(a, c, r) && #[trigger] times_of::<A>(b, d, q) ==> r.at_most(q)
    &&& forall|a: Single, b: Single, c: Single, d: Single, r: Single, q: Single|
        a.at_most(b) && Single(ZERO).below(c) && !d.nan() && c.steps() == d.steps() && !r.nan() && !q.nan()
            && #[trigger] over_of::<A>(a, c, r) && #[trigger] over_of::<A>(b, d, q) ==> r.at_most(q)
    &&& forall|a: Single, b: Single, r: Single, q: Single|
        !a.nan() && !b.nan() && apart(a.steps(), 0) <= apart(b.steps(), 0) && !r.nan() && !q.nan()
            && #[trigger] square_of::<A>(a, r) && #[trigger] square_of::<A>(b, q) ==> r.at_most(q)
    &&& forall|a: Single, b: Single, r: Single, q: Single|
        Single(ZERO).at_most(a) && a.at_most(b) && !r.nan() && !q.nan() && #[trigger] sqrt_of::<A>(a, r)
            && #[trigger] sqrt_of::<A>(b, q) ==> r.at_most(q)
    &&& forall|a: Single, b: Single, r: Single, q: Single|
        a.at_most(b) && !r.nan() && !q.nan() && #[trigger] exp_of::<A>(a, r) && #[trigger] exp_of::<A>(b, q)
            ==> r.at_most(q)
    &&& forall|a: Single, b: Single, r: Single, q: Single|
        Single(ONE).at_most(a) && a.at_most(b) && !r.nan() && !q.nan() && #[trigger] ln_of::<A>(a, r)
            && #[trigger] ln_of::<A>(b, q) ==> r.at_most(q)
    &&& forall|a: Single, b: Single, r: Single, q: Single|
        a.at_most(b) && !r.nan() && !q.nan() && #[trigger] pow_of::<A>(Single(TEN), a, r)
            && #[trigger] pow_of::<A>(Single(TEN), b, q) ==> r.at_most(q)
    &&& forall|m: usize, n: usize, r: Single, q: Single|
        m <= n && #[trigger] count_of::<A>(m, r) && #[trigger] count_of::<A>(n, q) ==> r.at_most(q)
}

/// The part of [`monotone`] on where results are numbers, and how large. Divisors and
/// logarithms of what a machine may take as zero are left out.
pub open spec fn defined<A: Arith>() -> bool {
    &&& forall|a: Single, b: Single, r: Single|
        a.finite() && !b.nan() && #[trigger] plus_of::<A>(a, b, r) ==> !r.nan()
    &&& forall|a: Single, b: Single, r: Single|
        a.finite() && b.finite() && #[trigger] times_of::<A>(a, b, r) ==> !r.nan()
    &&& forall|a: Single, b: Single, r: Single|
        small(a.steps()) && small(b.steps()) && a.finite() && b.finite() && #[trigger] times_of::<A>(a, b, r)
            ==> r.finite()
    &&& forall|a: Single, b: Single, r: Single|
        !a.nan() && b.finite() && Single(ZERO).below(b) && !subnormal(b) && #[trigger] over_of::<A>(a, b, r)
            ==> !r.nan()
    &&& forall|a: Single, b: Single, r: Single|
        amount(a) && b.finite() && Single(ONE).at_most(b) && #[trigger] over_of::<A>(a, b, r) ==> Single(
            ZERO,
        ).at_most(r) && r.at_most(a)
    &&& forall|a: Single, r: Single|
        Single(HALF).at_most(a) && #[trigger] over_of::<A>(a, Single(TWO), r) ==> Single(QUARTER).at_most(r)
    &&& forall|a: Single, r: Single|
        a.finite() && small(a.steps()) && #[trigger] square_of::<A>(a, r) ==> r.finite()
    &&& forall|a: Single, r: Single| !a.nan() && #[trigger] square_of::<A>(a, r) ==> !r.nan()
    &&& forall|a: Single, r: Single|
        Single(ZERO).at_most(a) && #[trigger] sqrt_of::<A>(a, r) ==> !r.nan()
    &&& forall|a: Single, r: Single| !a.nan() && #[trigger] exp_of::<A>(a, r) ==> !r.nan()
    &&& forall|a: Single, r: Single|
        a.finite() && Single(ONE).at_most(a) && #[trigger] ln_of::<A>(a, r) ==> amount(r) && moderate(r)
    &&& forall|a: Single, r: Single|
        a.finite() && Single(ZERO).below(a) && !subnormal(a) && #[trigger] log2_of::<A>(a, r) ==> moderate(r)
    &&& forall|a: Single, r: Single|
        !a.nan() && #[trigger] pow_of::<A>(Single(TEN), a, r) ==> !r.nan()
    &&& forall|n: usize, r: Single| #[trigger] count_of::<A>(n, r) ==> amount(r)
    &&& forall|n: usize, r: Single|
        n > 0 && #[trigger] count_of::<A>(n, r) ==> Single(ONE).at_most(r)
}

/// The knees are of ordinary size.
pub(crate) proof fn lemma_knees()
    ensures
        Single(HALF).steps() <= Single(HARD_KNEE_DB).steps() <= Single(THOUSAND).steps(),
        Single(HALF).steps() <= Single(SOFT_KNEE_DB).steps() <= Single(THOUSAND).steps(),
        !subnormal(Single(HARD_KNEE_DB)),
        !subnormal(Single(SOFT_KNEE_DB)),
{
    lemma_sizes();
    lemma_magnitude_orders(Single(HALF), Single(HARD_KNEE_DB));
    lemma_magnitude_orders(Single(HARD_KNEE_DB), Single(THOUSAND));
    lemma_magnitude_orders(Single(HALF), Single(SOFT_KNEE_DB));
    lemma_magnitude_orders(Single(SOFT_KNEE_DB), Single(THOUSAND));
    lemma_not_subnormal(Single(HARD_KNEE_DB));
    lemma_not_subnormal(Single(SOFT_KNEE_DB));
}

/// Twice a thousand is a number.
pub(crate) proof fn lemma_thousand()
    ensures
        2 * Single(THOUSAND).steps() == 0xfa_0000 * pow2(136),
{
    lemma_fundamental_div_mod_converse(THOUSAND as int, FRACTION_SPAN as int, 136, 0x7a_0000);
    lemma_pow2_unfold(136);
    assert(0xfa_0000 * (2 * pow2(135)) == 2 * (0xfa_0000 * pow2(135))) by (nonlinear_arith);
}

/// A sum of moderate size is a number, no larger than its terms allow.
pub(crate) proof fn lemma_sum<A: Arith>(a: Single, b: Single, r: Single, bound: Single)
    requires
        tame::<A>(),
        a.finite(),
        b.finite(),
        bound.finite(),
        apart(a.steps(), 0) + apart(b.steps(), 0) <= bound.steps() <= Single(ROUNDING_LIMIT).steps(),
        plus_of::<A>(a, b, r),
    ensures
        r.finite(),
        -bound.steps() <= r.steps() <= bound.steps(),
        !subnormal(b) && -b.steps() <= a.steps() ==> r.steps() >= 0,
        !subnormal(a) && -a.steps() <= b.steps() ==> r.steps() >= 0,
{
    let flushed = choose|flushed: bool| #[trigger] rounds::<A>(flushed);
    let exact = counts(a, flushed) + counts(b, flushed);
    lemma_counts(a, flushed);
    lemma_counts(b, flushed);
    if !subnormal(b) && b.steps() != 0 {
        lemma_full_precision(b);
    }
    if !subnormal(a) && a.steps() != 0 {
        lemma_full_precision(a);
    }
    assert(rounds_to(exact, r));
    lemma_rounding_stays(exact, r, bound);
}

/// A difference of moderate size is a number, no larger than its terms allow.
pub(crate) proof fn lemma_difference<A: Arith>(a: Single, b: Single, r: Single, bound: Single)
    requires
        tame::<A>(),
        a.finite(),
        b.finite(),
        bound.finite(),
        apart(a.steps(), 0) + apart(b.steps(), 0) <= bound.steps() <= Single(ROUNDING_LIMIT).steps(),
        minus_of::<A>(a, b, r),
    ensures
        r.finite(),
        -bound.steps() <= r.steps() <= bound.steps(),
        b.steps() <= a.steps() ==> r.steps() >= 0,
        a.steps() <= b.steps() ==> r.steps() <= 0,
{
    let flushed = choose|flushed: bool| #[trigger] rounds::<A>(flushed);
    let exact = counts(a, flushed) - counts(b, flushed);
    lemma_counts(a, flushed);
    lemma_counts(b, flushed);
    if a.steps() <= b.steps() {
        lemma_counts_rise(a, b, flushed);
    }
    if b.steps() <= a.steps() {
        lemma_counts_rise(b, a, flushed);
    }
    assert(rounds_to(exact, r));
    lemma_rounding_stays(exact, r, bound);
}

/// What numbers count for keeps their order.
pub(crate) proof fn lemma_counts_rise(a: Single, b: Single, flushed: bool)
    requires
        a.finite(),
        b.finite(),
        a.steps() <= b.steps(),
    ensures
        counts(a, flushed) <= counts(b, flushed),
{
    if subnormal(a) && !subnormal(b) && b.steps() != 0 {
        lemma_full_precision(b);
    }
    if subnormal(b) && !subnormal(a) && a.steps() != 0 {
        lemma_full_precision(a);
    }
}

// ----- The knee ---------------------------------------------------------------

/// A knee that the detector uses.
pub open spec fn usual_knee(knee: Single) -> bool {
    knee == Single(HARD_KNEE_DB) || knee == Single(SOFT_KNEE_DB)
}

/// `r` is where the parabola of a knee lies at `excess`.
pub open spec fn parabola_of<A: Arith>(excess: Single, k: Single, knee: Single, half: Single, r: Single) -> bool {
    exists|above: Single, sq: Single, top: Single, width: Single|
        {
            &&& #[trigger] plus_of::<A>(excess, half, above)
            &&& #[trigger] square_of::<A>(above, sq)
            &&& #[trigger] times_of::<A>(k, sq, top)
            &&& #[trigger] times_of::<A>(Single(TWO), knee, width)
            &&& over_of::<A>(top, width, r)
        }
}

/// `r` is where a knee that is `half` wide to each side lies at `excess`.
pub open spec fn knee_with<A: Arith>(excess: Single, k: Single, knee: Single, half: Single, r: Single) -> bool {
    if excess.at_most(half.opposite()) {
        r == Single(ZERO)
    } else if half.at_most(excess) {
        exists|line: Single| #[trigger] times_of::<A>(k, excess, line) && r == line.larger(Single(ZERO))
    } else {
        parabola_of::<A>(excess, k, knee, half, r)
    }
}

/// The half of a knee that a reduction goes by.
pub(crate) proof fn lemma_knee_half<A: Arith>(excess: Single, k: Single, knee: Single, r: Single) -> (half: Single)
    requires
        knee_of::<A>(excess, k, knee, r),
    ensures
        over_of::<A>(knee, Single(TWO), half),
        knee_with::<A>(excess, k, knee, half, r),
{
    let half = choose|half: Single| #[trigger]
        over_of::<A>(knee, Single(TWO), half) && if excess.at_most(half.opposite()) {
            r == Single(ZERO)
        } else if half.at_most(excess) {
            exists|line: Single| #[trigger]
                times_of::<A>(k, excess, line) && r == line.larger(Single(ZERO))
        } else {
            exists|above: Single, sq: Single, top: Single, width: Single|
                {
                    &&& #[trigger] plus_of::<A>(excess, half, above)
                    &&& #[trigger] square_of::<A>(above, sq)
                    &&& #[trigger] times_of::<A>(k, sq, top)
                    &&& #[trigger] times_of::<A>(Single(TWO), knee, width)
                    &&& over_of::<A>(top, width, r)
                }
        };
    half
}

/// Half a knee is a positive number, the same each time.
pub(crate) proof fn lemma_half<A: Arith>(knee: Single, half: Single, other: Single)
    requires
        monotone::<A>(),
        usual_knee(knee),
        over_of::<A>(knee, Single(TWO), half),
        over_of::<A>(knee, Single(TWO), other),
    ensures
        amount(half),
        half.steps() <= knee.steps(),
        half.steps() == other.steps(),
        !other.nan(),
        !subnormal(half),
{
    lemma_sizes();
    lemma_knees();
    assert(half.at_most(knee) && other.at_most(knee));
    lemma_magnitude_orders(knee, half);
    assert(half.at_most(other) && other.at_most(half));
    lemma_half_is_ordinary::<A>(knee, half);
}

/// Half a knee has full precision.
proof fn lemma_half_is_ordinary<A: Arith>(knee: Single, half: Single)
    requires
        defined::<A>(),
        usual_knee(knee),
        over_of::<A>(knee, Single(TWO), half),
    ensures
        !subnormal(half),
{
    lemma_sizes();
    lemma_knees();
    assert(Single(QUARTER).at_most(half));
    lemma_not_subnormal(half);
}

/// Further up on the parabola, or with a steeper knee, it lies no lower.
proof fn lemma_parabola_rises<A: Arith>(
    excess_a: Single,
    excess_b: Single,
    k_a: Single,
    k_b: Single,
    knee: Single,
    half_a: Single,
    half_b: Single,
    r_a: Single,
    r_b: Single,
)
    requires
        monotone::<A>(),
        usual_knee(knee),
        over_of::<A>(knee, Single(TWO), half_a),
        over_of::<A>(knee, Single(TWO), half_b),
        amount(k_a),
        amount(k_b),
        k_a.at_most(k_b),
        excess_a.finite(),
        excess_b.finite(),
        -half_a.steps() <= excess_a.steps() <= excess_b.steps() <= half_a.steps(),
        parabola_of::<A>(excess_a, k_a, knee, half_a, r_a),
        parabola_of::<A>(excess_b, k_b, knee, half_b, r_b),
    ensures
        Single(ZERO).at_most(r_a),
        r_a.at_most(r_b),
{
    lemma_sizes();
    lemma_knees();
    lemma_half::<A>(knee, half_a, half_b);
    lemma_half::<A>(knee, half_b, half_a);
    let (above_a, sq_a, top_a, width_a) = choose|above: Single, sq: Single, top: Single, width: Single|
        {
            &&& #[trigger] plus_of::<A>(excess_a, half_a, above)
            &&& #[trigger] square_of::<A>(above, sq)
            &&& #[trigger] times_of::<A>(k_a, sq, top)
            &&& #[trigger] times_of::<A>(Single(TWO), knee, width)
            &&& over_of::<A>(top, width, r_a)
        };
    let (above_b, sq_b, top_b, width_b) = choose|above: Single, sq: Single, top: Single, width: Single|
        {
            &&& #[trigger] plus_of::<A>(excess_b, half_b, above)
            &&& #[trigger] square_of::<A>(above, sq)
            &&& #[trigger] times_of::<A>(k_b, sq, top)
            &&& #[trigger] times_of::<A>(Single(TWO), knee, width)
            &&& over_of::<A>(top, width, r_b)
        };
    let limit = Single(ROUNDING_LIMIT);
    lemma_sum::<A>(excess_a, half_a, above_a, limit);
    lemma_sum::<A>(excess_b, half_b, above_b, limit);
    assert(above_a.at_most(above_b));
    assert(sq_a.finite() && sq_b.finite());
    assert(sq_a.at_most(sq_b));
    assert(Single(ZERO).at_most(sq_a));
    assert(top_a.at_most(top_b));
    assert(Single(ZERO).at_most(top_a));
    assert(Single(HALF).at_most(Single(TWO)) && Single(HALF).at_most(knee)) by {
        lemma_magnitude_orders(Single(HALF), Single(TWO));
        lemma_magnitude_orders(Single(HALF), knee);
    }
    assert(width_a.finite() && width_b.finite());
    assert(Single(QUARTER).at_most(width_a) && Single(QUARTER).at_most(width_b));
    lemma_not_subnormal(width_a);
    lemma_not_subnormal(width_b);
    assert(width_a.at_most(width_b) && width_b.at_most(width_a));
    assert(!r_a.nan() && !r_b.nan());
}

/// A level no lower, or a steeper knee, is reduced no less; the level must not pass
/// from the parabola of the knee to its line, where rounding may put a step down.
pub proof fn lemma_knee_rises<A: Arith>(
    excess_a: Single,
    excess_b: Single,
    k_a: Single,
    k_b: Single,
    knee: Single,
    r_a: Single,
    r_b: Single,
)
    requires
        monotone::<A>(),
        usual_knee(knee),
        amount(k_a),
        amount(k_b),
        k_a.at_most(k_b),
        excess_a.finite(),
        excess_b.finite(),
        excess_a.at_most(excess_b),
        stays_on_its_piece::<A>(excess_a, excess_b, knee),
        knee_of::<A>(excess_a, k_a, knee, r_a),
        knee_of::<A>(excess_b, k_b, knee, r_b),
    ensures
        Single(ZERO).at_most(r_a),
        r_a.at_most(r_b),
{
    lemma_sizes();
    lemma_knees();
    let half_a = lemma_knee_half::<A>(excess_a, k_a, knee, r_a);
    let half_b = lemma_knee_half::<A>(excess_b, k_b, knee, r_b);
    lemma_half::<A>(knee, half_a, half_b);
    lemma_half::<A>(knee, half_b, half_a);
    lemma_opposite(half_a);
    lemma_opposite(half_b);
    assert(half_a.opposite().finite() && half_b.opposite().finite());
    if excess_a.at_most(half_a.opposite()) {
        if excess_b.at_most(half_b.opposite()) {
        } else if half_b.at_most(excess_b) {
        } else {
            lemma_parabola_rises::<A>(excess_b, excess_b, k_b, k_b, knee, half_b, half_b, r_b, r_b);
        }
    } else if half_a.at_most(excess_a) {
        let line_a = choose|line: Single| #[trigger]
            times_of::<A>(k_a, excess_a, line) && r_a == line.larger(Single(ZERO));
        let line_b = choose|line: Single| #[trigger]
            times_of::<A>(k_b, excess_b, line) && r_b == line.larger(Single(ZERO));
        assert(line_a.at_most(line_b));
    } else {
        lemma_parabola_rises::<A>(excess_a, excess_b, k_a, k_b, knee, half_a, half_b, r_a, r_b);
    }
}

/// A level at `a` over the threshold does not pass from the parabola of the knee to
/// its line where it is `b` over it.
pub open spec fn stays_on_its_piece<A: Arith>(a: Single, b: Single, knee: Single) -> bool {
    forall|half: Single| #[trigger]
        over_of::<A>(knee, Single(TWO), half) ==> a.at_most(half.opposite()) || half.at_most(a) || !half.at_most(b)
}

// ----- The parameters ---------------------------------------------------------

/// `excess` is how far `level` lies over the threshold.
pub open spec fn excess_of<A: Arith>(t: FrameTerms, level: Single, baseline: Single, excess: Single) -> bool {
    exists|reference: Single| #[trigger]
        plus_of::<A>(baseline, t.threshold, reference) && minus_of::<A>(level, reference, excess)
}

/// `k` is the slope of the line of a knee.
pub open spec fn slope_of<A: Arith>(sharpness: Single, depth: Single, k: Single) -> bool {
    exists|slope: Single| #[trigger]
        plus_of::<A>(Single(HALF), sharpness, slope) && times_of::<A>(depth, slope, k)
}

/// The excess, the slope and the knee that a reduction comes from.
pub(crate) proof fn lemma_reduction_parts<A: Arith>(
    t: FrameTerms,
    sharpness: Single,
    level: Single,
    baseline: Single,
    depth: Single,
    r: Single,
) -> (parts: (Single, Single, Single))
    requires
        reduction_of::<A>(t, sharpness, level, baseline, depth, r),
    ensures
        excess_of::<A>(t, level, baseline, parts.0),
        slope_of::<A>(sharpness, depth, parts.1),
        knee_of::<A>(parts.0, parts.1, t.knee, parts.2),
        r == parts.2.smaller(Single(THIRTY_SIX)),
{
    let (reference, excess, slope, k, raw) = choose|reference: Single, excess: Single, slope: Single, k: Single, raw: Single|
        {
            &&& #[trigger] plus_of::<A>(baseline, t.threshold, reference)
            &&& #[trigger] minus_of::<A>(level, reference, excess)
            &&& #[trigger] plus_of::<A>(Single(HALF), sharpness, slope)
            &&& #[trigger] times_of::<A>(depth, slope, k)
            &&& #[trigger] knee_of::<A>(excess, k, t.knee, raw)
            &&& r == raw.smaller(Single(THIRTY_SIX))
        };
    (excess, k, raw)
}

/// A lower threshold puts a level no less far over it.
proof fn lemma_excess_rises<A: Arith>(
    t_a: FrameTerms,
    t_b: FrameTerms,
    level: Single,
    baseline: Single,
    a: Single,
    b: Single,
)
    requires
        monotone::<A>(),
        moderate(level),
        moderate(baseline),
        moderate(t_a.threshold),
        moderate(t_b.threshold),
        t_b.threshold.at_most(t_a.threshold),
        excess_of::<A>(t_a, level, baseline, a),
        excess_of::<A>(t_b, level, baseline, b),
    ensures
        a.finite(),
        b.finite(),
        a.at_most(b),
{
    lemma_sizes();
    let ref_a = choose|reference: Single| #[trigger]
        plus_of::<A>(baseline, t_a.threshold, reference) && minus_of::<A>(level, reference, a);
    let ref_b = choose|reference: Single| #[trigger]
        plus_of::<A>(baseline, t_b.threshold, reference) && minus_of::<A>(level, reference, b);
    let two = lemma_is_a_number(0xfa_0000, 136);
    lemma_thousand();
    lemma_sum::<A>(baseline, t_a.threshold, ref_a, two);
    lemma_sum::<A>(baseline, t_b.threshold, ref_b, two);
    assert(ref_b.at_most(ref_a));
    lemma_difference::<A>(level, ref_a, a, Single(ROUNDING_LIMIT));
    lemma_difference::<A>(level, ref_b, b, Single(ROUNDING_LIMIT));
}

/// More depth or sharpness makes a knee no less steep.
pub(crate) proof fn lemma_slope_rises<A: Arith>(
    sharp_a: Single,
    sharp_b: Single,
    depth_a: Single,
    depth_b: Single,
    a: Single,
    b: Single,
)
    requires
        monotone::<A>(),
        amount(sharp_a),
        amount(depth_a),
        moderate(sharp_b),
        moderate(depth_b),
        sharp_a.at_most(sharp_b),
        depth_a.at_most(depth_b),
        slope_of::<A>(sharp_a, depth_a, a),
        slope_of::<A>(sharp_b, depth_b, b),
    ensures
        amount(a),
        amount(b),
        a.at_most(b),
{
    lemma_sizes();
    let s_a = choose|slope: Single| #[trigger]
        plus_of::<A>(Single(HALF), sharp_a, slope) && times_of::<A>(depth_a, slope, a);
    let s_b = choose|slope: Single| #[trigger]
        plus_of::<A>(Single(HALF), sharp_b, slope) && times_of::<A>(depth_b, slope, b);
    let limit = Single(ROUNDING_LIMIT);
    lemma_not_subnormal(Single(HALF));
    lemma_sum::<A>(Single(HALF), sharp_a, s_a, limit);
    lemma_sum::<A>(Single(HALF), sharp_b, s_b, limit);
    assert(s_a.at_most(s_b));
    assert(a.finite() && b.finite());
}

/// Wherever `level` lies over the two thresholds, it does not pass from the parabola of
/// the knee to its line on the way from one to the other.
pub open spec fn keeps_its_piece<A: Arith>(
    t_a: FrameTerms,
    t_b: FrameTerms,
    level: Single,
    baseline: Single,
) -> bool {
    forall|a: Single, b: Single| #[trigger]
        excess_of::<A>(t_a, level, baseline, a) && #[trigger] excess_of::<A>(t_b, level, baseline, b)
            ==> stays_on_its_piece::<A>(a, b, t_a.knee)
}

/// More depth, more sharpness or a lower threshold never reduces less, as long as the
/// level does not pass from the parabola of the knee to its line.
pub proof fn lemma_asking_for_more_reduces_no_less<A: Arith>(
    t_a: FrameTerms,
    t_b: FrameTerms,
    level: Single,
    baseline: Single,
    sharp_a: Single,
    sharp_b: Single,
    depth_a: Single,
    depth_b: Single,
    r_a: Single,
    r_b: Single,
)
    requires
        monotone::<A>(),
        usual_knee(t_a.knee),
        t_b.knee == t_a.knee,
        moderate(level),
        moderate(baseline),
        moderate(t_a.threshold),
        moderate(t_b.threshold),
        t_b.threshold.at_most(t_a.threshold),
        keeps_its_piece::<A>(t_a, t_b, level, baseline),
        amount(sharp_a),
        amount(depth_a),
        moderate(sharp_b),
        moderate(depth_b),
        sharp_a.at_most(sharp_b),
        depth_a.at_most(depth_b),
        reduction_of::<A>(t_a, sharp_a, level, baseline, depth_a, r_a),
        reduction_of::<A>(t_b, sharp_b, level, baseline, depth_b, r_b),
    ensures
        amount(r_a),
        amount(r_b),
        r_a.at_most(r_b),
{
    lemma_sizes();
    let (excess_a, k_a, raw_a) = lemma_reduction_parts::<A>(t_a, sharp_a, level, baseline, depth_a, r_a);
    let (excess_b, k_b, raw_b) = lemma_reduction_parts::<A>(t_b, sharp_b, level, baseline, depth_b, r_b);
    lemma_excess_rises::<A>(t_a, t_b, level, baseline, excess_a, excess_b);
    lemma_slope_rises::<A>(sharp_a, sharp_b, depth_a, depth_b, k_a, k_b);
    assert(stays_on_its_piece::<A>(excess_a, excess_b, t_a.knee));
    lemma_knee_rises::<A>(excess_a, excess_b, k_a, k_b, t_a.knee, raw_a, raw_b);
    lemma_magnitude_orders(Single(THIRTY_SIX), r_a);
    lemma_magnitude_orders(Single(THIRTY_SIX), r_b);
}

/// One threshold leaves a level where it is on the knee.
pub proof fn lemma_one_threshold_keeps_its_piece<A: Arith>(t: FrameTerms, level: Single, baseline: Single)
    requires
        monotone::<A>(),
        moderate(level),
        moderate(baseline),
        moderate(t.threshold),
    ensures
        keeps_its_piece::<A>(t, t, level, baseline),
{
    assert forall|a: Single, b: Single| #[trigger]
        excess_of::<A>(t, level, baseline, a) && #[trigger] excess_of::<A>(
            t,
            level,
            baseline,
            b,
        ) implies stays_on_its_piece::<A>(a, b, t.knee) by {
        lemma_excess_rises::<A>(t, t, level, baseline, a, b);
        lemma_excess_rises::<A>(t, t, level, baseline, b, a);
    }
}

/// A knee of no slope reduces by nothing.
proof fn lemma_flat_knee<A: Arith>(excess: Single, k: Single, knee: Single, r: Single)
    requires
        monotone::<A>(),
        usual_knee(knee),
        excess.finite(),
        k.finite(),
        k.steps() == 0,
        knee_of::<A>(excess, k, knee, r),
    ensures
        r.finite(),
        r.steps() == 0,
{
    lemma_sizes();
    lemma_knees();
    let half = lemma_knee_half::<A>(excess, k, knee, r);
    lemma_half::<A>(knee, half, half);
    lemma_opposite(half);
    assert(half.opposite().finite());
    let flushed = choose|flushed: bool| #[trigger] rounds::<A>(flushed);
    if excess.at_most(half.opposite()) {
    } else if half.at_most(excess) {
        let line = choose|line: Single| #[trigger]
            times_of::<A>(k, excess, line) && r == line.larger(Single(ZERO));
        lemma_zero_product::<A>(k, excess, line, flushed);
    } else {
        let (above, sq, top, width) = choose|above: Single, sq: Single, top: Single, width: Single|
            {
                &&& #[trigger] plus_of::<A>(excess, half, above)
                &&& #[trigger] square_of::<A>(above, sq)
                &&& #[trigger] times_of::<A>(k, sq, top)
                &&& #[trigger] times_of::<A>(Single(TWO), knee, width)
                &&& over_of::<A>(top, width, r)
            };
        lemma_sum::<A>(excess, half, above, Single(ROUNDING_LIMIT));
        lemma_zero_product::<A>(k, sq, top, flushed);
        lemma_magnitude_orders(Single(HALF), Single(TWO));
        lemma_magnitude_orders(Single(HALF), knee);
        assert(Single(QUARTER).at_most(width));
        lemma_not_subnormal(width);
        assert(r.at_most(Single(ZERO)) && Single(ZERO).at_most(r));
        lemma_magnitude_orders(Single(ZERO), r);
        lemma_magnitude_orders(r, Single(ZERO));
    }
}

/// No depth is no reduction.
pub proof fn lemma_no_depth_reduces_nothing<A: Arith>(
    t: FrameTerms,
    sharpness: Single,
    level: Single,
    baseline: Single,
    depth: Single,
    r: Single,
)
    requires
        monotone::<A>(),
        usual_knee(t.knee),
        moderate(level),
        moderate(baseline),
        moderate(t.threshold),
        amount(sharpness),
        moderate(sharpness),
        depth.finite(),
        depth.steps() == 0,
        reduction_of::<A>(t, sharpness, level, baseline, depth, r),
    ensures
        r.finite(),
        r.steps() == 0,
{
    lemma_sizes();
    let (excess, k, raw) = lemma_reduction_parts::<A>(t, sharpness, level, baseline, depth, r);
    lemma_excess_rises::<A>(t, t, level, baseline, excess, excess);
    let slope = choose|slope: Single| #[trigger]
        plus_of::<A>(Single(HALF), sharpness, slope) && times_of::<A>(depth, slope, k);
    lemma_sum::<A>(Single(HALF), sharpness, slope, Single(ROUNDING_LIMIT));
    let flushed = choose|flushed: bool| #[trigger] rounds::<A>(flushed);
    lemma_zero_product::<A>(depth, slope, k, flushed);
    lemma_flat_knee::<A>(excess, k, t.knee, raw);
}

/// A larger reduction aims at no more gain.
pub proof fn lemma_more_reduction_is_no_louder<A: Arith>(a: Single, b: Single, r_a: Single, r_b: Single)
    requires
        monotone::<A>(),
        a.finite(),
        b.finite(),
        a.at_most(b),
        attenuation_of::<A>(a, r_a),
        attenuation_of::<A>(b, r_b),
    ensures
        r_b.at_most(r_a),
{
    lemma_sizes();
    lemma_opposite(a);
    lemma_opposite(b);
    assert(a.opposite().finite() && b.opposite().finite());
    let e_a = choose|e: Single| #[trigger]
        over_of::<A>(a.opposite(), Single(TWENTY), e) && pow_of::<A>(Single(TEN), e, r_a);
    let e_b = choose|e: Single| #[trigger]
        over_of::<A>(b.opposite(), Single(TWENTY), e) && pow_of::<A>(Single(TEN), e, r_b);
    assert(e_b.at_most(e_a));
}

// ----- The bands --------------------------------------------------------------

/// The sample rate leaves room for the bands: they end at 20 Hz or above, and bins
/// lie some way apart.
pub open spec fn room_for_bands<A: Arith>(fft_size: usize, rate: Single) -> bool {
    forall|t: LayoutTerms| #[trigger]
        layout_terms_of::<A>(fft_size, rate, t) ==> Single(TWENTY).at_most(t.f_max) && t.f_max.finite()
            && t.bin_res.finite() && Single(ZERO).below(t.bin_res) && !subnormal(t.bin_res)
}

/// A band further up, or a wider range, puts a center no lower.
proof fn lemma_center_rises<A: Arith>(
    t_a: LayoutTerms,
    t_b: LayoutTerms,
    i: usize,
    j: usize,
    a: Single,
    b: Single,
)
    requires
        monotone::<A>(),
        amount(t_a.log_min),
        amount(t_b.log_min),
        t_a.log_min.steps() == t_b.log_min.steps(),
        amount(t_a.log_span),
        amount(t_b.log_span),
        t_a.log_span.at_most(t_b.log_span),
        t_a.last.finite(),
        t_b.last.finite(),
        t_a.last.steps() == t_b.last.steps(),
        Single(ONE).at_most(t_a.last),
        i <= j,
        center_of::<A>(t_a, i, a),
        center_of::<A>(t_b, j, b),
    ensures
        Single(ZERO).at_most(a),
        a.at_most(b),
{
    lemma_sizes();
    let (n_a, share_a, way_a, log_a) = choose|n: Single, share: Single, way: Single, log: Single|
        {
            &&& #[trigger] count_of::<A>(i, n)
            &&& #[trigger] over_of::<A>(n, t_a.last, share)
            &&& #[trigger] times_of::<A>(share, t_a.log_span, way)
            &&& #[trigger] plus_of::<A>(t_a.log_min, way, log)
            &&& exp_of::<A>(log, a)
        };
    let (n_b, share_b, way_b, log_b) = choose|n: Single, share: Single, way: Single, log: Single|
        {
            &&& #[trigger] count_of::<A>(j, n)
            &&& #[trigger] over_of::<A>(n, t_b.last, share)
            &&& #[trigger] times_of::<A>(share, t_b.log_span, way)
            &&& #[trigger] plus_of::<A>(t_b.log_min, way, log)
            &&& exp_of::<A>(log, b)
        };
    assert(n_a.at_most(n_b));
    lemma_magnitude_orders(n_a, share_a);
    lemma_magnitude_orders(n_b, share_b);
    assert(share_a.finite() && share_b.finite());
    assert(share_a.at_most(share_b));
    assert(way_a.at_most(way_b));
    assert(log_a.at_most(log_b));
    assert(!a.nan() && !b.nan());
}

/// A higher sample rate never moves a center down.
pub proof fn lemma_higher_rate_reaches_no_lower<A: Arith>(
    size_a: usize,
    size_b: usize,
    rate_a: Single,
    rate_b: Single,
    a: BandLayout,
    b: BandLayout,
    i: int,
)
    requires
        monotone::<A>(),
        amount(rate_a),
        rate_b.finite(),
        rate_a.at_most(rate_b),
        room_for_bands::<A>(size_a, rate_a),
        room_for_bands::<A>(size_b, rate_b),
        layout_of::<A>(size_a, rate_a, a),
        layout_of::<A>(size_b, rate_b, b),
        0 <= i < BANDS,
    ensures
        a.centers@[i].at_most(b.centers@[i]),
{
    lemma_sizes();
    let t_a = lemma_layout_terms::<A>(size_a, rate_a, a);
    let t_b = lemma_layout_terms::<A>(size_b, rate_b, b);
    lemma_terms_of_layout::<A>(size_a, rate_a, t_a);
    lemma_terms_of_layout::<A>(size_b, rate_b, t_b);
    lemma_higher_rate_is_wider::<A>(size_a, size_b, rate_a, rate_b, t_a, t_b);
    lemma_center_rises::<A>(t_a, t_b, i as usize, i as usize, a.centers@[i], b.centers@[i]);
}

/// A higher rate leaves the bands no less room.
proof fn lemma_higher_rate_is_wider<A: Arith>(
    size_a: usize,
    size_b: usize,
    rate_a: Single,
    rate_b: Single,
    t_a: LayoutTerms,
    t_b: LayoutTerms,
)
    requires
        monotone::<A>(),
        amount(rate_a),
        rate_b.finite(),
        rate_a.at_most(rate_b),
        room_for_bands::<A>(size_a, rate_a),
        room_for_bands::<A>(size_b, rate_b),
        layout_terms_of::<A>(size_a, rate_a, t_a),
        layout_terms_of::<A>(size_b, rate_b, t_b),
        amount(t_a.log_min),
        amount(t_b.log_min),
        amount(t_a.log_span),
        amount(t_b.log_span),
    ensures
        t_a.log_min.steps() == t_b.log_min.steps(),
        t_a.log_span.at_most(t_b.log_span),
        t_a.last.steps() == t_b.last.steps(),
{
    lemma_sizes();
    let (nyquist_a, top_a) = choose|nyquist: Single, top: Single|
        {
            &&& #[trigger] times_of::<A>(rate_a, Single(HALF), nyquist)
            &&& #[trigger] times_of::<A>(nyquist, Single(USED_SHARE), top)
            &&& t_a.f_max == top.smaller(Single(TWENTY_THOUSAND))
        };
    let (nyquist_b, top_b) = choose|nyquist: Single, top: Single|
        {
            &&& #[trigger] times_of::<A>(rate_b, Single(HALF), nyquist)
            &&& #[trigger] times_of::<A>(nyquist, Single(USED_SHARE), top)
            &&& t_b.f_max == top.smaller(Single(TWENTY_THOUSAND))
        };
    lemma_magnitude_orders(Single(ZERO), Single(USED_SHARE));
    lemma_magnitude_orders(Single(USED_SHARE), Single(ONE));
    assert(unit(Single(HALF)) && unit(Single(USED_SHARE)));
    assert(within(nyquist_a, rate_a) && within(nyquist_b, rate_b));
    assert(nyquist_a.at_most(nyquist_b));
    assert(within(top_a, nyquist_a) && within(top_b, nyquist_b));
    assert(top_a.at_most(top_b));
    assert(t_a.f_max.at_most(t_b.f_max));
    let log_a = choose|log_max: Single| #[trigger]
        ln_of::<A>(t_a.f_max, log_max) && minus_of::<A>(log_max, t_a.log_min, t_a.log_span);
    let log_b = choose|log_max: Single| #[trigger]
        ln_of::<A>(t_b.f_max, log_max) && minus_of::<A>(log_max, t_b.log_min, t_b.log_span);
    assert(Single(ONE).at_most(Single(TWENTY)) && Single(TWENTY).finite());
    assert(t_a.log_min.at_most(t_b.log_min) && t_b.log_min.at_most(t_a.log_min));
    assert(amount(log_a) && amount(log_b));
    assert(log_a.at_most(log_b));
    assert(t_a.last.at_most(t_b.last) && t_b.last.at_most(t_a.last));
}

proof fn lemma_terms_of_layout<A: Arith>(fft_size: usize, rate: Single, t: LayoutTerms)
    requires
        monotone::<A>(),
        room_for_bands::<A>(fft_size, rate),
        layout_terms_of::<A>(fft_size, rate, t),
    ensures
        amount(t.log_min),
        amount(t.log_span),
        t.last.finite(),
        Single(ONE).at_most(t.last),
        t.bin_res.finite(),
        Single(ZERO).below(t.bin_res),
        !subnormal(t.bin_res),
{
    lemma_sizes();
    let log_max = choose|log_max: Single| #[trigger]
        ln_of::<A>(t.f_max, log_max) && minus_of::<A>(log_max, t.log_min, t.log_span);
    assert(Single(ONE).at_most(Single(TWENTY)) && Single(TWENTY).finite());
    assert(t.log_min.at_most(log_max));
    lemma_difference::<A>(log_max, t.log_min, t.log_span, Single(ROUNDING_LIMIT));
}

proof fn lemma_layout_terms<A: Arith>(fft_size: usize, rate: Single, layout: BandLayout) -> (t: LayoutTerms)
    requires
        layout_of::<A>(fft_size, rate, layout),
    ensures
        layout_terms_of::<A>(fft_size, rate, t),
        forall|i: int|
            0 <= i < BANDS ==> center_of::<A>(t, i as usize, #[trigger] layout.centers@[i]),
        forall|i: int| 0 <= i < BANDS ==> #[trigger] band_of::<A>(t, fft_size, layout, i),
{
    choose|t: LayoutTerms|
        {
            &&& #[trigger] layout_terms_of::<A>(fft_size, rate, t)
            &&& forall|i: int|
                0 <= i < BANDS ==> center_of::<A>(t, i as usize, #[trigger] layout.centers@[i])
            &&& forall|i: int| 0 <= i < BANDS ==> #[trigger] band_of::<A>(t, fft_size, layout, i)
        }
}

/// The centers of the bands never fall from one band to the next.
pub proof fn lemma_centers_ascend<A: Arith>(fft_size: usize, rate: Single, layout: BandLayout, i: int, j: int)
    requires
        monotone::<A>(),
        room_for_bands::<A>(fft_size, rate),
        layout_of::<A>(fft_size, rate, layout),
        0 <= i <= j < BANDS,
    ensures
        Single(ZERO).at_most(layout.centers@[i]),
        layout.centers@[i].at_most(layout.centers@[j]),
{
    let t = lemma_layout_terms::<A>(fft_size, rate, layout);
    lemma_terms_of_layout::<A>(fft_size, rate, t);
    lemma_center_rises::<A>(t, t, i as usize, j as usize, layout.centers@[i], layout.centers@[j]);
}

proof fn lemma_edge_rises<A: Arith>(a: Single, b: Single, c: Single, d: Single, r: Single, q: Single)
    requires
        monotone::<A>(),
        amount(a),
        amount(b),
        amount(c),
        amount(d),
        a.at_most(c),
        b.at_most(d),
        edge_of::<A>(a, b, r),
        edge_of::<A>(c, d, q),
    ensures
        r.at_most(q),
{
    let p_a = choose|p: Single| #[trigger] times_of::<A>(a, b, p) && sqrt_of::<A>(p, r);
    let p_b = choose|p: Single| #[trigger] times_of::<A>(c, d, p) && sqrt_of::<A>(p, q);
    assert(p_a.at_most(p_b));
    assert(Single(ZERO).at_most(p_a));
}

proof fn lemma_bin_rises<A: Arith>(
    bin_res: Single,
    fft_size: usize,
    lo: Single,
    hi: Single,
    a: nat,
    b: nat,
)
    requires
        monotone::<A>(),
        bin_res.finite(),
        Single(ZERO).below(bin_res),
        !subnormal(bin_res),
        lo.at_most(hi),
        bin_of::<A>(bin_res, fft_size, lo, a),
        bin_of::<A>(bin_res, fft_size, hi, b),
    ensures
        a <= b,
{
    let x = choose|x: Single| #[trigger]
        over_of::<A>(lo, bin_res, x) && a == if x.index_near() <= fft_size as nat / 2 {
            x.index_near()
        } else {
            fft_size as nat / 2
        };
    let y = choose|y: Single| #[trigger]
        over_of::<A>(hi, bin_res, y) && b == if y.index_near() <= fft_size as nat / 2 {
            y.index_near()
        } else {
            fft_size as nat / 2
        };
    assert(x.at_most(y));
    lemma_index_near_rises(x, y);
}

/// The edges of band `i` and the bins they fall in.
proof fn lemma_band_parts<A: Arith>(
    t: LayoutTerms,
    fft_size: usize,
    layout: BandLayout,
    i: int,
) -> (parts: (Single, Single, nat))
    requires
        band_of::<A>(t, fft_size, layout, i),
    ensures
        low_edge_of::<A>(layout.centers@, i, parts.0),
        high_edge_of::<A>(t, layout.centers@, i, parts.1),
        bin_of::<A>(t.bin_res, fft_size, parts.0, layout.bin_lo@[i] as nat),
        bin_of::<A>(t.bin_res, fft_size, parts.1, parts.2),
        layout.bin_hi@[i] == if parts.2 > layout.bin_lo@[i] {
            parts.2 as int
        } else {
            layout.bin_lo@[i] + 1
        },
{
    let (lo, hi) = choose|lo: Single, hi: Single|
        {
            &&& #[trigger] low_edge_of::<A>(layout.centers@, i, lo)
            &&& #[trigger] high_edge_of::<A>(t, layout.centers@, i, hi)
            &&& band_between::<A>(
                t,
                fft_size,
                layout.centers@[i],
                lo,
                hi,
                Band {
                    bin_lo: layout.bin_lo@[i],
                    bin_hi: layout.bin_hi@[i],
                    q: layout.q@[i],
                    q_ceiling: layout.q_ceiling@[i],
                },
            )
        };
    let b = choose|b: nat| #[trigger]
        bin_of::<A>(t.bin_res, fft_size, hi, b) && layout.bin_hi@[i] == if b > layout.bin_lo@[i] {
            b as int
        } else {
            layout.bin_lo@[i] + 1
        };
    (lo, hi, b)
}

/// The edge between the first two bands lies at 20 Hz or above.
pub open spec fn starts_in_range<A: Arith>(layout: BandLayout) -> bool {
    forall|e: Single| #[trigger]
        edge_of::<A>(layout.centers@[0], layout.centers@[1], e) ==> Single(TWENTY).at_most(e)
}

/// The low edges of bands never fall.
proof fn lemma_low_edges_rise<A: Arith>(
    t: LayoutTerms,
    fft_size: usize,
    rate: Single,
    layout: BandLayout,
    i: int,
    j: int,
    lo: Single,
    hi: Single,
)
    requires
        monotone::<A>(),
        room_for_bands::<A>(fft_size, rate),
        layout_of::<A>(fft_size, rate, layout),
        layout_terms_of::<A>(fft_size, rate, t),
        forall|m: int| 0 <= m < BANDS ==> (#[trigger] layout.centers@[m]).finite(),
        forall|m: int| 0 <= m < BANDS ==> #[trigger] band_of::<A>(t, fft_size, layout, m),
        starts_in_range::<A>(layout),
        0 <= i < j < BANDS,
        low_edge_of::<A>(layout.centers@, i, lo),
        low_edge_of::<A>(layout.centers@, j, hi),
    ensures
        lo.at_most(hi),
{
    let c = layout.centers@;
    lemma_centers_ascend::<A>(fft_size, rate, layout, j - 1, j);
    if i == 0 {
        assert(band_of::<A>(t, fft_size, layout, 1));
        let (first, _, _) = lemma_band_parts::<A>(t, fft_size, layout, 1);
        lemma_centers_ascend::<A>(fft_size, rate, layout, 0, j - 1);
        lemma_centers_ascend::<A>(fft_size, rate, layout, 1, j);
        lemma_edge_rises::<A>(c[0], c[1], c[j - 1], c[j], first, hi);
    } else {
        lemma_centers_ascend::<A>(fft_size, rate, layout, i - 1, j - 1);
        lemma_centers_ascend::<A>(fft_size, rate, layout, i, j);
        lemma_edge_rises::<A>(c[i - 1], c[i], c[j - 1], c[j], lo, hi);
    }
}

/// The bins of the bands never fall back from one band to the next.
pub proof fn lemma_bins_ascend<A: Arith>(fft_size: usize, rate: Single, layout: BandLayout, i: int, j: int)
    requires
        monotone::<A>(),
        room_for_bands::<A>(fft_size, rate),
        layout_of::<A>(fft_size, rate, layout),
        forall|m: int| 0 <= m < BANDS ==> (#[trigger] layout.centers@[m]).finite(),
        starts_in_range::<A>(layout),
        0 <= i <= j < BANDS,
    ensures
        layout.bin_lo@[i] <= layout.bin_lo@[j],
        layout.bin_hi@[i] <= layout.bin_hi@[j],
{
    if i < j {
        let t = lemma_layout_terms::<A>(fft_size, rate, layout);
        lemma_terms_of_layout::<A>(fft_size, rate, t);
        assert(band_of::<A>(t, fft_size, layout, i));
        assert(band_of::<A>(t, fft_size, layout, j));
        let (lo_i, hi_i, b_i) = lemma_band_parts::<A>(t, fft_size, layout, i);
        let (lo_j, hi_j, b_j) = lemma_band_parts::<A>(t, fft_size, layout, j);
        let c = layout.centers@;
        lemma_low_edges_rise::<A>(t, fft_size, rate, layout, i, j, lo_i, lo_j);
        lemma_bin_rises::<A>(
            t.bin_res,
            fft_size,
            lo_i,
            lo_j,
            layout.bin_lo@[i] as nat,
            layout.bin_lo@[j] as nat,
        );
        lemma_centers_ascend::<A>(fft_size, rate, layout, i, j);
        lemma_centers_ascend::<A>(fft_size, rate, layout, i, j - 1);
        lemma_centers_ascend::<A>(fft_size, rate, layout, i + 1, j);
        lemma_centers_ascend::<A>(fft_size, rate, layout, j - 1, j);
        if j < LAST_BAND {
            lemma_centers_ascend::<A>(fft_size, rate, layout, i + 1, j + 1);
            lemma_centers_ascend::<A>(fft_size, rate, layout, j, j + 1);
            lemma_edge_rises::<A>(c[i], c[i + 1], c[j], c[j + 1], hi_i, hi_j);
            lemma_bin_rises::<A>(t.bin_res, fft_size, hi_i, hi_j, b_i, b_j);
        } else {
            lemma_edge_rises::<A>(c[i], c[i + 1], c[j - 1], c[j], hi_i, lo_j);
            lemma_bin_rises::<A>(t.bin_res, fft_size, hi_i, lo_j, b_i, layout.bin_lo@[j] as nat);
        }
    }
}

} // verus!
