//! How the nodes shape the depth over frequency.
//!
//! The laws here hold for every arithmetic that keeps the order of numbers, and
//! rounds to the nearest.

use vstd::prelude::*;
use vstd::arithmetic::power2::{lemma2_to64, lemma_pow2_adds, lemma_pow2_pos, pow2};
use crate::arith::{exp_of, log2_of, minus_of, over_of, plus_of, square_of, times_of, Arith};
use crate::dsp::attenuation::{lemma_above_one, lemma_unit_is_finite, unit, within};
use crate::dsp::determinism::{lemma_weight, repeats, same};
use crate::dsp::detector::{
    blend_of, falloff_of, node_adds, node_shape_of, node_sums, slot_adds, weight_of, NODE_SHAPE_SIGMA,
};
use crate::dsp::monotony::{lemma_counts_rise, lemma_difference, lemma_sum, moderate, monotone};
use crate::dsp::rounding::{
    apart, counts, lemma_counts, lemma_not_subnormal, lemma_product_error, lemma_ratio_error, lemma_rounding_error,
    lemma_rounding_stays, lemma_sizes, rounds, rounds_product, rounds_ratio, rounds_to, subnormal, unity,
    ROUNDING_LIMIT,
};
use crate::dsp::MAX_NODES;
use crate::numbers::{MINUS_HALF, ONE, ONE_MILLIONTH, ZERO};
use crate::single::{lemma_is_a_number, lemma_magnitude_orders, Single, FRACTION_SPAN};

verus! {

/// A frequency whose logarithm can be taken.
pub open spec fn pitch(freq: Single) -> bool {
    freq.finite() && Single(ZERO).below(freq) && !subnormal(freq)
}

/// Every node that is on has a frequency to stand at, and a depth from 0 to 1.
pub open spec fn in_place(freqs: Seq<Single>, depths: Seq<Single>, enabled: Seq<bool>) -> bool {
    forall|j: int| 0 <= j < MAX_NODES && #[trigger] enabled[j] ==> pitch(freqs[j]) && unit(depths[j])
}

// ----- Weights ----------------------------------------------------------------

/// A Gaussian weight lies between 0 and 1.
proof fn lemma_falloff_is_unit<A: Arith>(dist: Single, w: Single)
    requires
        monotone::<A>(),
        dist.finite(),
        falloff_of::<A>(dist, w),
    ensures
        unit(w),
{
    lemma_sizes();
    let (q, s, h) = choose|q: Single, s: Single, h: Single|
        {
            &&& #[trigger] over_of::<A>(dist, Single(NODE_SHAPE_SIGMA), q)
            &&& #[trigger] square_of::<A>(q, s)
            &&& #[trigger] times_of::<A>(Single(MINUS_HALF), s, h)
            &&& exp_of::<A>(h, w)
        };
    lemma_not_subnormal(Single(ONE));
    lemma_magnitude_orders(Single(ZERO), Single(MINUS_HALF));
    lemma_magnitude_orders(Single(ONE_MILLIONTH), Single(MINUS_HALF));
    lemma_not_subnormal(Single(MINUS_HALF));
    assert(!q.nan());
    assert(!s.nan() && Single(ZERO).at_most(s));
    assert(h.at_most(Single(ZERO)));
}

/// Every weight lies between 0 and 1.
proof fn lemma_weight_is_unit<A: Arith>(dist: Single, shape: usize, w: Single)
    requires
        monotone::<A>(),
        dist.finite(),
        weight_of::<A>(dist, shape, w),
    ensures
        unit(w),
{
    lemma_sizes();
    if shape == 1 {
        if !dist.at_most(Single(ZERO)) {
            lemma_falloff_is_unit::<A>(dist, w);
        }
    } else if shape == 2 {
        if !Single(ZERO).at_most(dist) {
            lemma_falloff_is_unit::<A>(dist, w);
        }
    } else {
        assert(dist.absolute().finite());
        lemma_falloff_is_unit::<A>(dist.absolute(), w);
    }
}

/// What a node adds: its weight, and its share of the depth.
proof fn lemma_node_parts<A: Arith>(
    log: Single,
    freq: Single,
    depth: Single,
    shape: usize,
    sum: Single,
    total: Single,
    sum2: Single,
    total2: Single,
) -> (parts: (Single, Single, Single))
    requires
        monotone::<A>(),
        moderate(log),
        pitch(freq),
        unit(depth),
        node_adds::<A>(log, freq, depth, shape, sum, total, sum2, total2),
    ensures
        stands_at::<A>(log, freq, parts.0),
        weight_of::<A>(parts.0, shape, parts.1),
        unit(parts.1),
        times_of::<A>(depth, parts.1, parts.2),
        unit(parts.2),
        parts.2.at_most(parts.1),
        plus_of::<A>(sum, parts.2, sum2),
        plus_of::<A>(total, parts.1, total2),
{
    lemma_sizes();
    let (anchor, dist, w, share) = choose|anchor: Single, dist: Single, w: Single, share: Single|
        {
            &&& #[trigger] log2_of::<A>(freq, anchor)
            &&& #[trigger] minus_of::<A>(log, anchor, dist)
            &&& #[trigger] weight_of::<A>(dist, shape, w)
            &&& #[trigger] times_of::<A>(depth, w, share)
            &&& plus_of::<A>(sum, share, sum2)
            &&& plus_of::<A>(total, w, total2)
        };
    lemma_difference::<A>(log, anchor, dist, Single(ROUNDING_LIMIT));
    lemma_weight_is_unit::<A>(dist, shape, w);
    lemma_unit_is_finite(w);
    assert(within(share, w));
    (dist, w, share)
}

/// `dist` is how far a band at `log` octaves stands above a node at `freq`.
spec fn stands_at<A: Arith>(log: Single, freq: Single, dist: Single) -> bool {
    exists|anchor: Single| #[trigger] log2_of::<A>(freq, anchor) && minus_of::<A>(log, anchor, dist)
}

// ----- Sums -------------------------------------------------------------------

/// A sum of `j` weights is a number, no larger than `j`.
spec fn at_most_count(x: Single, j: int) -> bool {
    x.finite() && 0 <= x.steps() <= j * unity()
}

/// One weight more keeps a sum of weights in its bounds.
proof fn lemma_count_grows<A: Arith>(x: Single, w: Single, r: Single, j: int)
    requires
        monotone::<A>(),
        0 <= j < MAX_NODES,
        at_most_count(x, j),
        unit(w),
        plus_of::<A>(x, w, r),
    ensures
        at_most_count(r, j + 1),
{
    lemma_sizes();
    lemma_unit_is_finite(w);
    lemma_pow2_adds(23, 126);
    lemma2_to64();
    lemma_pow2_adds(12, 126);
    lemma_pow2_pos(126);
    let bound = lemma_is_a_number((j + 1) as nat, 149);
    assert(bound.steps() == (j + 1) * unity());
    assert((j + 1) * unity() == j * unity() + unity()) by (nonlinear_arith);
    assert((j + 1) * unity() <= 8 * unity()) by (nonlinear_arith)
        requires
            j < 8,
            unity() > 0,
    ;
    assert(FRACTION_SPAN * pow2(138) == 0x1000 * unity()) by (nonlinear_arith)
        requires
            pow2(138) == 0x1000 * pow2(126),
            unity() == FRACTION_SPAN * pow2(126),
    ;
    lemma_sum::<A>(x, w, r, bound);
    let flushed = choose|flushed: bool| #[trigger] rounds::<A>(flushed);
    lemma_counts(x, flushed);
    lemma_counts(w, flushed);
    let exact = counts(x, flushed) + counts(w, flushed);
    assert(rounds_to(exact, r));
    lemma_rounding_stays(exact, r, bound);
}

/// The weighted depths never add up to more than the weights.
proof fn lemma_sums_stay_below<A: Arith>(
    log: Single,
    freqs: Seq<Single>,
    depths: Seq<Single>,
    shapes: Seq<usize>,
    enabled: Seq<bool>,
    sums: Seq<Single>,
    totals: Seq<Single>,
    j: int,
)
    requires
        monotone::<A>(),
        moderate(log),
        in_place(freqs, depths, enabled),
        node_sums::<A>(log, freqs, depths, shapes, enabled, sums, totals),
        0 <= j <= MAX_NODES,
    ensures
        at_most_count(sums[j], j),
        at_most_count(totals[j], j),
        sums[j].at_most(totals[j]),
    decreases j,
{
    lemma_sizes();
    if j > 0 {
        let i = j - 1;
        lemma_sums_stay_below::<A>(log, freqs, depths, shapes, enabled, sums, totals, i);
        assert(slot_adds::<A>(log, freqs, depths, shapes, enabled, sums, totals, i));
        if enabled[i] {
            let (_, w, share) = lemma_node_parts::<A>(
                log,
                freqs[i],
                depths[i],
                shapes[i],
                sums[i],
                totals[i],
                sums[i + 1],
                totals[i + 1],
            );
            lemma_count_grows::<A>(sums[i], share, sums[j], i);
            lemma_count_grows::<A>(totals[i], w, totals[j], i);
        } else {
            assert(i * unity() <= j * unity()) by (nonlinear_arith)
                requires
                    i <= j,
                    unity() > 0,
            ;
        }
    }
}

// ----- The blend --------------------------------------------------------------

/// What the nodes leave of the neutral depth, and what they add to it.
proof fn lemma_blend_parts<A: Arith>(sum: Single, total: Single, r: Single) -> (parts: (
    Single,
    Single,
    Single,
    Single,
))
    requires
        monotone::<A>(),
        total.finite(),
        Single(ZERO).at_most(sum),
        sum.at_most(total),
        Single(ONE_MILLIONTH).below(total),
        blend_of::<A>(sum, total, r),
    ensures
        over_of::<A>(sum, total, parts.0),
        unit(parts.0),
        times_of::<A>(total.held(Single(ZERO), Single(ONE)), parts.0, parts.1),
        within(parts.1, total.held(Single(ZERO), Single(ONE))),
        minus_of::<A>(Single(ONE), total.held(Single(ZERO), Single(ONE)), parts.2),
        unit(parts.2),
        times_of::<A>(parts.2, Single(ONE), parts.3),
        within(parts.3, parts.2),
        plus_of::<A>(parts.1, parts.3, r),
{
    lemma_sizes();
    let coverage = total.held(Single(ZERO), Single(ONE));
    let (avg, rest, p, q) = choose|avg: Single, rest: Single, p: Single, q: Single|
        {
            &&& #[trigger] over_of::<A>(sum, total, avg)
            &&& #[trigger] times_of::<A>(coverage, avg, p)
            &&& #[trigger] minus_of::<A>(Single(ONE), coverage, rest)
            &&& #[trigger] times_of::<A>(rest, Single(ONE), q)
            &&& plus_of::<A>(p, q, r)
        };
    lemma_not_subnormal(total);
    assert(unit(avg));
    assert(unit(coverage));
    lemma_unit_is_finite(coverage);
    lemma_unit_is_finite(rest);
    (avg, p, rest, q)
}

/// The blend of an average from 0 to 1 lies there too.
proof fn lemma_blend_is_unit<A: Arith>(sum: Single, total: Single, r: Single)
    requires
        monotone::<A>(),
        total.finite(),
        Single(ZERO).at_most(sum),
        sum.at_most(total),
        blend_of::<A>(sum, total, r),
    ensures
        unit(r),
{
    lemma_sizes();
    if Single(ONE_MILLIONTH).below(total) {
        let (avg, p, rest, q) = lemma_blend_parts::<A>(sum, total, r);
        let coverage = total.held(Single(ZERO), Single(ONE));
        lemma_unit_is_finite(coverage);
        lemma_not_subnormal(coverage);
        lemma_not_subnormal(Single(ONE));
        let flushed = choose|flushed: bool| #[trigger] rounds::<A>(flushed);
        let d = counts(Single(ONE), flushed) - counts(coverage, flushed);
        assert(rounds_to(d, rest));
        lemma_counts(p, flushed);
        lemma_counts(q, flushed);
        let x = counts(p, flushed) + counts(q, flushed);
        assert(rounds_to(x, r));
        assert(Single(ZERO).finite() && Single(ONE).finite());
        if r.steps() > Single(ONE).steps() {
            lemma_above_one(d, rest, r);
            assert(apart(r.steps(), x) <= apart(Single(ONE).steps(), x));
        }
    }
}

/// The nodes give every band a depth from 0 to 1.
pub proof fn lemma_node_shape_is_unit<A: Arith>(
    freq: Single,
    freqs: Seq<Single>,
    depths: Seq<Single>,
    shapes: Seq<usize>,
    enabled: Seq<bool>,
    r: Single,
)
    requires
        monotone::<A>(),
        freq.finite(),
        in_place(freqs, depths, enabled),
        node_shape_of::<A>(freq, freqs, depths, shapes, enabled, r),
    ensures
        unit(r),
{
    let n = MAX_NODES as int;
    let (log, sums, totals) = lemma_shape_parts::<A>(freq, freqs, depths, shapes, enabled, r);
    lemma_sums_stay_below::<A>(log, freqs, depths, shapes, enabled, sums, totals, n);
    lemma_sizes();
    lemma_blend_is_unit::<A>(sums[n], totals[n], r);
}

/// The sums that a shape comes from.
proof fn lemma_shape_parts<A: Arith>(
    freq: Single,
    freqs: Seq<Single>,
    depths: Seq<Single>,
    shapes: Seq<usize>,
    enabled: Seq<bool>,
    r: Single,
) -> (parts: (Single, Seq<Single>, Seq<Single>))
    requires
        monotone::<A>(),
        freq.finite(),
        node_shape_of::<A>(freq, freqs, depths, shapes, enabled, r),
    ensures
        log2_of::<A>(freq.larger(Single(ONE)), parts.0),
        moderate(parts.0),
        node_sums::<A>(parts.0, freqs, depths, shapes, enabled, parts.1, parts.2),
        blend_of::<A>(parts.1[MAX_NODES as int], parts.2[MAX_NODES as int], r),
{
    lemma_sizes();
    let n = MAX_NODES as int;
    let (log, sums, totals) = choose|log: Single, sums: Seq<Single>, totals: Seq<Single>|
        {
            &&& #[trigger] log2_of::<A>(freq.larger(Single(ONE)), log)
            &&& #[trigger] node_sums::<A>(log, freqs, depths, shapes, enabled, sums, totals)
            &&& blend_of::<A>(sums[n], totals[n], r)
        };
    lemma_not_subnormal(freq.larger(Single(ONE)));
    (log, sums, totals)
}

// ----- Deeper nodes -----------------------------------------------------------

/// No node that is on is less deep in `deeper` than in `depths`.
pub open spec fn no_less_deep(depths: Seq<Single>, deeper: Seq<Single>, enabled: Seq<bool>) -> bool {
    forall|j: int| 0 <= j < MAX_NODES && #[trigger] enabled[j] ==> depths[j].at_most(deeper[j])
}

/// Deeper nodes add up to no less, over the same weights.
proof fn lemma_deeper_sums<A: Arith>(
    log: Single,
    freqs: Seq<Single>,
    depths: Seq<Single>,
    deeper: Seq<Single>,
    shapes: Seq<usize>,
    enabled: Seq<bool>,
    sums_a: Seq<Single>,
    totals_a: Seq<Single>,
    sums_b: Seq<Single>,
    totals_b: Seq<Single>,
    j: int,
)
    requires
        monotone::<A>(),
        repeats::<A>(),
        moderate(log),
        in_place(freqs, depths, enabled),
        in_place(freqs, deeper, enabled),
        no_less_deep(depths, deeper, enabled),
        node_sums::<A>(log, freqs, depths, shapes, enabled, sums_a, totals_a),
        node_sums::<A>(log, freqs, deeper, shapes, enabled, sums_b, totals_b),
        0 <= j <= MAX_NODES,
    ensures
        sums_a[j].at_most(sums_b[j]),
        totals_a[j] == totals_b[j],
    decreases j,
{
    lemma_sizes();
    if j > 0 {
        let i = j - 1;
        lemma_deeper_sums::<A>(
            log,
            freqs,
            depths,
            deeper,
            shapes,
            enabled,
            sums_a,
            totals_a,
            sums_b,
            totals_b,
            i,
        );
        assert(slot_adds::<A>(log, freqs, depths, shapes, enabled, sums_a, totals_a, i));
        assert(slot_adds::<A>(log, freqs, deeper, shapes, enabled, sums_b, totals_b, i));
        lemma_sums_stay_below::<A>(log, freqs, depths, shapes, enabled, sums_a, totals_a, j);
        lemma_sums_stay_below::<A>(log, freqs, deeper, shapes, enabled, sums_b, totals_b, j);
        if enabled[i] {
            let (dist_a, w_a, share_a) = lemma_node_parts::<A>(
                log,
                freqs[i],
                depths[i],
                shapes[i],
                sums_a[i],
                totals_a[i],
                sums_a[i + 1],
                totals_a[i + 1],
            );
            let (dist_b, w_b, share_b) = lemma_node_parts::<A>(
                log,
                freqs[i],
                deeper[i],
                shapes[i],
                sums_b[i],
                totals_b[i],
                sums_b[i + 1],
                totals_b[i + 1],
            );
            assert(same(dist_a, dist_b));
            lemma_weight::<A>(dist_a, dist_b, shapes[i], w_a, w_b);
            assert(share_a.at_most(share_b));
            assert(same(totals_a[j], totals_b[j]));
        }
    }
}

/// Deeper nodes never give a band less depth.
pub proof fn lemma_deeper_nodes_shape_no_less<A: Arith>(
    freq: Single,
    freqs: Seq<Single>,
    depths: Seq<Single>,
    deeper: Seq<Single>,
    shapes: Seq<usize>,
    enabled: Seq<bool>,
    r: Single,
    q: Single,
)
    requires
        monotone::<A>(),
        repeats::<A>(),
        freq.finite(),
        in_place(freqs, depths, enabled),
        in_place(freqs, deeper, enabled),
        no_less_deep(depths, deeper, enabled),
        node_shape_of::<A>(freq, freqs, depths, shapes, enabled, r),
        node_shape_of::<A>(freq, freqs, deeper, shapes, enabled, q),
    ensures
        r.at_most(q),
{
    lemma_sizes();
    let n = MAX_NODES as int;
    let (log, sums_a, totals_a) = lemma_shape_parts::<A>(freq, freqs, depths, shapes, enabled, r);
    let (other, sums_b, totals_b) = lemma_shape_parts::<A>(freq, freqs, deeper, shapes, enabled, q);
    assert(same(log, other));
    lemma_deeper_sums::<A>(
        log,
        freqs,
        depths,
        deeper,
        shapes,
        enabled,
        sums_a,
        totals_a,
        sums_b,
        totals_b,
        n,
    );
    lemma_sums_stay_below::<A>(log, freqs, depths, shapes, enabled, sums_a, totals_a, n);
    lemma_sums_stay_below::<A>(log, freqs, deeper, shapes, enabled, sums_b, totals_b, n);
    lemma_node_shape_is_unit::<A>(freq, freqs, depths, shapes, enabled, r);
    lemma_node_shape_is_unit::<A>(freq, freqs, deeper, shapes, enabled, q);
    let total = totals_a[n];
    if Single(ONE_MILLIONTH).below(total) {
        let (avg_a, p_a, rest_a, q_a) = lemma_blend_parts::<A>(sums_a[n], total, r);
        let (avg_b, p_b, rest_b, q_b) = lemma_blend_parts::<A>(sums_b[n], total, q);
        assert(avg_a.at_most(avg_b));
        assert(p_a.at_most(p_b));
        assert(same(rest_a, rest_b));
        assert(same(q_a, q_b));
    }
}

// ----- The shallowest node ----------------------------------------------------

/// No node that is on is less deep than `d`.
pub open spec fn least_depth(d: Single, depths: Seq<Single>, enabled: Seq<bool>) -> bool {
    unit(d) && forall|j: int| 0 <= j < MAX_NODES && #[trigger] enabled[j] ==> d.at_most(depths[j])
}

/// After `j` nodes the weighted depths fall short of `d` times the weights by little.
spec fn falls_short(d: int, total: int, sum: int, j: int) -> bool {
    FRACTION_SPAN * (d * total - unity() * sum) <= j * (unity() * (5 * total + 16 * (FRACTION_SPAN
        * FRACTION_SPAN)))
}

/// A product rises with both factors.
proof fn lemma_scaled(d: int, u: int, x: int, y: int)
    by (nonlinear_arith)
    requires
        0 <= d <= u,
        x <= y,
        0 <= y,
    ensures
        d * x <= u * y,
{
}

/// What one node loses of its share.
proof fn lemma_share_falls_short(d: int, depth: int, w: int, share: int, u: int)
    requires
        0 <= d <= depth <= u,
        0 <= w,
        FRACTION_SPAN * apart(share * u, depth * w) <= apart(depth * w, 0) + FRACTION_SPAN * FRACTION_SPAN * u,
    ensures
        FRACTION_SPAN * (d * w - u * share) <= u * w + FRACTION_SPAN * FRACTION_SPAN * u,
{
    lemma_scaled(d, depth, w, w);
    lemma_scaled(depth, u, w, w);
    assert(0 <= depth * w) by (nonlinear_arith)
        requires
            0 <= depth,
            0 <= w,
    ;
    assert(u * share == share * u) by (nonlinear_arith);
}

/// What one node more takes from the sums.
proof fn lemma_shortfall_grows(
    d: int,
    total: int,
    sum: int,
    w: int,
    held: int,
    share: int,
    total2: int,
    sum2: int,
    j: int,
)
    requires
        0 <= d <= unity(),
        0 <= j < 8,
        0 <= total,
        0 <= held <= w <= held + FRACTION_SPAN,
        falls_short(d, total, sum, j),
        FRACTION_SPAN * (d * held - unity() * share) <= unity() * held + FRACTION_SPAN * FRACTION_SPAN * unity(),
        FRACTION_SPAN * (sum + share - sum2) <= total + w + 3 * (FRACTION_SPAN * FRACTION_SPAN),
        FRACTION_SPAN * (total2 - total - held) <= total + held + FRACTION_SPAN * FRACTION_SPAN,
        FRACTION_SPAN * (total + held - total2) <= total + held + 2 * (FRACTION_SPAN * FRACTION_SPAN),
    ensures
        falls_short(d, total2, sum2, j + 1),
{
    lemma_sizes();
    let u = unity();
    let span = FRACTION_SPAN as int;
    let sq = span * span;
    assert(sq == 0x4000_0000_0000) by (nonlinear_arith)
        requires
            sq == span * span,
            span == 0x80_0000,
    ;
    lemma_scaled(d, u, span * (total2 - total - held), total + held + sq);
    lemma_scaled(u, u, span * (sum + share - sum2), total + w + 3 * sq);
    assert(span * (d * total2 - u * sum2) == d * (span * (total2 - total - held)) + u * (span * (sum + share
        - sum2)) + span * (d * total - u * sum) + span * (d * held - u * share)) by (nonlinear_arith);
    let a = total + held + sq;
    let b = total + w + 3 * sq;
    let c = j * (5 * total + 16 * sq);
    let e = held + sq;
    assert(j * (u * (5 * total + 16 * sq)) == u * c) by (nonlinear_arith)
        requires
            c == j * (5 * total + 16 * sq),
    ;
    assert(u * held + sq * u == u * e) by (nonlinear_arith)
        requires
            e == held + sq,
    ;
    assert(u * a + u * b + u * c + u * e == u * (a + b + c + e)) by (nonlinear_arith);
    let gap = total - total2;
    let top = total2 + 300 * span;
    assert(5 * (8 * gap) <= top);
    assert(0 <= top);
    assert(5 * (j * gap) <= top) by (nonlinear_arith)
        requires
            5 * (8 * gap) <= top,
            0 <= top,
            0 <= j < 8,
    ;
    let goal = (j + 1) * (5 * total2 + 16 * sq);
    assert(goal - c == 5 * total2 + 16 * sq - 5 * (j * gap)) by (nonlinear_arith)
        requires
            goal == (j + 1) * (5 * total2 + 16 * sq),
            c == j * (5 * total + 16 * sq),
            gap == total - total2,
    ;
    assert(a + b + e <= 4 * total2 + 15 * sq);
    assert(a + b + c + e <= goal);
    assert(u * (a + b + c + e) <= u * goal) by (nonlinear_arith)
        requires
            a + b + c + e <= goal,
            u > 0,
    ;
    assert((j + 1) * (u * (5 * total2 + 16 * sq)) == u * goal) by (nonlinear_arith)
        requires
            goal == (j + 1) * (5 * total2 + 16 * sq),
    ;
}

/// A node that is on keeps the sums from falling short by much.
proof fn lemma_node_falls_short<A: Arith>(
    d: Single,
    log: Single,
    freq: Single,
    depth: Single,
    shape: usize,
    sum: Single,
    total: Single,
    sum2: Single,
    total2: Single,
    j: int,
    flushed: bool,
)
    requires
        monotone::<A>(),
        rounds::<A>(flushed),
        moderate(log),
        pitch(freq),
        unit(d),
        unit(depth),
        d.at_most(depth),
        0 <= j < MAX_NODES,
        at_most_count(sum, j),
        at_most_count(total, j),
        sum.at_most(total),
        falls_short(counts(d, flushed), total.steps(), sum.steps(), j),
        node_adds::<A>(log, freq, depth, shape, sum, total, sum2, total2),
    ensures
        falls_short(counts(d, flushed), total2.steps(), sum2.steps(), j + 1),
{
    lemma_sizes();
    let u = unity();
    let limit = Single(ROUNDING_LIMIT).steps();
    let (_, w, share) = lemma_node_parts::<A>(log, freq, depth, shape, sum, total, sum2, total2);
    lemma_unit_is_finite(w);
    lemma_unit_is_finite(d);
    lemma_unit_is_finite(depth);
    lemma_unit_is_finite(share);
    lemma_counts(w, flushed);
    lemma_counts(d, flushed);
    lemma_counts(depth, flushed);
    lemma_counts(share, flushed);
    lemma_counts(sum, flushed);
    lemma_counts(total, flushed);
    lemma_counts_rise(d, depth, flushed);
    let deep = counts(depth, flushed);
    let held = counts(w, flushed);
    assert(0 <= deep * held <= u * u) by (nonlinear_arith)
        requires
            0 <= deep <= u,
            0 <= held <= u,
    ;
    assert(u * u <= limit * u) by (nonlinear_arith)
        requires
            0 < u <= limit,
    ;
    assert(rounds_product(deep * held, share));
    lemma_product_error(deep * held, share);
    lemma_share_falls_short(counts(d, flushed), deep, held, share.steps(), u);
    assert(j * u <= 8 * u) by (nonlinear_arith)
        requires
            j < 8,
            u > 0,
    ;
    let e = counts(sum, flushed) + counts(share, flushed);
    assert(rounds_to(e, sum2));
    lemma_rounding_error(e, sum2);
    let t = counts(total, flushed) + held;
    assert(rounds_to(t, total2));
    lemma_rounding_error(t, total2);
    lemma_shortfall_grows(
        counts(d, flushed),
        total.steps(),
        sum.steps(),
        w.steps(),
        held,
        share.steps(),
        total2.steps(),
        sum2.steps(),
        j,
    );
}

/// The sums over all nodes do not fall short by much.
proof fn lemma_sums_fall_short<A: Arith>(
    d: Single,
    log: Single,
    freqs: Seq<Single>,
    depths: Seq<Single>,
    shapes: Seq<usize>,
    enabled: Seq<bool>,
    sums: Seq<Single>,
    totals: Seq<Single>,
    j: int,
    flushed: bool,
)
    requires
        monotone::<A>(),
        rounds::<A>(flushed),
        moderate(log),
        in_place(freqs, depths, enabled),
        least_depth(d, depths, enabled),
        node_sums::<A>(log, freqs, depths, shapes, enabled, sums, totals),
        0 <= j <= MAX_NODES,
    ensures
        falls_short(counts(d, flushed), totals[j].steps(), sums[j].steps(), j),
    decreases j,
{
    lemma_sizes();
    let c = counts(d, flushed);
    let u = unity();
    if j == 0 {
        assert(c * 0 == 0 && u * 0 == 0) by (nonlinear_arith);
        assert(0 * (u * (5 * 0 + 16 * (FRACTION_SPAN * FRACTION_SPAN))) == 0) by (nonlinear_arith);
    } else {
        let i = j - 1;
        lemma_sums_fall_short::<A>(d, log, freqs, depths, shapes, enabled, sums, totals, i, flushed);
        lemma_sums_stay_below::<A>(log, freqs, depths, shapes, enabled, sums, totals, i);
        assert(slot_adds::<A>(log, freqs, depths, shapes, enabled, sums, totals, i));
        if enabled[i] {
            lemma_node_falls_short::<A>(
                d,
                log,
                freqs[i],
                depths[i],
                shapes[i],
                sums[i],
                totals[i],
                sums[j],
                totals[j],
                i,
                flushed,
            );
        } else {
            let more = u * (5 * totals[i].steps() + 16 * (FRACTION_SPAN * FRACTION_SPAN));
            assert(0 <= more) by (nonlinear_arith)
                requires
                    more == u * (5 * totals[i].steps() + 16 * (FRACTION_SPAN * FRACTION_SPAN)),
                    u > 0,
                    totals[i].steps() >= 0,
            ;
            assert(j * more == i * more + more) by (nonlinear_arith)
                requires
                    j == i + 1,
            ;
        }
    }
}

/// What the average of the nodes falls short by.
proof fn lemma_average_falls_short<A: Arith>(d: int, sum: Single, total: Single, avg: Single, flushed: bool)
    requires
        rounds::<A>(flushed),
        0 <= d <= unity(),
        total.finite(),
        sum.finite(),
        Single(ZERO).at_most(sum),
        sum.at_most(total),
        Single(ONE_MILLIONTH).below(total),
        falls_short(d, total.steps(), sum.steps(), MAX_NODES as int),
        over_of::<A>(sum, total, avg),
    ensures
        FRACTION_SPAN * (d - avg.steps()) <= 171 * unity(),
{
    lemma_sizes();
    lemma_not_subnormal(total);
    lemma_counts(sum, flushed);
    let u = unity();
    let span = FRACTION_SPAN as int;
    let sq = span * span;
    let t = total.steps();
    let s = sum.steps();
    let c = counts(sum, flushed);
    let limit = Single(ROUNDING_LIMIT).steps();
    assert(0 <= c * u <= t * u <= limit * t) by (nonlinear_arith)
        requires
            0 <= c <= t,
            0 < u <= limit,
    ;
    assert(rounds_ratio(c * u, t, avg));
    lemma_ratio_error(c * u, t, avg);
    let a = avg.steps();
    assert(span * (d * t - u * s) <= 168 * (u * t)) by (nonlinear_arith)
        requires
            span * (d * t - u * s) <= 8 * (u * (5 * t + 16 * sq)),
            sq <= t,
            u > 0,
    ;
    assert(span * (c * u) >= span * (u * s) - u * t) by (nonlinear_arith)
        requires
            c >= s - span,
            span > 0,
            sq == span * span,
            sq <= t,
            u > 0,
    ;
    assert(sq * t <= u * t) by (nonlinear_arith)
        requires
            sq <= u,
            0 <= t,
    ;
    assert(t * u == u * t) by (nonlinear_arith);
    assert(span * (c * u) - span * (a * t) <= span * apart(a * t, c * u)) by (nonlinear_arith)
        requires
            c * u - a * t <= apart(a * t, c * u),
            span > 0,
    ;
    assert(span * (d * t) - span * (a * t) <= 171 * (u * t));
    assert(span * (d - a) <= 171 * u) by (nonlinear_arith)
        requires
            span * (d * t) - span * (a * t) <= 171 * (u * t),
            t > 0,
    ;
}

/// What is left of the least depth after the blend.
proof fn lemma_blend_falls_short(
    d: int,
    cov: int,
    avg: int,
    held_avg: int,
    p: int,
    held_p: int,
    rest: int,
    held_rest: int,
    q: int,
    held_q: int,
    r: int,
)
    requires
        0 <= d <= unity(),
        0 <= cov <= unity(),
        0 <= held_avg <= avg <= unity(),
        avg - FRACTION_SPAN <= held_avg,
        FRACTION_SPAN * (d - avg) <= 171 * unity(),
        FRACTION_SPAN * apart(p * unity(), cov * held_avg) <= apart(cov * held_avg, 0) + FRACTION_SPAN
            * FRACTION_SPAN * unity(),
        p - FRACTION_SPAN <= held_p,
        FRACTION_SPAN * (unity() - cov - rest) <= unity() + FRACTION_SPAN * FRACTION_SPAN,
        rest - FRACTION_SPAN <= held_rest,
        FRACTION_SPAN * (held_rest - q) <= unity() + FRACTION_SPAN * FRACTION_SPAN,
        q - FRACTION_SPAN <= held_q,
        FRACTION_SPAN * (held_p + held_q - r) <= 2 * unity() + FRACTION_SPAN * FRACTION_SPAN,
    ensures
        FRACTION_SPAN * (d - r) <= 200 * unity(),
{
    lemma_sizes();
    let u = unity();
    let span = FRACTION_SPAN as int;
    let sq = span * span;
    assert(sq == 0x4000_0000_0000) by (nonlinear_arith)
        requires
            sq == span * span,
            span == 0x80_0000,
    ;
    assert(64 * sq <= u);
    let x = cov * held_avg;
    assert(0 <= x <= cov * u <= u * u) by (nonlinear_arith)
        requires
            x == cov * held_avg,
            0 <= cov <= u,
            0 <= held_avg <= u,
    ;
    assert(span * (cov * d - x) <= 172 * (u * u)) by (nonlinear_arith)
        requires
            x == cov * held_avg,
            0 <= cov <= u,
            span * (d - held_avg) <= 172 * u,
            u > 0,
    ;
    assert(sq * u <= u * u) by (nonlinear_arith)
        requires
            sq <= u,
            u > 0,
    ;
    assert(span * (x - p * u) <= u * u + sq * u) by (nonlinear_arith)
        requires
            span * apart(p * u, x) <= x + sq * u,
            x <= u * u,
            x - p * u <= apart(p * u, x),
            span > 0,
    ;
    assert(span * (u - cov) <= span * q + 3 * u);
    assert(span * r >= span * p + span * (u - cov) - 6 * u);
    assert(span * (r * u) >= span * (p * u) + span * ((u - cov) * u) - 6 * (u * u)) by (nonlinear_arith)
        requires
            span * r >= span * p + span * (u - cov) - 6 * u,
            u > 0,
    ;
    assert(cov * d + (u - cov) * u >= u * d) by (nonlinear_arith)
        requires
            0 <= d <= u,
            0 <= cov <= u,
    ;
    assert(span * (cov * d) + span * ((u - cov) * u) >= span * (u * d)) by (nonlinear_arith)
        requires
            cov * d + (u - cov) * u >= u * d,
            span > 0,
    ;
    assert(span * (u * d) - span * (r * u) <= 200 * (u * u));
    assert(span * (d - r) <= 200 * u) by (nonlinear_arith)
        requires
            span * (u * d) - span * (r * u) <= 200 * (u * u),
            u > 0,
    ;
}

/// The nodes give no band less depth than the shallowest of them asks for, but for
/// rounding: what is lost is less than a thirty-thousandth.
pub proof fn lemma_node_shape_keeps_least_depth<A: Arith>(
    d: Single,
    freq: Single,
    freqs: Seq<Single>,
    depths: Seq<Single>,
    shapes: Seq<usize>,
    enabled: Seq<bool>,
    r: Single,
)
    requires
        monotone::<A>(),
        freq.finite(),
        in_place(freqs, depths, enabled),
        least_depth(d, depths, enabled),
        node_shape_of::<A>(freq, freqs, depths, shapes, enabled, r),
    ensures
        30_000 * (d.steps() - r.steps()) <= unity(),
{
    lemma_sizes();
    let n = MAX_NODES as int;
    let u = unity();
    let span = FRACTION_SPAN as int;
    assert(span * span == 0x4000_0000_0000) by (nonlinear_arith)
        requires
            span == 0x80_0000,
    ;
    let flushed = choose|flushed: bool| #[trigger] rounds::<A>(flushed);
    let (log, sums, totals) = lemma_shape_parts::<A>(freq, freqs, depths, shapes, enabled, r);
    lemma_sums_stay_below::<A>(log, freqs, depths, shapes, enabled, sums, totals, n);
    lemma_sums_fall_short::<A>(d, log, freqs, depths, shapes, enabled, sums, totals, n, flushed);
    lemma_counts(d, flushed);
    let total = totals[n];
    if Single(ONE_MILLIONTH).below(total) {
        let (avg, p, rest, q) = lemma_blend_parts::<A>(sums[n], total, r);
        let cov = total.held(Single(ZERO), Single(ONE));
        lemma_average_falls_short::<A>(counts(d, flushed), sums[n], total, avg, flushed);
        lemma_unit_is_finite(cov);
        lemma_unit_is_finite(avg);
        lemma_unit_is_finite(rest);
        lemma_not_subnormal(cov);
        lemma_not_subnormal(Single(ONE));
        lemma_counts(avg, flushed);
        lemma_counts(p, flushed);
        lemma_counts(rest, flushed);
        lemma_counts(q, flushed);
        let limit = Single(ROUNDING_LIMIT).steps();
        let x = cov.steps() * counts(avg, flushed);
        let y = counts(rest, flushed) * u;
        assert(0 <= x <= limit * u && 0 <= y <= limit * u) by (nonlinear_arith)
            requires
                x == cov.steps() * counts(avg, flushed),
                y == counts(rest, flushed) * u,
                0 <= cov.steps() <= u,
                0 <= counts(avg, flushed) <= u,
                0 <= counts(rest, flushed) <= u,
                0 < u <= limit,
        ;
        assert(rounds_product(x, p));
        lemma_product_error(x, p);
        assert(rounds_to(u - cov.steps(), rest));
        lemma_rounding_error(u - cov.steps(), rest);
        assert(rounds_product(y, q));
        lemma_product_error(y, q);
        let k = counts(rest, flushed);
        assert(span * (k - q.steps()) <= u + span * span) by (nonlinear_arith)
            requires
                y == k * u,
                0 <= k <= u,
                span * apart(q.steps() * u, y) <= y + span * span * u,
                y - q.steps() * u <= apart(q.steps() * u, y),
                u > 0,
                span == 0x80_0000,
        ;
        let z = counts(p, flushed) + counts(q, flushed);
        assert(rounds_to(z, r));
        lemma_rounding_error(z, r);
        lemma_blend_falls_short(
            counts(d, flushed),
            cov.steps(),
            avg.steps(),
            counts(avg, flushed),
            p.steps(),
            counts(p, flushed),
            rest.steps(),
            k,
            q.steps(),
            counts(q, flushed),
            r.steps(),
        );
    }
}

} // verus!
