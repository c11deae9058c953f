//! The same input makes the same output.
//!
//! The laws here hold for every arithmetic that answers a question the same way
//! every time. They say that the relations that contracts are written in leave just
//! one result.

use vstd::prelude::*;
use crate::arith::{
    cos_of, count_of, exp_of, flushes_of, hypot_of, ln_of, log10_of, log2_of, minus_of, over_of, plus_of, pow_of,
    sin_of, sqrt_of, square_of, times_of, Arith,
};
use crate::dsp::analysis::{
    analysis_of, band_described_of, bin_count, described_of, last_bin, loudest, magnitude_of, magnitudes_of,
    plan_of, silent_bins, spectrum_of, windowed_of, AnalysisEngine, BandAnalysis, Bin, Fourier,
};
use crate::dsp::bands::{
    band_between, band_of, bin_of, ceiling_of, center_of, edge_of, high_edge_of, layout_of, layout_terms_of,
    low_edge_of, quality_of, Band, BandLayout, LayoutTerms, LAST_BAND,
};
use crate::dsp::detector::{
    attenuation_of, ballistics_scale_of, band_step_of, band_step_with, blend_of, coef_of, follow_of,
    frame_terms_of, glide_of, inserted, knee_of, lemma_detector_is_whole, lemma_ordered_len, median,
    node_shape_of, node_sums, ordered, reduction_of, slot_adds, weight_of, window, BandStep, DetectParams,
    Detector, FrameTerms, BALLISTICS_ALPHA,
};
use crate::dsp::filters::{
    cascade_of, cascade_steps, double_sample_of, filter_step_of, filter_target_of, filtered_of, flush_of,
    gains_set_of, mix_of, oversampling_set_of, peak_of, peak_shape_of, ramp_share_of, ramp_step_of,
    ramped_filter_of, ramped_of, sample_of, synth_rate_of, Biquad, CascadeState, Coeffs, FilterTarget,
    GAIN_RAMP_SAMPLES, UNITY_FLOOR,
};
use crate::dsp::{BANDS, MAX_NODES};
use crate::numbers::{FORTY, HALF, ONE, ONE_THOUSANDTH, TEN, THIRTY_SIX, TWO, TWO_PI};
use crate::single::Single;

verus! {

/// The same number, or no number either. What pattern a machine gives to a result
/// that is no number is left open.
pub open spec fn same(a: Single, b: Single) -> bool {
    a == b || (a.nan() && b.nan())
}

/// The same numbers in the same places.
pub open spec fn all_same(a: Seq<Single>, b: Seq<Single>) -> bool {
    &&& a.len() == b.len()
    &&& forall|i: int|
        #![trigger a[i]]
        #![trigger b[i]]
        0 <= i < a.len() ==> same(a[i], b[i])
}

/// The same pair of numbers.
pub open spec fn same_pair(a: (Single, Single), b: (Single, Single)) -> bool {
    same(a.0, b.0) && same(a.1, b.1)
}

/// `A` answers the same question the same way every time.
pub open spec fn repeats<A: Arith>() -> bool {
    &&& forall|a: Single, b: Single, c: Single, d: Single, r: Single, q: Single|
        #[trigger] plus_of::<A>(a, b, r) && #[trigger] plus_of::<A>(c, d, q) && same(a, c) && same(b, d)
            ==> same(r, q)
    &&& forall|a: Single, b: Single, c: Single, d: Single, r: Single, q: Single|
        #[trigger] minus_of::<A>(a, b, r) && #[trigger] minus_of::<A>(c, d, q) && same(a, c) && same(b, d)
            ==> same(r, q)
    &&& forall|a: Single, b: Single, c: Single, d: Single, r: Single, q: Single|
        #[trigger] times_of::<A>(a, b, r) && #[trigger] times_of::<A>(c, d, q) && same(a, c) && same(b, d)
            ==> same(r, q)
    &&& forall|a: Single, b: Single, c: Single, d: Single, r: Single, q: Single|
        #[trigger] over_of::<A>(a, b, r) && #[trigger] over_of::<A>(c, d, q) && same(a, c) && same(b, d)
            ==> same(r, q)
    &&& forall|a: Single, c: Single, r: Single, q: Single|
        #[trigger] square_of::<A>(a, r) && #[trigger] square_of::<A>(c, q) && same(a, c) ==> same(r, q)
    &&& forall|a: Single, c: Single, r: Single, q: Single|
        #[trigger] sqrt_of::<A>(a, r) && #[trigger] sqrt_of::<A>(c, q) && same(a, c) ==> same(r, q)
    &&& forall|a: Single, c: Single, r: Single, q: Single|
        #[trigger] exp_of::<A>(a, r) && #[trigger] exp_of::<A>(c, q) && same(a, c) ==> same(r, q)
    &&& forall|a: Single, c: Single, r: Single, q: Single|
        #[trigger] ln_of::<A>(a, r) && #[trigger] ln_of::<A>(c, q) && same(a, c) ==> same(r, q)
    &&& forall|a: Single, c: Single, r: Single, q: Single|
        #[trigger] log2_of::<A>(a, r) && #[trigger] log2_of::<A>(c, q) && same(a, c) ==> same(r, q)
    &&& forall|a: Single, c: Single, r: Single, q: Single|
        #[trigger] log10_of::<A>(a, r) && #[trigger] log10_of::<A>(c, q) && same(a, c) ==> same(r, q)
    &&& forall|a: Single, b: Single, c: Single, d: Single, r: Single, q: Single|
        #[trigger] pow_of::<A>(a, b, r) && #[trigger] pow_of::<A>(c, d, q) && same(a, c) && same(b, d)
            ==> same(r, q)
    &&& forall|a: Single, c: Single, r: Single, q: Single|
        #[trigger] sin_of::<A>(a, r) && #[trigger] sin_of::<A>(c, q) && same(a, c) ==> same(r, q)
    &&& forall|a: Single, c: Single, r: Single, q: Single|
        #[trigger] cos_of::<A>(a, r) && #[trigger] cos_of::<A>(c, q) && same(a, c) ==> same(r, q)
    &&& forall|a: Single, b: Single, c: Single, d: Single, r: Single, q: Single|
        #[trigger] hypot_of::<A>(a, b, r) && #[trigger] hypot_of::<A>(c, d, q) && same(a, c) && same(b, d)
            ==> same(r, q)
    &&& forall|n: usize, r: Single, q: Single|
        #[trigger] count_of::<A>(n, r) && #[trigger] count_of::<A>(n, q) ==> same(r, q)
    &&& forall|r: bool, q: bool| #[trigger] flushes_of::<A>(r) && #[trigger] flushes_of::<A>(q) ==> r == q
}

// ----- Bands ------------------------------------------------------------------

/// Terms of layouts that differ at most in how far bins lie apart.
spec fn terms_close(a: LayoutTerms, b: LayoutTerms) -> bool {
    &&& same(a.f_max, b.f_max)
    &&& same(a.log_min, b.log_min)
    &&& same(a.log_span, b.log_span)
    &&& same(a.last, b.last)
}

/// The same layout.
pub open spec fn layouts_same(a: BandLayout, b: BandLayout) -> bool {
    &&& all_same(a.centers@, b.centers@)
    &&& a.bin_lo@ == b.bin_lo@
    &&& a.bin_hi@ == b.bin_hi@
    &&& all_same(a.q@, b.q@)
    &&& all_same(a.q_ceiling@, b.q_ceiling@)
}

proof fn lemma_terms<A: Arith>(size: usize, other: usize, rate: Single, a: LayoutTerms, b: LayoutTerms)
    requires
        repeats::<A>(),
        layout_terms_of::<A>(size, rate, a),
        layout_terms_of::<A>(other, rate, b),
    ensures
        terms_close(a, b),
        size == other ==> same(a.bin_res, b.bin_res),
{
}

proof fn lemma_center<A: Arith>(t: LayoutTerms, u: LayoutTerms, i: usize, r: Single, q: Single)
    requires
        repeats::<A>(),
        terms_close(t, u),
        center_of::<A>(t, i, r),
        center_of::<A>(u, i, q),
    ensures
        same(r, q),
{
}

proof fn lemma_quality<A: Arith>(lo: Single, hi: Single, lo2: Single, hi2: Single, r: Single, q: Single)
    requires
        repeats::<A>(),
        same(lo, lo2),
        same(hi, hi2),
        quality_of::<A>(lo, hi, r),
        quality_of::<A>(lo2, hi2, q),
    ensures
        same(r, q),
{
}

proof fn lemma_ceiling<A: Arith>(center: Single, center2: Single, a: Single, b: Single, r: Single, q: Single)
    requires
        repeats::<A>(),
        same(center, center2),
        same(a, b),
        ceiling_of::<A>(center, a, r),
        ceiling_of::<A>(center2, b, q),
    ensures
        same(r, q),
{
}

proof fn lemma_bin<A: Arith>(res: Single, res2: Single, size: usize, f: Single, g: Single, a: nat, b: nat)
    requires
        repeats::<A>(),
        same(res, res2),
        same(f, g),
        bin_of::<A>(res, size, f, a),
        bin_of::<A>(res2, size, g, b),
    ensures
        a == b,
{
}

proof fn lemma_edges<A: Arith>(
    t: LayoutTerms,
    u: LayoutTerms,
    c: Seq<Single>,
    d: Seq<Single>,
    i: int,
    lo: Single,
    hi: Single,
    lo2: Single,
    hi2: Single,
)
    requires
        repeats::<A>(),
        terms_close(t, u),
        all_same(c, d),
        c.len() == BANDS,
        0 <= i < BANDS,
        low_edge_of::<A>(c, i, lo),
        high_edge_of::<A>(t, c, i, hi),
        low_edge_of::<A>(d, i, lo2),
        high_edge_of::<A>(u, d, i, hi2),
    ensures
        same(lo, lo2),
        same(hi, hi2),
{
    assert(same(c[i], d[i]));
    if i > 0 {
        assert(same(c[i - 1], d[i - 1]));
    }
    if i < LAST_BAND {
        assert(same(c[i + 1], d[i + 1]));
    }
}

proof fn lemma_layout_terms<A: Arith>(size: usize, rate: Single, a: BandLayout) -> (t: LayoutTerms)
    requires
        layout_of::<A>(size, rate, a),
    ensures
        layout_terms_of::<A>(size, rate, t),
        forall|i: int| 0 <= i < BANDS ==> center_of::<A>(t, i as usize, #[trigger] a.centers@[i]),
        forall|i: int| 0 <= i < BANDS ==> #[trigger] band_of::<A>(t, size, a, i),
{
    choose|t: LayoutTerms|
        {
            &&& #[trigger] layout_terms_of::<A>(size, rate, t)
            &&& forall|i: int|
                0 <= i < BANDS ==> center_of::<A>(t, i as usize, #[trigger] a.centers@[i])
            &&& forall|i: int| 0 <= i < BANDS ==> #[trigger] band_of::<A>(t, size, a, i)
        }
}

proof fn lemma_centers<A: Arith>(size: usize, other: usize, rate: Single, a: BandLayout, b: BandLayout)
    requires
        repeats::<A>(),
        layout_of::<A>(size, rate, a),
        layout_of::<A>(other, rate, b),
    ensures
        all_same(a.centers@, b.centers@),
{
    let t = lemma_layout_terms::<A>(size, rate, a);
    let u = lemma_layout_terms::<A>(other, rate, b);
    lemma_terms::<A>(size, other, rate, t, u);
    assert forall|i: int| 0 <= i < BANDS implies same(a.centers@[i], b.centers@[i]) by {
        lemma_center::<A>(t, u, i as usize, a.centers@[i], b.centers@[i]);
    }
}

proof fn lemma_band_parts<A: Arith>(
    t: LayoutTerms,
    u: LayoutTerms,
    size: usize,
    other: usize,
    a: BandLayout,
    b: BandLayout,
    i: int,
)
    requires
        repeats::<A>(),
        terms_close(t, u),
        size == other ==> same(t.bin_res, u.bin_res),
        all_same(a.centers@, b.centers@),
        0 <= i < BANDS,
        band_of::<A>(t, size, a, i),
        band_of::<A>(u, other, b, i),
    ensures
        same(a.q@[i], b.q@[i]),
        same(a.q_ceiling@[i], b.q_ceiling@[i]),
        size == other ==> a.bin_lo@[i] == b.bin_lo@[i] && a.bin_hi@[i] == b.bin_hi@[i],
{
    let (lo, hi) = lemma_band_edges::<A>(t, size, a, i);
    let (lo2, hi2) = lemma_band_edges::<A>(u, other, b, i);
    lemma_edges::<A>(t, u, a.centers@, b.centers@, i, lo, hi, lo2, hi2);
    lemma_quality::<A>(lo, hi, lo2, hi2, a.q@[i], b.q@[i]);
    lemma_ceiling::<A>(
        a.centers@[i],
        b.centers@[i],
        a.q@[i],
        b.q@[i],
        a.q_ceiling@[i],
        b.q_ceiling@[i],
    );
    if size == other {
        lemma_bin::<A>(
            t.bin_res,
            u.bin_res,
            size,
            lo,
            lo2,
            a.bin_lo@[i] as nat,
            b.bin_lo@[i] as nat,
        );
        let x = choose|x: nat| #[trigger]
            bin_of::<A>(t.bin_res, size, hi, x) && a.bin_hi@[i] == if x > a.bin_lo@[i] {
                x as int
            } else {
                a.bin_lo@[i] + 1
            };
        let y = choose|y: nat| #[trigger]
            bin_of::<A>(u.bin_res, size, hi2, y) && b.bin_hi@[i] == if y > b.bin_lo@[i] {
                y as int
            } else {
                b.bin_lo@[i] + 1
            };
        lemma_bin::<A>(t.bin_res, u.bin_res, size, hi, hi2, x, y);
    }
}

/// Where the bands lie and how sharp their filters are goes by the sample rate
/// alone: two window sizes share their centers, qualities and ceilings.
pub proof fn lemma_window_size_moves_no_band<A: Arith>(
    size: usize,
    other: usize,
    rate: Single,
    a: BandLayout,
    b: BandLayout,
)
    requires
        repeats::<A>(),
        layout_of::<A>(size, rate, a),
        layout_of::<A>(other, rate, b),
    ensures
        all_same(a.centers@, b.centers@),
        all_same(a.q@, b.q@),
        all_same(a.q_ceiling@, b.q_ceiling@),
{
    let t = lemma_layout_terms::<A>(size, rate, a);
    let u = lemma_layout_terms::<A>(other, rate, b);
    lemma_terms::<A>(size, other, rate, t, u);
    lemma_centers::<A>(size, other, rate, a, b);
    assert forall|i: int| 0 <= i < BANDS implies same(a.q@[i], b.q@[i]) && same(
        a.q_ceiling@[i],
        b.q_ceiling@[i],
    ) by {
        assert(band_of::<A>(t, size, a, i));
        assert(band_of::<A>(u, other, b, i));
        lemma_band_parts::<A>(t, u, size, other, a, b, i);
    }
}

/// There is just one layout for a window size and a sample rate.
pub proof fn lemma_layout_is_determined<A: Arith>(size: usize, rate: Single, a: BandLayout, b: BandLayout)
    requires
        repeats::<A>(),
        layout_of::<A>(size, rate, a),
        layout_of::<A>(size, rate, b),
    ensures
        layouts_same(a, b),
{
    lemma_window_size_moves_no_band::<A>(size, size, rate, a, b);
    let t = lemma_layout_terms::<A>(size, rate, a);
    let u = lemma_layout_terms::<A>(size, rate, b);
    lemma_terms::<A>(size, size, rate, t, u);
    assert forall|i: int| 0 <= i < BANDS implies a.bin_lo@[i] == b.bin_lo@[i] && a.bin_hi@[i]
        == b.bin_hi@[i] by {
        assert(band_of::<A>(t, size, a, i));
        assert(band_of::<A>(u, size, b, i));
        lemma_band_parts::<A>(t, u, size, size, a, b, i);
    }
    assert(a.bin_lo@ =~= b.bin_lo@);
    assert(a.bin_hi@ =~= b.bin_hi@);
}

/// Every band begins in the spectrum no later than where the one below it ends.
pub proof fn lemma_bands_leave_no_gap<A: Arith>(size: usize, rate: Single, layout: BandLayout, i: int)
    requires
        repeats::<A>(),
        layout_of::<A>(size, rate, layout),
        0 <= i < LAST_BAND,
    ensures
        layout.bin_lo@[i + 1] <= layout.bin_hi@[i],
{
    let t = lemma_layout_terms::<A>(size, rate, layout);
    assert(band_of::<A>(t, size, layout, i));
    assert(band_of::<A>(t, size, layout, i + 1));
    let (lo, hi) = lemma_band_edges::<A>(t, size, layout, i);
    let (lo2, hi2) = lemma_band_edges::<A>(t, size, layout, i + 1);
    assert(edge_of::<A>(layout.centers@[i], layout.centers@[i + 1], hi));
    assert(edge_of::<A>(layout.centers@[i], layout.centers@[i + 1], lo2));
    assert(same(hi, lo2));
    let b = choose|b: nat| #[trigger]
        bin_of::<A>(t.bin_res, size, hi, b) && layout.bin_hi@[i] == if b > layout.bin_lo@[i] {
            b as int
        } else {
            layout.bin_lo@[i] + 1
        };
    lemma_bin::<A>(t.bin_res, t.bin_res, size, hi, lo2, b, layout.bin_lo@[i + 1] as nat);
}

proof fn lemma_band_edges<A: Arith>(t: LayoutTerms, size: usize, layout: BandLayout, i: int) -> (edges: (
    Single,
    Single,
))
    requires
        band_of::<A>(t, size, layout, i),
    ensures
        low_edge_of::<A>(layout.centers@, i, edges.0),
        high_edge_of::<A>(t, layout.centers@, i, edges.1),
        band_between::<A>(
            t,
            size,
            layout.centers@[i],
            edges.0,
            edges.1,
            Band {
                bin_lo: layout.bin_lo@[i],
                bin_hi: layout.bin_hi@[i],
                q: layout.q@[i],
                q_ceiling: layout.q_ceiling@[i],
            },
        ),
{
    choose|lo: Single, hi: Single|
        {
            &&& #[trigger] low_edge_of::<A>(layout.centers@, i, lo)
            &&& #[trigger] high_edge_of::<A>(t, layout.centers@, i, hi)
            &&& band_between::<A>(
                t,
                size,
                layout.centers@[i],
                lo,
                hi,
                Band {
                    bin_lo: layout.bin_lo@[i],
                    bin_hi: layout.bin_hi@[i],
                    q: layout.q@[i],
                    q_ceiling: layout.q_ceiling@[i],
                },
            )
        }
}

// ----- Detector ---------------------------------------------------------------

proof fn lemma_inserted_same(s: Seq<Single>, t: Seq<Single>, a: Single, b: Single)
    requires
        all_same(s, t),
        same(a, b),
    ensures
        all_same(inserted(s, a), inserted(t, b)),
    decreases s.len(),
{
    if s.len() > 0 {
        assert(same(s[s.len() - 1], t[t.len() - 1]));
        if a.below(s.last()) {
            lemma_inserted_same(s.drop_last(), t.drop_last(), a, b);
        }
    }
}

proof fn lemma_ordered_same(s: Seq<Single>, t: Seq<Single>)
    requires
        all_same(s, t),
    ensures
        all_same(ordered(s), ordered(t)),
    decreases s.len(),
{
    if s.len() > 0 {
        assert(same(s[s.len() - 1], t[t.len() - 1]));
        lemma_ordered_same(s.drop_last(), t.drop_last());
        lemma_inserted_same(ordered(s.drop_last()), ordered(t.drop_last()), s.last(), t.last());
    }
}

proof fn lemma_median_same(s: Seq<Single>, t: Seq<Single>, i: int)
    requires
        all_same(s, t),
        s.len() == BANDS,
        0 <= i < BANDS,
    ensures
        same(median(window(s, i)), median(window(t, i))),
{
    let a = window(s, i);
    let b = window(t, i);
    assert(all_same(a, b));
    lemma_ordered_same(a, b);
    lemma_ordered_len(a);
    assert(a.len() > 0);
    let m = a.len() as int / 2;
    assert(same(ordered(a)[m], ordered(b)[m]));
}

pub(crate) proof fn lemma_weight<A: Arith>(dist: Single, other: Single, shape: usize, r: Single, q: Single)
    requires
        repeats::<A>(),
        same(dist, other),
        weight_of::<A>(dist, shape, r),
        weight_of::<A>(other, shape, q),
    ensures
        same(r, q),
{
}

proof fn lemma_sums<A: Arith>(
    log_a: Single,
    log_b: Single,
    freqs: Seq<Single>,
    depths: Seq<Single>,
    shapes: Seq<usize>,
    enabled: Seq<bool>,
    sums_a: Seq<Single>,
    totals_a: Seq<Single>,
    sums_b: Seq<Single>,
    totals_b: Seq<Single>,
    j: int,
)
    requires
        repeats::<A>(),
        same(log_a, log_b),
        node_sums::<A>(log_a, freqs, depths, shapes, enabled, sums_a, totals_a),
        node_sums::<A>(log_b, freqs, depths, shapes, enabled, sums_b, totals_b),
        0 <= j <= MAX_NODES,
    ensures
        same(sums_a[j], sums_b[j]),
        same(totals_a[j], totals_b[j]),
    decreases j,
{
    if j > 0 {
        let i = j - 1;
        lemma_sums::<A>(
            log_a,
            log_b,
            freqs,
            depths,
            shapes,
            enabled,
            sums_a,
            totals_a,
            sums_b,
            totals_b,
            i,
        );
        assert(slot_adds::<A>(log_a, freqs, depths, shapes, enabled, sums_a, totals_a, i));
        assert(slot_adds::<A>(log_b, freqs, depths, shapes, enabled, sums_b, totals_b, i));
        if enabled[i] {
            let (anchor, dist, w, share) = choose|anchor: Single, dist: Single, w: Single, share: Single|
                {
                    &&& #[trigger] log2_of::<A>(freqs[i], anchor)
                    &&& #[trigger] minus_of::<A>(log_a, anchor, dist)
                    &&& #[trigger] weight_of::<A>(dist, shapes[i], w)
                    &&& #[trigger] times_of::<A>(depths[i], w, share)
                    &&& plus_of::<A>(sums_a[i], share, sums_a[i + 1])
                    &&& plus_of::<A>(totals_a[i], w, totals_a[i + 1])
                };
            let (anchor2, dist2, w2, share2) = choose|anchor: Single, dist: Single, w: Single, share: Single|
                {
                    &&& #[trigger] log2_of::<A>(freqs[i], anchor)
                    &&& #[trigger] minus_of::<A>(log_b, anchor, dist)
                    &&& #[trigger] weight_of::<A>(dist, shapes[i], w)
                    &&& #[trigger] times_of::<A>(depths[i], w, share)
                    &&& plus_of::<A>(sums_b[i], share, sums_b[i + 1])
                    &&& plus_of::<A>(totals_b[i], w, totals_b[i + 1])
                };
            assert(same(dist, dist2));
            lemma_weight::<A>(dist, dist2, shapes[i], w, w2);
            assert(same(share, share2));
        }
    }
}

/// The nodes give every frequency just one depth.
pub proof fn lemma_node_shape_is_determined<A: Arith>(
    freq: Single,
    other: Single,
    freqs: Seq<Single>,
    depths: Seq<Single>,
    shapes: Seq<usize>,
    enabled: Seq<bool>,
    r: Single,
    q: Single,
)
    requires
        repeats::<A>(),
        same(freq, other),
        node_shape_of::<A>(freq, freqs, depths, shapes, enabled, r),
        node_shape_of::<A>(other, freqs, depths, shapes, enabled, q),
    ensures
        same(r, q),
{
    let n = MAX_NODES as int;
    let (log_a, sums_a, totals_a) = choose|log: Single, sums: Seq<Single>, totals: Seq<Single>|
        {
            &&& #[trigger] log2_of::<A>(freq.larger(Single(ONE)), log)
            &&& #[trigger] node_sums::<A>(log, freqs, depths, shapes, enabled, sums, totals)
            &&& blend_of::<A>(sums[n], totals[n], r)
        };
    let (log_b, sums_b, totals_b) = choose|log: Single, sums: Seq<Single>, totals: Seq<Single>|
        {
            &&& #[trigger] log2_of::<A>(other.larger(Single(ONE)), log)
            &&& #[trigger] node_sums::<A>(log, freqs, depths, shapes, enabled, sums, totals)
            &&& blend_of::<A>(sums[n], totals[n], q)
        };
    lemma_sums::<A>(log_a, log_b, freqs, depths, shapes, enabled, sums_a, totals_a, sums_b, totals_b, n);
    lemma_blend::<A>(sums_a[n], totals_a[n], sums_b[n], totals_b[n], r, q);
}

proof fn lemma_blend<A: Arith>(sum: Single, total: Single, sum2: Single, total2: Single, r: Single, q: Single)
    requires
        repeats::<A>(),
        same(sum, sum2),
        same(total, total2),
        blend_of::<A>(sum, total, r),
        blend_of::<A>(sum2, total2, q),
    ensures
        same(r, q),
{
}

proof fn lemma_knee<A: Arith>(
    excess: Single,
    k: Single,
    excess2: Single,
    k2: Single,
    knee: Single,
    r: Single,
    q: Single,
)
    requires
        repeats::<A>(),
        same(excess, excess2),
        same(k, k2),
        knee_of::<A>(excess, k, knee, r),
        knee_of::<A>(excess2, k2, knee, q),
    ensures
        same(r, q),
{
}

pub(crate) proof fn lemma_coef<A: Arith>(ms: Single, time: Single, ms2: Single, time2: Single, r: Single, q: Single)
    requires
        repeats::<A>(),
        same(ms, ms2),
        same(time, time2),
        coef_of::<A>(ms, time, r),
        coef_of::<A>(ms2, time2, q),
    ensures
        same(r, q),
{
}

proof fn lemma_follow<A: Arith>(
    from: Single,
    toward: Single,
    c: Single,
    from2: Single,
    toward2: Single,
    c2: Single,
    r: Single,
    q: Single,
)
    requires
        repeats::<A>(),
        same(from, from2),
        same(toward, toward2),
        same(c, c2),
        follow_of::<A>(from, toward, c, r),
        follow_of::<A>(from2, toward2, c2, q),
    ensures
        same(r, q),
{
}

pub(crate) proof fn lemma_glide<A: Arith>(
    from: Single,
    toward: Single,
    from2: Single,
    toward2: Single,
    base_ms: Single,
    other_ms: Single,
    scale: Single,
    scale2: Single,
    time: Single,
    time2: Single,
    r: Single,
    q: Single,
)
    requires
        repeats::<A>(),
        same(from, from2),
        same(toward, toward2),
        same(base_ms, other_ms),
        same(scale, scale2),
        same(time, time2),
        glide_of::<A>(from, toward, base_ms, scale, time, r),
        glide_of::<A>(from2, toward2, other_ms, scale2, time2, q),
    ensures
        same(r, q),
{
    let (ms, c) = choose|ms: Single, c: Single|
        {
            &&& #[trigger] times_of::<A>(base_ms, scale, ms)
            &&& #[trigger] coef_of::<A>(ms, time, c)
            &&& follow_of::<A>(from, toward, c, r)
        };
    let (ms2, c2) = choose|ms: Single, c: Single|
        {
            &&& #[trigger] times_of::<A>(other_ms, scale2, ms)
            &&& #[trigger] coef_of::<A>(ms, time2, c)
            &&& follow_of::<A>(from2, toward2, c, q)
        };
    lemma_coef::<A>(ms, time, ms2, time2, c, c2);
    lemma_follow::<A>(from, toward, c, from2, toward2, c2, r, q);
}

/// The same terms of a frame.
pub open spec fn frame_terms_same(a: FrameTerms, b: FrameTerms) -> bool {
    &&& same(a.frame_time, b.frame_time)
    &&& same(a.attack_ms, b.attack_ms)
    &&& same(a.release_ms, b.release_ms)
    &&& same(a.threshold, b.threshold)
    &&& a.knee == b.knee
}

proof fn lemma_frame_terms<A: Arith>(hop: Single, hop2: Single, rate: Single, p: DetectParams, a: FrameTerms, b: FrameTerms)
    requires
        repeats::<A>(),
        same(hop, hop2),
        frame_terms_of::<A>(hop, rate, p, a),
        frame_terms_of::<A>(hop2, rate, p, b),
    ensures
        frame_terms_same(a, b),
{
}

pub(crate) proof fn lemma_reduction<A: Arith>(
    t: FrameTerms,
    u: FrameTerms,
    sharpness: Single,
    level: Single,
    level2: Single,
    baseline: Single,
    baseline2: Single,
    depth: Single,
    depth2: Single,
    r: Single,
    q: Single,
)
    requires
        repeats::<A>(),
        same(t.threshold, u.threshold),
        t.knee == u.knee,
        same(level, level2),
        same(baseline, baseline2),
        same(depth, depth2),
        reduction_of::<A>(t, sharpness, level, baseline, depth, r),
        reduction_of::<A>(u, sharpness, level2, baseline2, depth2, q),
    ensures
        same(r, q),
{
    let (reference, excess, slope, k, raw) = choose|reference: Single, excess: Single, slope: Single, k: Single, raw: Single|
        {
            &&& #[trigger] plus_of::<A>(baseline, t.threshold, reference)
            &&& #[trigger] minus_of::<A>(level, reference, excess)
            &&& #[trigger] plus_of::<A>(Single(HALF), sharpness, slope)
            &&& #[trigger] times_of::<A>(depth, slope, k)
            &&& #[trigger] knee_of::<A>(excess, k, t.knee, raw)
            &&& r == raw.smaller(Single(THIRTY_SIX))
        };
    let (reference2, excess2, slope2, k2, raw2) = choose|reference: Single, excess: Single, slope: Single, k: Single, raw: Single|
        {
            &&& #[trigger] plus_of::<A>(baseline2, u.threshold, reference)
            &&& #[trigger] minus_of::<A>(level2, reference, excess)
            &&& #[trigger] plus_of::<A>(Single(HALF), sharpness, slope)
            &&& #[trigger] times_of::<A>(depth2, slope, k)
            &&& #[trigger] knee_of::<A>(excess, k, u.knee, raw)
            &&& q == raw.smaller(Single(THIRTY_SIX))
        };
    assert(same(reference, reference2));
    assert(same(slope, slope2));
    lemma_knee::<A>(excess, k, excess2, k2, t.knee, raw, raw2);
}

pub(crate) proof fn lemma_attenuation<A: Arith>(a: Single, b: Single, r: Single, q: Single)
    requires
        repeats::<A>(),
        same(a, b),
        attenuation_of::<A>(a, r),
        attenuation_of::<A>(b, q),
    ensures
        same(r, q),
{
    assert(same(a.opposite(), b.opposite()));
}

/// The same that a frame leaves behind in a band.
pub open spec fn steps_same(a: BandStep, b: BandStep) -> bool {
    &&& same(a.baseline, b.baseline)
    &&& same(a.effective_depth, b.effective_depth)
    &&& same(a.reduction_db, b.reduction_db)
    &&& same(a.target_gain, b.target_gain)
    &&& same(a.gain, b.gain)
}

/// The parts that a frame takes in one band.
pub(crate) proof fn lemma_step_parts<A: Arith>(
    t: FrameTerms,
    p: DetectParams,
    center: Single,
    level: Single,
    median: Single,
    baseline: Single,
    gain: Single,
    s: BandStep,
) -> (parts: (Single, Single))
    requires
        band_step_of::<A>(t, p, center, level, median, baseline, gain, s),
    ensures
        ballistics_scale_of::<A>(center, Single(BALLISTICS_ALPHA), parts.0),
        node_shape_of::<A>(
            center,
            p.node_freqs@,
            p.node_depths@,
            p.node_shapes@,
            p.node_enabled@,
            parts.1,
        ),
        band_step_with::<A>(t, p, parts.0, parts.1, level, median, baseline, gain, s),
{
    choose|scale: Single, region: Single|
        {
            &&& #[trigger] ballistics_scale_of::<A>(center, Single(BALLISTICS_ALPHA), scale)
            &&& #[trigger] node_shape_of::<A>(
                center,
                p.node_freqs@,
                p.node_depths@,
                p.node_shapes@,
                p.node_enabled@,
                region,
            )
            &&& band_step_with::<A>(t, p, scale, region, level, median, baseline, gain, s)
        }
}

pub(crate) proof fn lemma_scale<A: Arith>(center: Single, other: Single, r: Single, q: Single)
    requires
        repeats::<A>(),
        same(center, other),
        ballistics_scale_of::<A>(center, Single(BALLISTICS_ALPHA), r),
        ballistics_scale_of::<A>(other, Single(BALLISTICS_ALPHA), q),
    ensures
        same(r, q),
{
}

/// A band's own level has no part in its reference: under the same median, two
/// levels leave the same reference behind. A level enters through the median alone.
pub proof fn lemma_reference_ignores_own_level<A: Arith>(
    t: FrameTerms,
    u: FrameTerms,
    p: DetectParams,
    center: Single,
    center2: Single,
    levels: (Single, Single),
    median: Single,
    median2: Single,
    baseline: Single,
    baseline2: Single,
    gains: (Single, Single),
    a: BandStep,
    b: BandStep,
)
    requires
        repeats::<A>(),
        frame_terms_same(t, u),
        same(center, center2),
        same(median, median2),
        same(baseline, baseline2),
        band_step_of::<A>(t, p, center, levels.0, median, baseline, gains.0, a),
        band_step_of::<A>(u, p, center2, levels.1, median2, baseline2, gains.1, b),
    ensures
        same(a.baseline, b.baseline),
        same(a.effective_depth, b.effective_depth),
{
    let (scale, region) = lemma_step_parts::<A>(t, p, center, levels.0, median, baseline, gains.0, a);
    let (scale2, region2) = lemma_step_parts::<A>(u, p, center2, levels.1, median2, baseline2, gains.1, b);
    lemma_scale::<A>(center, center2, scale, scale2);
    lemma_node_shape_is_determined::<A>(
        center,
        center2,
        p.node_freqs@,
        p.node_depths@,
        p.node_shapes@,
        p.node_enabled@,
        region,
        region2,
    );
    let track = if baseline.below(median) {
        p.attack_ms
    } else {
        p.release_ms
    };
    lemma_glide::<A>(
        baseline,
        median,
        baseline2,
        median2,
        track,
        track,
        scale,
        scale2,
        t.frame_time,
        u.frame_time,
        a.baseline,
        b.baseline,
    );
}

proof fn lemma_band_step<A: Arith>(
    t: FrameTerms,
    u: FrameTerms,
    p: DetectParams,
    center: Single,
    center2: Single,
    level: Single,
    level2: Single,
    median: Single,
    median2: Single,
    baseline: Single,
    baseline2: Single,
    gain: Single,
    gain2: Single,
    a: BandStep,
    b: BandStep,
)
    requires
        repeats::<A>(),
        frame_terms_same(t, u),
        same(center, center2),
        same(level, level2),
        same(median, median2),
        same(baseline, baseline2),
        same(gain, gain2),
        band_step_of::<A>(t, p, center, level, median, baseline, gain, a),
        band_step_of::<A>(u, p, center2, level2, median2, baseline2, gain2, b),
    ensures
        steps_same(a, b),
{
    lemma_reference_ignores_own_level::<A>(
        t,
        u,
        p,
        center,
        center2,
        (level, level2),
        median,
        median2,
        baseline,
        baseline2,
        (gain, gain2),
        a,
        b,
    );
    let (scale, region) = lemma_step_parts::<A>(t, p, center, level, median, baseline, gain, a);
    let (scale2, region2) = lemma_step_parts::<A>(u, p, center2, level2, median2, baseline2, gain2, b);
    lemma_scale::<A>(center, center2, scale, scale2);
    lemma_reduction::<A>(
        t,
        u,
        p.sharpness,
        level,
        level2,
        a.baseline,
        b.baseline,
        a.effective_depth,
        b.effective_depth,
        a.reduction_db,
        b.reduction_db,
    );
    lemma_attenuation::<A>(a.reduction_db, b.reduction_db, a.target_gain, b.target_gain);
    let follow = if a.target_gain.below(gain) {
        t.attack_ms
    } else {
        t.release_ms
    };
    let follow2 = if b.target_gain.below(gain2) {
        u.attack_ms
    } else {
        u.release_ms
    };
    lemma_glide::<A>(
        gain,
        a.target_gain,
        gain2,
        b.target_gain,
        follow,
        follow2,
        scale,
        scale2,
        t.frame_time,
        u.frame_time,
        a.gain,
        b.gain,
    );
}

/// Two detectors that no frame tells apart.
pub open spec fn detectors_alike(a: Detector, b: Detector) -> bool {
    &&& a.rate() == b.rate()
    &&& same(a.hop(), b.hop())
    &&& all_same(a.baselines(), b.baselines())
    &&& all_same(a.gains(), b.gains())
    &&& all_same(a.effective_depths(), b.effective_depths())
    &&& all_same(a.reductions(), b.reductions())
    &&& all_same(a.target_gains(), b.target_gains())
}

/// A frame takes detectors that are alike to detectors that are alike.
pub proof fn lemma_detector_is_determined<A: Arith>(
    a: Detector,
    b: Detector,
    a2: Detector,
    b2: Detector,
    levels: Seq<Single>,
    levels2: Seq<Single>,
    p: DetectParams,
    centers: Seq<Single>,
    centers2: Seq<Single>,
)
    requires
        repeats::<A>(),
        detectors_alike(a, b),
        all_same(levels, levels2),
        levels.len() == BANDS,
        all_same(centers, centers2),
        centers.len() == BANDS,
        a2.steps_from::<A>(a, levels, p, centers),
        b2.steps_from::<A>(b, levels2, p, centers2),
    ensures
        detectors_alike(a2, b2),
{
    let t = choose|t: FrameTerms|
        {
            &&& #[trigger] frame_terms_of::<A>(a.hop(), a.rate(), p, t)
            &&& forall|i: int|
                0 <= i < BANDS ==> band_step_of::<A>(
                    t,
                    p,
                    centers[i],
                    levels[i],
                    median(window(levels, i)),
                    a.baselines()[i],
                    a.gains()[i],
                    #[trigger] a2.step_at(i),
                )
        };
    let u = choose|t: FrameTerms|
        {
            &&& #[trigger] frame_terms_of::<A>(b.hop(), b.rate(), p, t)
            &&& forall|i: int|
                0 <= i < BANDS ==> band_step_of::<A>(
                    t,
                    p,
                    centers2[i],
                    levels2[i],
                    median(window(levels2, i)),
                    b.baselines()[i],
                    b.gains()[i],
                    #[trigger] b2.step_at(i),
                )
        };
    lemma_frame_terms::<A>(a.hop(), b.hop(), a.rate(), p, t, u);
    lemma_detector_is_whole(a);
    lemma_detector_is_whole(a2);
    lemma_detector_is_whole(b2);
    assert forall|i: int| 0 <= i < BANDS implies steps_same(#[trigger] a2.step_at(i), b2.step_at(i)) by {
        lemma_median_same(levels, levels2, i);
        assert(same(centers[i], centers2[i]));
        assert(same(levels[i], levels2[i]));
        assert(same(a.baselines()[i], b.baselines()[i]));
        assert(same(a.gains()[i], b.gains()[i]));
        assert(band_step_of::<A>(
            u,
            p,
            centers2[i],
            levels2[i],
            median(window(levels2, i)),
            b.baselines()[i],
            b.gains()[i],
            b2.step_at(i),
        ));
        lemma_band_step::<A>(
            t,
            u,
            p,
            centers[i],
            centers2[i],
            levels[i],
            levels2[i],
            median(window(levels, i)),
            median(window(levels2, i)),
            a.baselines()[i],
            b.baselines()[i],
            a.gains()[i],
            b.gains()[i],
            a2.step_at(i),
            b2.step_at(i),
        );
    }
    assert forall|i: int| 0 <= i < BANDS implies same(#[trigger] a2.baselines()[i], b2.baselines()[i]) by {
        assert(steps_same(a2.step_at(i), b2.step_at(i)));
    }
    assert forall|i: int| 0 <= i < BANDS implies same(#[trigger] a2.gains()[i], b2.gains()[i]) by {
        assert(steps_same(a2.step_at(i), b2.step_at(i)));
    }
    assert forall|i: int| 0 <= i < BANDS implies same(
        #[trigger] a2.effective_depths()[i],
        b2.effective_depths()[i],
    ) by {
        assert(steps_same(a2.step_at(i), b2.step_at(i)));
    }
    assert forall|i: int| 0 <= i < BANDS implies same(#[trigger] a2.reductions()[i], b2.reductions()[i]) by {
        assert(steps_same(a2.step_at(i), b2.step_at(i)));
    }
    assert forall|i: int| 0 <= i < BANDS implies same(
        #[trigger] a2.target_gains()[i],
        b2.target_gains()[i],
    ) by {
        assert(steps_same(a2.step_at(i), b2.step_at(i)));
    }
}

// ----- Analysis ---------------------------------------------------------------

/// The same bins.
pub open spec fn bins_same(a: Seq<Bin>, b: Seq<Bin>) -> bool {
    &&& a.len() == b.len()
    &&& forall|i: int|
        #![trigger a[i]]
        #![trigger b[i]]
        0 <= i < a.len() ==> same(a[i].re, b[i].re) && same(a[i].im, b[i].im)
}

/// Any two transforms that `F` plans for one window size give a window of that size
/// the same spectrum, whatever their storage held.
pub open spec fn transforms_alike<F: Fourier>() -> bool {
    forall|size: usize, a: F, b: F, i: Vec<Single>, j: Vec<Single>, p: Vec<Bin>, q: Vec<Bin>, r: Vec<Bin>, s: Vec<Bin>|
        #[trigger] plan_of::<F>(size, a) && #[trigger] plan_of::<F>(size, b) && #[trigger] call_ensures(
            F::forward,
            (&a, &i, p),
            r,
        ) && #[trigger] call_ensures(F::forward, (&b, &j, q), s) && size > 0 && i@.len() == size && all_same(i@, j@)
            && p@.len() == bin_count(size as nat) && q@.len() == bin_count(size as nat) ==> bins_same(r@, s@)
}

proof fn lemma_magnitude<A: Arith>(c: Bin, d: Bin, r: Single, q: Single)
    requires
        repeats::<A>(),
        same(c.re, d.re),
        same(c.im, d.im),
        magnitude_of::<A>(c, r),
        magnitude_of::<A>(d, q),
    ensures
        same(r, q),
{
}

proof fn lemma_magnitudes<A: Arith>(
    bins: Seq<Bin>,
    other: Seq<Bin>,
    lo: int,
    mags_a: Seq<Single>,
    sums_a: Seq<Single>,
    mags_b: Seq<Single>,
    sums_b: Seq<Single>,
    k: int,
)
    requires
        repeats::<A>(),
        bins_same(bins, other),
        magnitudes_of::<A>(bins, lo, mags_a, sums_a),
        magnitudes_of::<A>(other, lo, mags_b, sums_b),
        mags_a.len() == mags_b.len(),
        0 <= lo,
        lo + mags_a.len() <= bins.len(),
        0 <= k <= mags_a.len(),
    ensures
        forall|i: int| 0 <= i < k ==> same(#[trigger] mags_a[i], mags_b[i]),
        same(sums_a[k], sums_b[k]),
    decreases k,
{
    if k > 0 {
        let j = k - 1;
        lemma_magnitudes::<A>(bins, other, lo, mags_a, sums_a, mags_b, sums_b, j);
        assert(magnitude_of::<A>(bins[lo + j], mags_a[j]));
        assert(magnitude_of::<A>(other[lo + j], mags_b[j]));
        lemma_magnitude::<A>(bins[lo + j], other[lo + j], mags_a[j], mags_b[j]);
    }
}

proof fn lemma_loudest(a: Seq<Single>, b: Seq<Single>)
    requires
        all_same(a, b),
    ensures
        same(loudest(a), loudest(b)),
    decreases a.len(),
{
    if a.len() > 0 {
        assert(same(a[a.len() - 1], b[b.len() - 1]));
        lemma_loudest(a.drop_last(), b.drop_last());
    }
}

proof fn lemma_described<A: Arith>(
    sum: Single,
    peak: Single,
    sum2: Single,
    peak2: Single,
    n: usize,
    level_a: Single,
    conc_a: Single,
    level_b: Single,
    conc_b: Single,
)
    requires
        repeats::<A>(),
        same(sum, sum2),
        same(peak, peak2),
        described_of::<A>(sum, peak, n, level_a, conc_a),
        described_of::<A>(sum2, peak2, n, level_b, conc_b),
    ensures
        same(level_a, level_b),
        same(conc_a, conc_b),
{
}

proof fn lemma_band_described<A: Arith>(
    bins: Seq<Bin>,
    other: Seq<Bin>,
    layout: BandLayout,
    layout2: BandLayout,
    b: int,
    level_a: Single,
    conc_a: Single,
    level_b: Single,
    conc_b: Single,
)
    requires
        repeats::<A>(),
        bins_same(bins, other),
        layouts_same(layout, layout2),
        0 <= b < BANDS,
        band_described_of::<A>(bins, layout, b, level_a, conc_a),
        band_described_of::<A>(other, layout2, b, level_b, conc_b),
    ensures
        same(level_a, level_b),
        same(conc_a, conc_b),
{
    let lo = layout.bin_lo@[b] as int;
    let hi = last_bin(layout.bin_hi@[b] as int, bins.len() as int);
    let n = (hi - lo + 1) as usize;
    let (mags_a, sums_a) = choose|mags: Seq<Single>, sums: Seq<Single>|
        {
            &&& #[trigger] magnitudes_of::<A>(bins, lo, mags, sums)
            &&& mags.len() == hi - lo + 1
            &&& described_of::<A>(sums.last(), loudest(mags), n, level_a, conc_a)
        };
    let (mags_b, sums_b) = choose|mags: Seq<Single>, sums: Seq<Single>|
        {
            &&& #[trigger] magnitudes_of::<A>(other, lo, mags, sums)
            &&& mags.len() == hi - lo + 1
            &&& described_of::<A>(sums.last(), loudest(mags), n, level_b, conc_b)
        };
    lemma_magnitudes::<A>(bins, other, lo, mags_a, sums_a, mags_b, sums_b, mags_a.len() as int);
    assert(all_same(mags_a, mags_b));
    lemma_loudest(mags_a, mags_b);
    lemma_described::<A>(
        sums_a.last(),
        loudest(mags_a),
        sums_b.last(),
        loudest(mags_b),
        n,
        level_a,
        conc_a,
        level_b,
        conc_b,
    );
}

/// The same frame.
pub open spec fn analyses_same(a: BandAnalysis, b: BandAnalysis) -> bool {
    all_same(a.levels@, b.levels@) && all_same(a.concentration@, b.concentration@)
}

/// A spectrum has just one description.
pub proof fn lemma_analysis_is_determined<A: Arith>(
    bins: Seq<Bin>,
    other: Seq<Bin>,
    layout: BandLayout,
    layout2: BandLayout,
    a: BandAnalysis,
    b: BandAnalysis,
)
    requires
        repeats::<A>(),
        bins_same(bins, other),
        layouts_same(layout, layout2),
        analysis_of::<A>(bins, layout, a),
        analysis_of::<A>(other, layout2, b),
    ensures
        analyses_same(a, b),
{
    assert forall|i: int| 0 <= i < BANDS implies same(a.levels@[i], b.levels@[i]) && same(
        a.concentration@[i],
        b.concentration@[i],
    ) by {
        lemma_band_described::<A>(
            bins,
            other,
            layout,
            layout2,
            i,
            a.levels@[i],
            a.concentration@[i],
            b.levels@[i],
            b.concentration@[i],
        );
    }
}

/// The engine has its buffers, and its transform was planned for its windows.
pub open spec fn equipped<F: Fourier>(e: AnalysisEngine<F>) -> bool {
    &&& 0 < e.size() <= usize::MAX
    &&& plan_of::<F>(e.size() as usize, e.transform())
    &&& e.weights().len() == e.size()
    &&& e.recent().len() == e.size()
    &&& e.bins().len() == bin_count(e.size())
}

/// Two engines of one setup.
pub open spec fn setups_alike<F: Fourier>(a: AnalysisEngine<F>, b: AnalysisEngine<F>) -> bool {
    &&& equipped(a)
    &&& equipped(b)
    &&& a.size() == b.size()
    &&& all_same(a.weights(), b.weights())
    &&& layouts_same(a.layout(), b.layout())
}

/// Two engines that no sample tells apart.
pub open spec fn engines_alike<F: Fourier>(a: AnalysisEngine<F>, b: AnalysisEngine<F>) -> bool {
    &&& setups_alike(a, b)
    &&& a.taken() == b.taken()
    &&& a.recent() == b.recent()
}

proof fn lemma_engine_stays_equipped<A: Arith, F: Fourier>(
    a: AnalysisEngine<F>,
    x: Single,
    a2: AnalysisEngine<F>,
    r: Option<BandAnalysis>,
)
    requires
        equipped(a),
        a2.takes::<A>(&a, x, r),
    ensures
        equipped(a2),
{
    if r is Some {
        let i = choose|i: Seq<Single>| #[trigger]
            windowed_of::<A>(a2.recent(), a2.weights(), i) && spectrum_of::<F>(
                a2.transform(),
                i,
                a.bins(),
                a2.bins(),
            );
        assert(i.len() == a2.size());
    }
}

/// A frame goes by the last window of samples and by nothing before it: engines of
/// one setup that hold the same window give the same frame where both give one,
/// whatever they have heard earlier.
pub proof fn lemma_frame_is_of_the_last_window<A: Arith, F: Fourier>(
    a: AnalysisEngine<F>,
    b: AnalysisEngine<F>,
    x: Single,
    y: Single,
    a2: AnalysisEngine<F>,
    b2: AnalysisEngine<F>,
    f: BandAnalysis,
    g: BandAnalysis,
)
    requires
        repeats::<A>(),
        transforms_alike::<F>(),
        setups_alike(a, b),
        a2.takes::<A>(&a, x, Some(f)),
        b2.takes::<A>(&b, y, Some(g)),
        a2.recent() == b2.recent(),
    ensures
        analyses_same(f, g),
{
    let i = choose|i: Seq<Single>| #[trigger]
        windowed_of::<A>(a2.recent(), a2.weights(), i) && spectrum_of::<F>(
            a2.transform(),
            i,
            a.bins(),
            a2.bins(),
        );
    let j = choose|j: Seq<Single>| #[trigger]
        windowed_of::<A>(b2.recent(), b2.weights(), j) && spectrum_of::<F>(
            b2.transform(),
            j,
            b.bins(),
            b2.bins(),
        );
    assert forall|k: int| 0 <= k < i.len() implies same(i[k], j[k]) by {
        assert(times_of::<A>(a2.recent()[k], a2.weights()[k], i[k]));
        assert(times_of::<A>(b2.recent()[k], b2.weights()[k], j[k]));
        assert(same(a2.weights()[k], b2.weights()[k]));
    }
    assert(all_same(i, j));
    lemma_spectrum::<F>(a.size() as usize, a2.transform(), b2.transform(), i, j, a.bins(), b.bins(), a2.bins(), b2.bins());
    lemma_analysis_is_determined::<A>(a2.bins(), b2.bins(), a2.layout(), b2.layout(), f, g);
}

/// What an engine holds after a whole window of samples is that window, whatever it
/// held before.
proof fn lemma_window_fills<A: Arith, F: Fourier>(
    engines: Seq<AnalysisEngine<F>>,
    samples: Seq<Single>,
    results: Seq<Option<BandAnalysis>>,
    k: int,
)
    requires
        fed::<A, F>(engines, samples, results),
        engines[0].recent().len() == samples.len(),
        0 <= k <= samples.len(),
    ensures
        engines[k].recent() == engines[0].recent().skip(k) + samples.take(k),
    decreases k,
{
    if k > 0 {
        lemma_window_fills::<A, F>(engines, samples, results, k - 1);
        assert(engines[k - 1 + 1].takes::<A>(&engines[k - 1], samples[k - 1], results[k - 1]));
        assert(engines[k].recent() =~= engines[0].recent().skip(k) + samples.take(k));
    } else {
        assert(engines[0].recent() =~= engines[0].recent().skip(0) + samples.take(0));
    }
}

/// Samples take an engine from each of `engines` to the next, with these results.
pub open spec fn fed<A: Arith, F: Fourier>(
    engines: Seq<AnalysisEngine<F>>,
    samples: Seq<Single>,
    results: Seq<Option<BandAnalysis>>,
) -> bool {
    &&& engines.len() == samples.len() + 1
    &&& results.len() == samples.len()
    &&& forall|k: int|
        0 <= k < samples.len() ==> (#[trigger] engines[k + 1]).takes::<A>(
            &engines[k],
            samples[k],
            results[k],
        )
}

proof fn lemma_feeding_keeps_setup<A: Arith, F: Fourier>(
    engines: Seq<AnalysisEngine<F>>,
    samples: Seq<Single>,
    results: Seq<Option<BandAnalysis>>,
    k: int,
)
    requires
        fed::<A, F>(engines, samples, results),
        equipped(engines[0]),
        0 <= k <= samples.len(),
    ensures
        equipped(engines[k]),
        engines[k].same_setup(&engines[0]),
    decreases k,
{
    if k > 0 {
        lemma_feeding_keeps_setup::<A, F>(engines, samples, results, k - 1);
        assert(engines[k - 1 + 1].takes::<A>(&engines[k - 1], samples[k - 1], results[k - 1]));
        lemma_engine_stays_equipped::<A, F>(engines[k - 1], samples[k - 1], engines[k], results[k - 1]);
    }
}

/// Two engines of one setup that are fed one window of samples, whatever they heard
/// before, give the same frame at its end where both give one.
pub proof fn lemma_history_leaves_no_trace<A: Arith, F: Fourier>(
    engines: Seq<AnalysisEngine<F>>,
    others: Seq<AnalysisEngine<F>>,
    samples: Seq<Single>,
    results: Seq<Option<BandAnalysis>>,
    other_results: Seq<Option<BandAnalysis>>,
)
    requires
        repeats::<A>(),
        transforms_alike::<F>(),
        setups_alike(engines[0], others[0]),
        engines[0].size() == samples.len(),
        fed::<A, F>(engines, samples, results),
        fed::<A, F>(others, samples, other_results),
        results.last() is Some,
        other_results.last() is Some,
    ensures
        analyses_same(results.last()->0, other_results.last()->0),
{
    let n = samples.len() as int;
    lemma_window_fills::<A, F>(engines, samples, results, n);
    lemma_window_fills::<A, F>(others, samples, other_results, n);
    assert(engines[n].recent() =~= samples);
    assert(others[n].recent() =~= samples);
    lemma_feeding_keeps_setup::<A, F>(engines, samples, results, n - 1);
    lemma_feeding_keeps_setup::<A, F>(others, samples, other_results, n - 1);
    assert(engines[n - 1 + 1].takes::<A>(&engines[n - 1], samples[n - 1], results[n - 1]));
    assert(others[n - 1 + 1].takes::<A>(&others[n - 1], samples[n - 1], other_results[n - 1]));
    lemma_frame_is_of_the_last_window::<A, F>(
        engines[n - 1],
        others[n - 1],
        samples[n - 1],
        samples[n - 1],
        engines[n],
        others[n],
        results[n - 1]->0,
        other_results[n - 1]->0,
    );
}

/// A sample takes engines that are alike to engines that are alike, with the same
/// result.
pub proof fn lemma_engine_is_determined<A: Arith, F: Fourier>(
    a: AnalysisEngine<F>,
    b: AnalysisEngine<F>,
    x: Single,
    a2: AnalysisEngine<F>,
    b2: AnalysisEngine<F>,
    r: Option<BandAnalysis>,
    q: Option<BandAnalysis>,
)
    requires
        repeats::<A>(),
        transforms_alike::<F>(),
        engines_alike(a, b),
        a2.takes::<A>(&a, x, r),
        b2.takes::<A>(&b, x, q),
    ensures
        engines_alike(a2, b2),
        r is Some <==> q is Some,
        r is Some ==> analyses_same(r->0, q->0),
{
    lemma_engine_stays_equipped::<A, F>(a, x, a2, r);
    lemma_engine_stays_equipped::<A, F>(b, x, b2, q);
    if r is Some {
        lemma_frame_is_of_the_last_window::<A, F>(a, b, x, x, a2, b2, r->0, q->0);
    }
}

proof fn lemma_spectrum<F: Fourier>(
    size: usize,
    plan: F,
    plan2: F,
    input: Seq<Single>,
    input2: Seq<Single>,
    prior: Seq<Bin>,
    other: Seq<Bin>,
    r: Seq<Bin>,
    q: Seq<Bin>,
)
    requires
        transforms_alike::<F>(),
        plan_of::<F>(size, plan),
        plan_of::<F>(size, plan2),
        size > 0,
        input.len() == size,
        all_same(input, input2),
        prior.len() == bin_count(size as nat),
        other.len() == bin_count(size as nat),
        spectrum_of::<F>(plan, input, prior, r),
        spectrum_of::<F>(plan2, input2, other, q),
    ensures
        bins_same(r, q),
{
    let (i, p, t) = choose|i: Vec<Single>, p: Vec<Bin>, t: Vec<Bin>|
        {
            &&& #[trigger] call_ensures(F::forward, (&plan, &i, p), t)
            &&& i@ == input
            &&& p@ == prior
            &&& r == if t@.len() == bin_count(input.len()) {
                t@
            } else {
                silent_bins(bin_count(input.len()))
            }
        };
    let (j, s, u) = choose|i: Vec<Single>, p: Vec<Bin>, t: Vec<Bin>|
        {
            &&& #[trigger] call_ensures(F::forward, (&plan2, &i, p), t)
            &&& i@ == input2
            &&& p@ == other
            &&& q == if t@.len() == bin_count(input2.len()) {
                t@
            } else {
                silent_bins(bin_count(input2.len()))
            }
        };
    assert(bins_same(t@, u@));
}

// ----- Filters ----------------------------------------------------------------

/// The same coefficients.
pub open spec fn coeffs_same(c: Coeffs, d: Coeffs) -> bool {
    &&& same(c.b0, d.b0)
    &&& same(c.b1, d.b1)
    &&& same(c.b2, d.b2)
    &&& same(c.a1, d.a1)
    &&& same(c.a2, d.a2)
}

/// The same filter.
pub open spec fn filters_same(f: Biquad, g: Biquad) -> bool {
    &&& coeffs_same(f.coeffs, g.coeffs)
    &&& same(f.x1, g.x1)
    &&& same(f.x2, g.x2)
    &&& same(f.y1, g.y1)
    &&& same(f.y2, g.y2)
}

/// The same filters in all bands.
pub open spec fn all_filters_same(a: Seq<Biquad>, b: Seq<Biquad>) -> bool {
    &&& a.len() == b.len()
    &&& forall|i: int|
        #![trigger a[i]]
        #![trigger b[i]]
        0 <= i < a.len() ==> filters_same(a[i], b[i])
}

/// The same coefficients in all bands.
pub open spec fn all_coeffs_same(a: Seq<Coeffs>, b: Seq<Coeffs>) -> bool {
    &&& a.len() == b.len()
    &&& forall|i: int|
        #![trigger a[i]]
        #![trigger b[i]]
        0 <= i < a.len() ==> coeffs_same(a[i], b[i])
}

/// Two cascades that no sample tells apart.
pub open spec fn cascades_same(a: CascadeState, b: CascadeState) -> bool {
    &&& all_filters_same(a.filters, b.filters)
    &&& layouts_same(a.layout, b.layout)
    &&& a.base_rate == b.base_rate
    &&& a.oversampled == b.oversampled
    &&& same(a.prev_input, b.prev_input)
    &&& all_same(a.gains, b.gains)
    &&& all_same(a.concentration, b.concentration)
    &&& all_same(a.gain_db, b.gain_db)
    &&& all_same(a.effective_q, b.effective_q)
    &&& all_coeffs_same(a.ramp_from, b.ramp_from)
    &&& all_coeffs_same(a.ramp_to, b.ramp_to)
    &&& a.ramp_pos == b.ramp_pos
}

/// The cascade has a filter for every band.
pub open spec fn manned(s: CascadeState) -> bool {
    &&& s.filters.len() == BANDS
    &&& s.ramp_from.len() == BANDS
    &&& s.ramp_to.len() == BANDS
    &&& s.gains.len() == BANDS
    &&& s.concentration.len() == BANDS
}

proof fn lemma_peak_shape<A: Arith>(
    a: Single,
    cw: Single,
    alpha: Single,
    a2: Single,
    cw2: Single,
    alpha2: Single,
    c: Coeffs,
    d: Coeffs,
)
    requires
        repeats::<A>(),
        same(a, a2),
        same(cw, cw2),
        same(alpha, alpha2),
        peak_shape_of::<A>(a, cw, alpha, c),
        peak_shape_of::<A>(a2, cw2, alpha2, d),
    ensures
        coeffs_same(c, d),
{
}

proof fn lemma_peak<A: Arith>(
    f0: Single,
    q: Single,
    gain_db: Single,
    fs: Single,
    g0: Single,
    p: Single,
    other_db: Single,
    gs: Single,
    c: Coeffs,
    d: Coeffs,
)
    requires
        repeats::<A>(),
        same(f0, g0),
        same(q, p),
        same(gain_db, other_db),
        same(fs, gs),
        peak_of::<A>(f0, q, gain_db, fs, c),
        peak_of::<A>(g0, p, other_db, gs, d),
    ensures
        coeffs_same(c, d),
{
    let (e, a, turn, w0, cw, sw, width, alpha) = choose|e: Single, a: Single, turn: Single, w0: Single, cw: Single, sw: Single, width: Single, alpha: Single|
        {
            &&& #[trigger] over_of::<A>(gain_db, Single(FORTY), e)
            &&& #[trigger] pow_of::<A>(Single(TEN), e, a)
            &&& #[trigger] times_of::<A>(Single(TWO_PI), f0, turn)
            &&& #[trigger] over_of::<A>(turn, fs, w0)
            &&& #[trigger] cos_of::<A>(w0, cw)
            &&& #[trigger] sin_of::<A>(w0, sw)
            &&& #[trigger] times_of::<A>(Single(TWO), q.larger(Single(ONE_THOUSANDTH)), width)
            &&& #[trigger] over_of::<A>(sw, width, alpha)
            &&& peak_shape_of::<A>(a, cw, alpha, c)
        };
    let (e2, a2, turn2, w2, cw2, sw2, width2, alpha2) = choose|e: Single, a: Single, turn: Single, w0: Single, cw: Single, sw: Single, width: Single, alpha: Single|
        {
            &&& #[trigger] over_of::<A>(other_db, Single(FORTY), e)
            &&& #[trigger] pow_of::<A>(Single(TEN), e, a)
            &&& #[trigger] times_of::<A>(Single(TWO_PI), g0, turn)
            &&& #[trigger] over_of::<A>(turn, gs, w0)
            &&& #[trigger] cos_of::<A>(w0, cw)
            &&& #[trigger] sin_of::<A>(w0, sw)
            &&& #[trigger] times_of::<A>(Single(TWO), p.larger(Single(ONE_THOUSANDTH)), width)
            &&& #[trigger] over_of::<A>(sw, width, alpha)
            &&& peak_shape_of::<A>(a, cw, alpha, d)
        };
    assert(same(e, e2));
    assert(same(w0, w2));
    assert(same(width, width2));
    lemma_peak_shape::<A>(a, cw, alpha, a2, cw2, alpha2, c, d);
}

/// The same target of a filter.
spec fn targets_same(f: FilterTarget, g: FilterTarget) -> bool {
    &&& same(f.gain_db, g.gain_db)
    &&& same(f.effective_q, g.effective_q)
    &&& coeffs_same(f.coeffs, g.coeffs)
}

proof fn lemma_filter_target<A: Arith>(
    center: (Single, Single),
    q: (Single, Single),
    q_ceiling: (Single, Single),
    gain: (Single, Single),
    concentration: (Single, Single),
    fs: (Single, Single),
    f: FilterTarget,
    g: FilterTarget,
)
    requires
        repeats::<A>(),
        same(center.0, center.1),
        same(q.0, q.1),
        same(q_ceiling.0, q_ceiling.1),
        same(gain.0, gain.1),
        same(concentration.0, concentration.1),
        same(fs.0, fs.1),
        filter_target_of::<A>(center.0, q.0, q_ceiling.0, gain.0, concentration.0, fs.0, f),
        filter_target_of::<A>(center.1, q.1, q_ceiling.1, gain.1, concentration.1, fs.1, g),
    ensures
        targets_same(f, g),
{
    if !Single(UNITY_FLOOR).at_most(gain.0) {
        assert(same(f.gain_db, g.gain_db));
        assert(same(f.effective_q, g.effective_q));
        lemma_peak::<A>(
            center.0,
            f.effective_q,
            f.gain_db,
            fs.0,
            center.1,
            g.effective_q,
            g.gain_db,
            fs.1,
            f.coeffs,
            g.coeffs,
        );
    }
}

proof fn lemma_mix<A: Arith>(from: Coeffs, to: Coeffs, t: Single, from2: Coeffs, to2: Coeffs, u: Single, r: Coeffs, q: Coeffs)
    requires
        repeats::<A>(),
        coeffs_same(from, from2),
        coeffs_same(to, to2),
        same(t, u),
        mix_of::<A>(from, to, t, r),
        mix_of::<A>(from2, to2, u, q),
    ensures
        coeffs_same(r, q),
{
    lemma_follow::<A>(from.b0, to.b0, t, from2.b0, to2.b0, u, r.b0, q.b0);
    lemma_follow::<A>(from.b1, to.b1, t, from2.b1, to2.b1, u, r.b1, q.b1);
    lemma_follow::<A>(from.b2, to.b2, t, from2.b2, to2.b2, u, r.b2, q.b2);
    lemma_follow::<A>(from.a1, to.a1, t, from2.a1, to2.a1, u, r.a1, q.a1);
    lemma_follow::<A>(from.a2, to.a2, t, from2.a2, to2.a2, u, r.a2, q.a2);
}

proof fn lemma_ramped<A: Arith>(s: CascadeState, t: CascadeState, pos: usize, a: Seq<Biquad>, b: Seq<Biquad>)
    requires
        repeats::<A>(),
        manned(s),
        all_filters_same(s.filters, t.filters),
        all_coeffs_same(s.ramp_from, t.ramp_from),
        all_coeffs_same(s.ramp_to, t.ramp_to),
        ramped_of::<A>(s, pos, a),
        ramped_of::<A>(t, pos, b),
    ensures
        all_filters_same(a, b),
        a.len() == BANDS,
{
    let share = choose|share: Single|
        {
            &&& #[trigger] ramp_share_of::<A>(pos, share)
            &&& forall|i: int|
                0 <= i < BANDS ==> ramped_filter_of::<A>(
                    s.filters[i],
                    s.ramp_from[i],
                    s.ramp_to[i],
                    share,
                    #[trigger] a[i],
                )
        };
    let other = choose|share: Single|
        {
            &&& #[trigger] ramp_share_of::<A>(pos, share)
            &&& forall|i: int|
                0 <= i < BANDS ==> ramped_filter_of::<A>(
                    t.filters[i],
                    t.ramp_from[i],
                    t.ramp_to[i],
                    share,
                    #[trigger] b[i],
                )
        };
    assert(same(share, other));
    assert forall|i: int| 0 <= i < BANDS implies filters_same(a[i], b[i]) by {
        assert(ramped_filter_of::<A>(s.filters[i], s.ramp_from[i], s.ramp_to[i], share, a[i]));
        assert(ramped_filter_of::<A>(t.filters[i], t.ramp_from[i], t.ramp_to[i], other, b[i]));
        assert(filters_same(s.filters[i], t.filters[i]));
        assert(coeffs_same(s.ramp_from[i], t.ramp_from[i]));
        assert(coeffs_same(s.ramp_to[i], t.ramp_to[i]));
        lemma_mix::<A>(
            s.ramp_from[i],
            s.ramp_to[i],
            share,
            t.ramp_from[i],
            t.ramp_to[i],
            other,
            a[i].coeffs,
            b[i].coeffs,
        );
    }
}

/// Setting gains leaves a cascade in just one state.
pub proof fn lemma_gains_set_is_determined<A: Arith>(
    s: CascadeState,
    t: CascadeState,
    gains: Seq<Single>,
    concentration: Seq<Single>,
    gains2: Seq<Single>,
    concentration2: Seq<Single>,
    a: CascadeState,
    b: CascadeState,
)
    requires
        repeats::<A>(),
        manned(s),
        cascades_same(s, t),
        gains.len() == BANDS,
        concentration.len() == BANDS,
        all_same(gains, gains2),
        all_same(concentration, concentration2),
        gains_set_of::<A>(s, gains, concentration, a),
        gains_set_of::<A>(t, gains2, concentration2, b),
    ensures
        cascades_same(a, b),
        manned(a),
{
    if s.ramp_pos < GAIN_RAMP_SAMPLES {
        lemma_ramped::<A>(s, t, s.ramp_pos, a.filters, b.filters);
    }
    assert(all_filters_same(a.filters, b.filters));
    assert(a.filters.len() == BANDS);
    let fs = choose|fs: Single|
        {
            &&& #[trigger] synth_rate_of::<A>(s, fs)
            &&& forall|i: int|
                0 <= i < BANDS ==> filter_target_of::<A>(
                    s.layout.centers@[i],
                    s.layout.q@[i],
                    s.layout.q_ceiling@[i],
                    gains[i],
                    concentration[i],
                    fs,
                    #[trigger] a.target_at(i),
                )
        };
    let gs = choose|fs: Single|
        {
            &&& #[trigger] synth_rate_of::<A>(t, fs)
            &&& forall|i: int|
                0 <= i < BANDS ==> filter_target_of::<A>(
                    t.layout.centers@[i],
                    t.layout.q@[i],
                    t.layout.q_ceiling@[i],
                    gains2[i],
                    concentration2[i],
                    fs,
                    #[trigger] b.target_at(i),
                )
        };
    assert(same(fs, gs));
    assert forall|i: int| 0 <= i < BANDS implies targets_same(#[trigger] a.target_at(i), b.target_at(i)) by {
        assert(same(s.layout.centers@[i], t.layout.centers@[i]));
        assert(same(s.layout.q@[i], t.layout.q@[i]));
        assert(same(s.layout.q_ceiling@[i], t.layout.q_ceiling@[i]));
        assert(same(gains[i], gains2[i]));
        assert(same(concentration[i], concentration2[i]));
        assert(filter_target_of::<A>(
            t.layout.centers@[i],
            t.layout.q@[i],
            t.layout.q_ceiling@[i],
            gains2[i],
            concentration2[i],
            gs,
            b.target_at(i),
        ));
        lemma_filter_target::<A>(
            (s.layout.centers@[i], t.layout.centers@[i]),
            (s.layout.q@[i], t.layout.q@[i]),
            (s.layout.q_ceiling@[i], t.layout.q_ceiling@[i]),
            (gains[i], gains2[i]),
            (concentration[i], concentration2[i]),
            (fs, gs),
            a.target_at(i),
            b.target_at(i),
        );
    }
    assert forall|i: int| 0 <= i < BANDS implies same(#[trigger] a.gain_db[i], b.gain_db[i]) by {
        assert(targets_same(a.target_at(i), b.target_at(i)));
    }
    assert forall|i: int| 0 <= i < BANDS implies same(#[trigger] a.effective_q[i], b.effective_q[i]) by {
        assert(targets_same(a.target_at(i), b.target_at(i)));
    }
    assert forall|i: int| 0 <= i < BANDS implies coeffs_same(#[trigger] a.ramp_to[i], b.ramp_to[i]) by {
        assert(targets_same(a.target_at(i), b.target_at(i)));
    }
    assert forall|i: int| 0 <= i < BANDS implies coeffs_same(#[trigger] a.ramp_from[i], b.ramp_from[i]) by {
        assert(filters_same(a.filters[i], b.filters[i]));
    }
}

pub(crate) proof fn lemma_oversampling_set<A: Arith>(s: CascadeState, t: CascadeState, on: bool, a: CascadeState, b: CascadeState)
    requires
        repeats::<A>(),
        manned(s),
        cascades_same(s, t),
        oversampling_set_of::<A>(s, on, a),
        oversampling_set_of::<A>(t, on, b),
    ensures
        cascades_same(a, b),
        manned(a),
{
    if on != s.oversampled {
        let s2 = CascadeState { oversampled: on, ..s };
        let t2 = CascadeState { oversampled: on, ..t };
        assert(cascades_same(s2, t2));
        lemma_gains_set_is_determined::<A>(
            s2,
            t2,
            s.gains,
            s.concentration,
            t.gains,
            t.concentration,
            a,
            b,
        );
    }
}

proof fn lemma_filter_step<A: Arith>(
    f: Biquad,
    x: Single,
    g: Biquad,
    w: Single,
    a: Biquad,
    y: Single,
    b: Biquad,
    z: Single,
)
    requires
        repeats::<A>(),
        filters_same(f, g),
        same(x, w),
        filter_step_of::<A>(f, x, a, y),
        filter_step_of::<A>(g, w, b, z),
    ensures
        filters_same(a, b),
        same(y, z),
{
    let raw = choose|raw: Single| #[trigger] filtered_of::<A>(f, x, raw) && flush_of::<A>(raw, y);
    let raw2 = choose|raw: Single| #[trigger] filtered_of::<A>(g, w, raw) && flush_of::<A>(raw, z);
    lemma_filtered::<A>(f, x, g, w, raw, raw2);
    assert(same(y, z));
}

proof fn lemma_filtered<A: Arith>(f: Biquad, x: Single, g: Biquad, w: Single, r: Single, q: Single)
    requires
        repeats::<A>(),
        filters_same(f, g),
        same(x, w),
        filtered_of::<A>(f, x, r),
        filtered_of::<A>(g, w, q),
    ensures
        same(r, q),
{
}

proof fn lemma_cascade_steps<A: Arith>(
    before: Seq<Biquad>,
    before2: Seq<Biquad>,
    a: Seq<Biquad>,
    ys: Seq<Single>,
    b: Seq<Biquad>,
    zs: Seq<Single>,
    k: int,
)
    requires
        repeats::<A>(),
        before.len() == BANDS,
        all_filters_same(before, before2),
        cascade_steps::<A>(before, a, ys, BANDS as int),
        cascade_steps::<A>(before2, b, zs, BANDS as int),
        same(ys[0], zs[0]),
        0 <= k <= BANDS,
    ensures
        same(ys[k], zs[k]),
        forall|i: int| 0 <= i < k ==> filters_same(#[trigger] a[i], b[i]),
    decreases k,
{
    if k > 0 {
        let j = k - 1;
        lemma_cascade_steps::<A>(before, before2, a, ys, b, zs, j);
        assert(filter_step_of::<A>(before[j], ys[j], a[j], ys[j + 1]));
        assert(filter_step_of::<A>(before2[j], zs[j], b[j], zs[j + 1]));
        lemma_filter_step::<A>(before[j], ys[j], before2[j], zs[j], a[j], ys[k], b[j], zs[k]);
    }
}

proof fn lemma_cascade<A: Arith>(
    before: Seq<Biquad>,
    x: Single,
    before2: Seq<Biquad>,
    w: Single,
    a: Seq<Biquad>,
    y: Single,
    b: Seq<Biquad>,
    z: Single,
)
    requires
        repeats::<A>(),
        before.len() == BANDS,
        all_filters_same(before, before2),
        same(x, w),
        cascade_of::<A>(before, x, a, y),
        cascade_of::<A>(before2, w, b, z),
    ensures
        all_filters_same(a, b),
        a.len() == BANDS,
        same(y, z),
{
    let n = BANDS as int;
    let ys = choose|ys: Seq<Single>| #[trigger]
        ys.len() == BANDS + 1 && ys[0] == x && ys[n] == y && cascade_steps::<A>(before, a, ys, n);
    let zs = choose|zs: Seq<Single>| #[trigger]
        zs.len() == BANDS + 1 && zs[0] == w && zs[n] == z && cascade_steps::<A>(before2, b, zs, n);
    lemma_cascade_steps::<A>(before, before2, a, ys, b, zs, n);
    assert forall|i: int| 0 <= i < BANDS implies filters_same(a[i], b[i]) by {
    }
}

proof fn lemma_ramp_step<A: Arith>(s: CascadeState, t: CascadeState, a: CascadeState, b: CascadeState)
    requires
        repeats::<A>(),
        manned(s),
        cascades_same(s, t),
        ramp_step_of::<A>(s, a),
        ramp_step_of::<A>(t, b),
    ensures
        cascades_same(a, b),
        manned(a),
{
    if s.ramp_pos < GAIN_RAMP_SAMPLES {
        lemma_ramped::<A>(s, t, (s.ramp_pos + 1) as usize, a.filters, b.filters);
    }
}

/// A sample takes a cascade to just one state, with just one result.
pub proof fn lemma_sample_is_determined<A: Arith>(
    s: CascadeState,
    t: CascadeState,
    x: Single,
    a: CascadeState,
    y: Single,
    b: CascadeState,
    z: Single,
)
    requires
        repeats::<A>(),
        manned(s),
        cascades_same(s, t),
        sample_of::<A>(s, x, a, y),
        sample_of::<A>(t, x, b, z),
    ensures
        cascades_same(a, b),
        manned(a),
        same(y, z),
{
    let m = choose|mid: CascadeState|
        {
            &&& #[trigger] ramp_step_of::<A>(s, mid)
            &&& cascade_of::<A>(mid.filters, x, a.filters, y)
            &&& a == (CascadeState { filters: a.filters, ..mid })
        };
    let n = choose|mid: CascadeState|
        {
            &&& #[trigger] ramp_step_of::<A>(t, mid)
            &&& cascade_of::<A>(mid.filters, x, b.filters, z)
            &&& b == (CascadeState { filters: b.filters, ..mid })
        };
    lemma_ramp_step::<A>(s, t, m, n);
    lemma_cascade::<A>(m.filters, x, n.filters, x, a.filters, y, b.filters, z);
}

/// The same holds at twice the rate.
pub proof fn lemma_double_sample_is_determined<A: Arith>(
    s: CascadeState,
    t: CascadeState,
    x: Single,
    a: CascadeState,
    y: Single,
    b: CascadeState,
    z: Single,
)
    requires
        repeats::<A>(),
        manned(s),
        cascades_same(s, t),
        double_sample_of::<A>(s, x, a, y),
        double_sample_of::<A>(t, x, b, z),
    ensures
        cascades_same(a, b),
        manned(a),
        same(y, z),
{
    let (m, between, both, half, y0, y1, sum) = choose|mid: CascadeState, between: Seq<Biquad>, both: Single, half: Single, y0: Single, y1: Single, sum: Single|
        {
            &&& #[trigger] ramp_step_of::<A>(s, mid)
            &&& #[trigger] plus_of::<A>(s.prev_input, x, both)
            &&& #[trigger] times_of::<A>(Single(HALF), both, half)
            &&& #[trigger] cascade_of::<A>(mid.filters, half, between, y0)
            &&& #[trigger] cascade_of::<A>(between, x, a.filters, y1)
            &&& #[trigger] plus_of::<A>(y0, y1, sum)
            &&& times_of::<A>(Single(HALF), sum, y)
            &&& a == (CascadeState { filters: a.filters, prev_input: x, ..mid })
        };
    let (n, between2, both2, half2, z0, z1, sum2) = choose|mid: CascadeState, between: Seq<Biquad>, both: Single, half: Single, y0: Single, y1: Single, sum: Single|
        {
            &&& #[trigger] ramp_step_of::<A>(t, mid)
            &&& #[trigger] plus_of::<A>(t.prev_input, x, both)
            &&& #[trigger] times_of::<A>(Single(HALF), both, half)
            &&& #[trigger] cascade_of::<A>(mid.filters, half, between, y0)
            &&& #[trigger] cascade_of::<A>(between, x, b.filters, y1)
            &&& #[trigger] plus_of::<A>(y0, y1, sum)
            &&& times_of::<A>(Single(HALF), sum, z)
            &&& b == (CascadeState { filters: b.filters, prev_input: x, ..mid })
        };
    lemma_ramp_step::<A>(s, t, m, n);
    assert(same(both, both2));
    assert(same(half, half2));
    lemma_cascade::<A>(m.filters, half, n.filters, half2, between, y0, between2, z0);
    lemma_cascade::<A>(between, x, between2, x, a.filters, y1, b.filters, z1);
    assert(same(sum, sum2));
}

} // verus!
