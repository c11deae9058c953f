//! Per-band resonance detection.
//!
//! In every frame the level of a band is compared with the median of its
//! neighbourhood at the same instant, so a narrow peak stands out however long
//! it lasts. The reference follows that median over time, never the level of
//! the band itself: a sustained resonance is not learned as normal.

use vstd::prelude::*;
use crate::arith::{
    count_of, exp_of, log2_of, minus_of, over_of, plus_of, pow_of, square_of, times_of, Arith,
};
use crate::dsp::{BANDS, MAX_NODES, NODE_DEFAULT_FREQS};
use crate::numbers::{
    FIVE, HALF, HUNDRED, MINUS_HALF, MINUS_ONE, ONE, ONE_MILLIONTH, TEN, TENTH, THIRTY_SIX, THOUSAND, TWELVE,
    TWENTY, TWO, ZERO,
};
use crate::single::Single;

verus! {

/// Bands on either side of a band that share its median.
pub const MEDIAN_HALF_WINDOW: usize = 6;

/// Size of the largest median window.
pub const MEDIAN_WINDOW: usize = 13;

/// Knee width of the hard mode, `0.5` dB.
pub const HARD_KNEE_DB: u32 = 0x3f00_0000;
/// Knee width of the soft mode, `9` dB.
pub const SOFT_KNEE_DB: u32 = 0x4110_0000;

/// A band centred here, at `1000` Hz, runs at the attack and release times as given.
pub const BALLISTICS_FREQ_REF: u32 = 0x447a_0000;
/// Exponent of the frequency scaling of those times, `0.35`.
pub const BALLISTICS_ALPHA: u32 = 0x3eb3_3333;

/// Width of a node's influence in octaves, `1`.
pub const NODE_SHAPE_SIGMA: u32 = 0x3f80_0000;

// ----- Spectral median --------------------------------------------------------

/// First band of the window around band `i`.
pub open spec fn window_start(i: int) -> int {
    if i < MEDIAN_HALF_WINDOW {
        0
    } else {
        i - MEDIAN_HALF_WINDOW
    }
}

/// One past the last band of the window around band `i`.
pub open spec fn window_end(i: int) -> int {
    if i + MEDIAN_HALF_WINDOW < BANDS {
        i + MEDIAN_HALF_WINDOW + 1
    } else {
        BANDS as int
    }
}

/// The levels around band `i`, cut off at the edges of the spectrum.
pub open spec fn window(levels: Seq<Single>, i: int) -> Seq<Single> {
    levels.subrange(window_start(i), window_end(i))
}

/// `key` placed into `s`, past everything at its end that is above it.
pub open spec fn inserted(s: Seq<Single>, key: Single) -> Seq<Single>
    decreases s.len(),
{
    if s.len() == 0 || !key.below(s.last()) {
        s.push(key)
    } else {
        inserted(s.drop_last(), key).push(s.last())
    }
}

/// `s` in ascending order, equal levels in the order they had.
pub open spec fn ordered(s: Seq<Single>) -> Seq<Single>
    decreases s.len(),
{
    if s.len() == 0 {
        s
    } else {
        inserted(ordered(s.drop_last()), s.last())
    }
}

/// The upper median of `s`.
pub open spec fn median(s: Seq<Single>) -> Single {
    ordered(s)[s.len() as int / 2]
}

proof fn lemma_inserted_len(s: Seq<Single>, key: Single)
    ensures
        inserted(s, key).len() == s.len() + 1,
    decreases s.len(),
{
    if s.len() == 0 || !key.below(s.last()) {
    } else {
        lemma_inserted_len(s.drop_last(), key);
    }
}

pub(crate) proof fn lemma_ordered_len(s: Seq<Single>)
    ensures
        ordered(s).len() == s.len(),
    decreases s.len(),
{
    if s.len() > 0 {
        lemma_ordered_len(s.drop_last());
        lemma_inserted_len(ordered(s.drop_last()), s.last());
    }
}

proof fn lemma_inserted_step(s: Seq<Single>, k: int, key: Single)
    requires
        0 <= k < s.len(),
        key.below(s[k]),
    ensures
        inserted(s.take(k + 1), key) == inserted(s.take(k), key).push(s[k]),
{
    assert(s.take(k + 1).drop_last() =~= s.take(k));
    assert(s.take(k + 1).last() == s[k]);
}

/// Orders the first `n` entries of `buf`.
fn order_prefix(buf: &mut [Single; MEDIAN_WINDOW], n: usize)
    requires
        n <= MEDIAN_WINDOW,
    ensures
        final(buf)@.take(n as int) == ordered(old(buf)@.take(n as int)),
{
    let ghost start = buf@;
    if n == 0 {
        assert(buf@.take(0) =~= ordered(start.take(0)));
        return;
    }
    proof {
        reveal_with_fuel(ordered, 2);
        assert(start.take(1).drop_last() =~= Seq::<Single>::empty());
        assert(ordered(start.take(1)) =~= start.take(1));
    }
    for j in 1..n
        invariant
            n <= MEDIAN_WINDOW,
            start.len() == MEDIAN_WINDOW,
            buf@.take(j as int) == ordered(start.take(j as int)),
            forall|m: int| j <= m < MEDIAN_WINDOW ==> buf@[m] == start[m],
    {
        let key = buf[j];
        let ghost sorted = buf@.take(j as int);
        let mut k: usize = j;
        assert(sorted.take(j as int) =~= sorted);
        assert(sorted.skip(j as int) =~= Seq::<Single>::empty());
        assert(inserted(sorted, key) =~= inserted(sorted.take(j as int), key) + sorted.skip(j as int));
        while k > 0 && key.lt(buf[k - 1])
            invariant
                k <= j < n <= MEDIAN_WINDOW,
                sorted.len() == j,
                start.len() == MEDIAN_WINDOW,
                forall|m: int| 0 <= m < k ==> buf@[m] == sorted[m],
                forall|m: int| k < m <= j ==> buf@[m] == sorted[m - 1],
                forall|m: int| j < m < MEDIAN_WINDOW ==> buf@[m] == start[m],
                inserted(sorted, key) == inserted(sorted.take(k as int), key) + sorted.skip(k as int),
            decreases k,
        {
            proof {
                lemma_inserted_step(sorted, k - 1, key);
                assert(inserted(sorted.take(k - 1), key).push(sorted[k - 1]) + sorted.skip(k as int)
                    =~= inserted(sorted.take(k - 1), key) + sorted.skip(k - 1));
            }
            let above = buf[k - 1];
            buf[k] = above;
            k = k - 1;
        }
        buf[k] = key;
        proof {
            let front = sorted.take(k as int);
            assert(inserted(front, key) == front.push(key)) by {
                if k > 0 {
                    assert(front.last() == sorted[k - 1]);
                }
            }
            assert(buf@.take(j + 1) =~= front.push(key) + sorted.skip(k as int));
            assert(start.take(j + 1).drop_last() =~= start.take(j as int));
            assert(start.take(j + 1).last() == start[j as int]);
        }
    }
}

/// The median of every band's neighbourhood.
pub fn spectral_median(levels: &[Single; BANDS]) -> (out: [Single; BANDS])
    ensures
        forall|i: int| 0 <= i < BANDS ==> out@[i] == median(#[trigger] window(levels@, i)),
{
    let mut out = [Single(ZERO); BANDS];
    for i in 0..BANDS
        invariant
            forall|m: int| 0 <= m < i ==> out@[m] == median(#[trigger] window(levels@, m)),
    {
        let lo = if i < MEDIAN_HALF_WINDOW { 0 } else { i - MEDIAN_HALF_WINDOW };
        let hi = if i + MEDIAN_HALF_WINDOW < BANDS { i + MEDIAN_HALF_WINDOW } else { BANDS - 1 };
        let n = hi - lo + 1;
        let mut buf = [Single(ZERO); MEDIAN_WINDOW];
        for k in 0..n
            invariant
                lo + n <= BANDS,
                n <= MEDIAN_WINDOW,
                forall|m: int| 0 <= m < k ==> buf@[m] == levels@[lo + m],
        {
            buf[k] = levels[lo + k];
        }
        let ghost near = window(levels@, i as int);
        assert(buf@.take(n as int) =~= near);
        order_prefix(&mut buf, n);
        proof {
            lemma_ordered_len(near);
            assert(buf@.take(n as int)[n as int / 2] == buf@[n as int / 2]);
        }
        out[i] = buf[n / 2];
    }
    out
}

/// Ordering rearranges; it neither adds nor drops a level.
pub proof fn lemma_ordered_permutes(s: Seq<Single>)
    ensures
        ordered(s).to_multiset() == s.to_multiset(),
    decreases s.len(),
{
    broadcast use vstd::seq_lib::group_to_multiset_ensures;

    if s.len() > 0 {
        lemma_ordered_permutes(s.drop_last());
        lemma_inserted_permutes(ordered(s.drop_last()), s.last());
        assert(s.drop_last().push(s.last()) =~= s);
    }
}

proof fn lemma_inserted_permutes(s: Seq<Single>, key: Single)
    ensures
        inserted(s, key).to_multiset() == s.to_multiset().insert(key),
    decreases s.len(),
{
    broadcast use vstd::seq_lib::group_to_multiset_ensures;

    if s.len() == 0 || !key.below(s.last()) {
    } else {
        lemma_inserted_permutes(s.drop_last(), key);
        assert(s.drop_last().push(s.last()) =~= s);
        assert(s.drop_last().to_multiset().insert(key).insert(s.last())
            =~= s.drop_last().to_multiset().insert(s.last()).insert(key));
    }
}

/// No entry of `s` is a NaN.
pub open spec fn all_numbers(s: Seq<Single>) -> bool {
    forall|i: int| 0 <= i < s.len() ==> !(#[trigger] s[i]).nan()
}

/// `s` never falls.
pub open spec fn ascending(s: Seq<Single>) -> bool {
    forall|i: int, j: int| 0 <= i <= j < s.len() ==> (#[trigger] s[i]).steps() <= (#[trigger] s[j]).steps()
}

proof fn lemma_inserted_ascends(s: Seq<Single>, key: Single)
    requires
        all_numbers(s),
        ascending(s),
        !key.nan(),
    ensures
        all_numbers(inserted(s, key)),
        ascending(inserted(s, key)),
        inserted(s, key).len() == s.len() + 1,
        forall|i: int|
            0 <= i <= s.len() ==> (#[trigger] inserted(s, key)[i]).steps() <= if s.len() == 0 || !key.below(
                s.last(),
            ) {
                key.steps()
            } else {
                s.last().steps()
            },
    decreases s.len(),
{
    if s.len() == 0 || !key.below(s.last()) {
    } else {
        lemma_inserted_ascends(s.drop_last(), key);
        if s.len() > 1 {
            assert(s.drop_last().last() == s[s.len() - 2]);
        }
    }
}

/// Among numbers, ordering puts them in ascending order.
pub proof fn lemma_ordered_ascends(s: Seq<Single>)
    requires
        all_numbers(s),
    ensures
        all_numbers(ordered(s)),
        ascending(ordered(s)),
    decreases s.len(),
{
    if s.len() > 0 {
        assert(all_numbers(s.drop_last())) by {
            assert forall|i: int| 0 <= i < s.drop_last().len() implies !(#[trigger] s.drop_last()[i]).nan() by {
                assert(!s[i].nan());
            }
        }
        lemma_ordered_ascends(s.drop_last());
        lemma_inserted_ascends(ordered(s.drop_last()), s.last());
    }
}

/// How many entries of `s` have the value `v`.
pub open spec fn hits(s: Seq<Single>, v: int) -> nat
    decreases s.len(),
{
    if s.len() == 0 {
        0
    } else {
        hits(s.drop_last(), v) + if s.last().steps() == v {
            1nat
        } else {
            0nat
        }
    }
}

proof fn lemma_hits_inserted(s: Seq<Single>, key: Single, v: int)
    ensures
        hits(inserted(s, key), v) == hits(s, v) + if key.steps() == v {
            1nat
        } else {
            0nat
        },
    decreases s.len(),
{
    if s.len() == 0 || !key.below(s.last()) {
        assert(s.push(key).drop_last() =~= s);
    } else {
        lemma_hits_inserted(s.drop_last(), key, v);
        assert(inserted(s, key).drop_last() =~= inserted(s.drop_last(), key));
    }
}

proof fn lemma_hits_ordered(s: Seq<Single>, v: int)
    ensures
        hits(ordered(s), v) == hits(s, v),
    decreases s.len(),
{
    if s.len() > 0 {
        lemma_hits_ordered(s.drop_last(), v);
        lemma_hits_inserted(ordered(s.drop_last()), s.last(), v);
    }
}

proof fn lemma_hits_in_front(s: Seq<Single>, v: int, m: nat)
    requires
        forall|i: int| m <= i < s.len() ==> (#[trigger] s[i]).steps() != v,
    ensures
        hits(s, v) <= m,
        hits(s, v) <= s.len(),
    decreases s.len(),
{
    if s.len() > 0 {
        assert forall|i: int| m <= i < s.drop_last().len() implies (#[trigger] s.drop_last()[i]).steps() != v by {
            assert(s[i].steps() != v);
        }
        lemma_hits_in_front(s.drop_last(), v, m);
        assert(s.len() - 1 >= m ==> s[s.len() - 1].steps() != v);
    }
}

proof fn lemma_hits_behind(s: Seq<Single>, v: int, m: nat)
    requires
        m < s.len(),
        forall|i: int| 0 <= i <= m ==> (#[trigger] s[i]).steps() != v,
    ensures
        hits(s, v) <= s.len() - 1 - m,
    decreases s.len(),
{
    assert forall|i: int| 0 <= i <= m && i < s.drop_last().len() implies (#[trigger] s.drop_last()[i]).steps()
        != v by {
        assert(s[i].steps() != v);
    }
    if s.len() == m + 1 {
        assert(s[m as int].steps() != v);
        lemma_hits_in_front(s.drop_last(), v, 0);
    } else {
        lemma_hits_behind(s.drop_last(), v, m);
    }
}

/// A value that more than half of a window shares is the window's median,
/// whatever the rest of the window does. In particular a single outlier never
/// moves the median of levels that otherwise agree.
pub proof fn lemma_median_of_majority(s: Seq<Single>, v: int)
    requires
        all_numbers(s),
        hits(s, v) > s.len() as int / 2,
    ensures
        median(s).steps() == v,
{
    let t = ordered(s);
    let m = s.len() as int / 2;
    lemma_ordered_len(s);
    lemma_ordered_ascends(s);
    lemma_hits_ordered(s, v);
    if s.len() == 0 {
        assert(hits(s, v) == 0);
    } else if t[m].steps() > v {
        assert forall|i: int| m <= i < t.len() implies (#[trigger] t[i]).steps() != v by {
            assert(t[m].steps() <= t[i].steps());
        }
        lemma_hits_in_front(t, v, m as nat);
    } else if t[m].steps() < v {
        assert forall|i: int| 0 <= i <= m implies (#[trigger] t[i]).steps() != v by {
            assert(t[i].steps() <= t[m].steps());
        }
        lemma_hits_behind(t, v, m as nat);
    }
}

// ----- Parameters -------------------------------------------------------------

/// What the detector goes by.
#[derive(Clone, Copy)]
pub struct DetectParams {
    pub depth: Single,
    pub sharpness: Single,
    pub selectivity: Single,
    pub attack_ms: Single,
    pub release_ms: Single,
    pub soft_mode: bool,
    /// Depth multiplier of every node slot.
    pub node_depths: [Single; MAX_NODES],
    /// Center frequency of every node slot, in Hz.
    pub node_freqs: [Single; MAX_NODES],
    /// Shape of every node slot: 0 is a bell, 1 a low shelf, 2 a high shelf.
    pub node_shapes: [usize; MAX_NODES],
    /// Whether a node slot takes part at all.
    pub node_enabled: [bool; MAX_NODES],
}

/// Node frequencies that a fresh set of parameters holds.
pub open spec fn default_node_freqs() -> Seq<Single> {
    Seq::new(MAX_NODES as nat, |j: int| Single(NODE_DEFAULT_FREQS@[j]))
}

/// Node depths that a fresh set of parameters holds: the two shelves are flat.
pub open spec fn default_node_depths() -> Seq<Single> {
    Seq::new(MAX_NODES as nat, |j: int| if j == 0 || j == 5 { Single(ZERO) } else { Single(ONE) })
}

/// Node shapes that a fresh set of parameters holds.
pub open spec fn default_node_shapes() -> Seq<usize> {
    seq![1, 0, 0, 0, 0, 2, 0, 0]
}

/// Node slots that a fresh set of parameters uses: all but the last two.
pub open spec fn default_node_enabled() -> Seq<bool> {
    Seq::new(MAX_NODES as nat, |j: int| j < 6)
}

/// Node frequencies of a fresh set of parameters.
pub fn fresh_node_freqs() -> (r: [Single; MAX_NODES])
    ensures
        r@ == default_node_freqs(),
{
    let mut r = [Single(ZERO); MAX_NODES];
    for j in 0..MAX_NODES
        invariant
            forall|m: int| 0 <= m < j ==> r@[m] == default_node_freqs()[m],
    {
        r[j] = Single(NODE_DEFAULT_FREQS[j]);
    }
    r
}

/// Node depths of a fresh set of parameters.
pub fn fresh_node_depths() -> (r: [Single; MAX_NODES])
    ensures
        r@ == default_node_depths(),
{
    [
        Single(ZERO),
        Single(ONE),
        Single(ONE),
        Single(ONE),
        Single(ONE),
        Single(ZERO),
        Single(ONE),
        Single(ONE),
    ]
}

/// Node shapes of a fresh set of parameters.
pub fn fresh_node_shapes() -> (r: [usize; MAX_NODES])
    ensures
        r@ == default_node_shapes(),
{
    [1, 0, 0, 0, 0, 2, 0, 0]
}

/// Node switches of a fresh set of parameters.
pub fn fresh_node_enabled() -> (r: [bool; MAX_NODES])
    ensures
        r@ == default_node_enabled(),
{
    [true, true, true, true, true, true, false, false]
}

impl DetectParams {
    /// These are the parameters that everything starts from.
    pub open spec fn is_default(self) -> bool {
        &&& self.depth == Single(HALF)
        &&& self.sharpness == Single(HALF)
        &&& self.selectivity == Single(HALF)
        &&& self.attack_ms == Single(TEN)
        &&& self.release_ms == Single(HUNDRED)
        &&& !self.soft_mode
        &&& self.node_depths@ == default_node_depths()
        &&& self.node_freqs@ == default_node_freqs()
        &&& self.node_shapes@ == default_node_shapes()
        &&& self.node_enabled@ == default_node_enabled()
    }
}

impl Default for DetectParams {
    fn default() -> (r: Self)
        ensures
            r.is_default(),
    {
        DetectParams {
            depth: Single(HALF),
            sharpness: Single(HALF),
            selectivity: Single(HALF),
            attack_ms: Single(TEN),
            release_ms: Single(HUNDRED),
            soft_mode: false,
            node_depths: fresh_node_depths(),
            node_freqs: fresh_node_freqs(),
            node_shapes: fresh_node_shapes(),
            node_enabled: fresh_node_enabled(),
        }
    }
}

// ----- Node shape -------------------------------------------------------------

/// `w` is the Gaussian weight at `dist` octaves.
pub open spec fn falloff_of<A: Arith>(dist: Single, w: Single) -> bool {
    exists|q: Single, s: Single, h: Single|
        {
            &&& #[trigger] over_of::<A>(dist, Single(NODE_SHAPE_SIGMA), q)
            &&& #[trigger] square_of::<A>(q, s)
            &&& #[trigger] times_of::<A>(Single(MINUS_HALF), s, h)
            &&& exp_of::<A>(h, w)
        }
}

fn falloff<A: Arith>(dist: Single) -> (w: Single)
    ensures
        falloff_of::<A>(dist, w),
{
    A::exp(A::times(Single(MINUS_HALF), A::square(A::over(dist, Single(NODE_SHAPE_SIGMA)))))
}

/// `w` is the weight of a node of the given shape at a band that lies `dist`
/// octaves above it: a low shelf has its full weight everywhere below its
/// anchor, a high shelf everywhere above, and any other shape falls off on both
/// sides.
pub open spec fn weight_of<A: Arith>(dist: Single, shape: usize, w: Single) -> bool {
    if shape == 1 {
        if dist.at_most(Single(ZERO)) {
            w == Single(ONE)
        } else {
            falloff_of::<A>(dist, w)
        }
    } else if shape == 2 {
        if Single(ZERO).at_most(dist) {
            w == Single(ONE)
        } else {
            falloff_of::<A>(dist, w)
        }
    } else {
        falloff_of::<A>(dist.absolute(), w)
    }
}

fn weight<A: Arith>(dist: Single, shape: usize) -> (w: Single)
    ensures
        weight_of::<A>(dist, shape, w),
{
    match shape {
        1 => if dist.le(Single(ZERO)) {
            Single(ONE)
        } else {
            falloff::<A>(dist)
        },
        2 => if Single(ZERO).le(dist) {
            Single(ONE)
        } else {
            falloff::<A>(dist)
        },
        _ => falloff::<A>(dist.abs()),
    }
}

/// A node of this frequency, depth and shape takes the sums from `(sum, total)`
/// to `(sum2, total2)` at a band whose frequency has the logarithm `band_log`.
pub open spec fn node_adds<A: Arith>(
    band_log: Single,
    freq: Single,
    depth: Single,
    shape: usize,
    sum: Single,
    total: Single,
    sum2: Single,
    total2: Single,
) -> bool {
    exists|anchor: Single, dist: Single, w: Single, share: Single|
        {
            &&& #[trigger] log2_of::<A>(freq, anchor)
            &&& #[trigger] minus_of::<A>(band_log, anchor, dist)
            &&& #[trigger] weight_of::<A>(dist, shape, w)
            &&& #[trigger] times_of::<A>(depth, w, share)
            &&& plus_of::<A>(sum, share, sum2)
            &&& plus_of::<A>(total, w, total2)
        }
}

/// Slot `j` takes the sums one step further; a slot that is off adds nothing.
pub open spec fn slot_adds<A: Arith>(
    band_log: Single,
    freqs: Seq<Single>,
    depths: Seq<Single>,
    shapes: Seq<usize>,
    enabled: Seq<bool>,
    sums: Seq<Single>,
    totals: Seq<Single>,
    j: int,
) -> bool {
    if enabled[j] {
        node_adds::<A>(
            band_log,
            freqs[j],
            depths[j],
            shapes[j],
            sums[j],
            totals[j],
            sums[j + 1],
            totals[j + 1],
        )
    } else {
        sums[j + 1] == sums[j] && totals[j + 1] == totals[j]
    }
}

/// The running sums over the node slots, one step per slot.
pub open spec fn node_sums<A: Arith>(
    band_log: Single,
    freqs: Seq<Single>,
    depths: Seq<Single>,
    shapes: Seq<usize>,
    enabled: Seq<bool>,
    sums: Seq<Single>,
    totals: Seq<Single>,
) -> bool {
    &&& sums.len() == MAX_NODES + 1
    &&& totals.len() == MAX_NODES + 1
    &&& sums[0] == Single(ZERO)
    &&& totals[0] == Single(ZERO)
    &&& forall|j: int|
        0 <= j < MAX_NODES ==> #[trigger] slot_adds::<A>(
            band_log,
            freqs,
            depths,
            shapes,
            enabled,
            sums,
            totals,
            j,
        )
}

/// `r` blends the average of the nodes with the neutral depth of 1, by how much
/// of one full node is present.
pub open spec fn blend_of<A: Arith>(sum: Single, total: Single, r: Single) -> bool {
    if Single(ONE_MILLIONTH).below(total) {
        let coverage = total.held(Single(ZERO), Single(ONE));
        exists|avg: Single, rest: Single, p: Single, q: Single|
            {
                &&& #[trigger] over_of::<A>(sum, total, avg)
                &&& #[trigger] times_of::<A>(coverage, avg, p)
                &&& #[trigger] minus_of::<A>(Single(ONE), coverage, rest)
                &&& #[trigger] times_of::<A>(rest, Single(ONE), q)
                &&& plus_of::<A>(p, q, r)
            }
    } else {
        r == Single(ONE)
    }
}

fn blend<A: Arith>(sum: Single, total: Single) -> (r: Single)
    ensures
        blend_of::<A>(sum, total, r),
{
    if Single(ONE_MILLIONTH).lt(total) {
        let avg = A::over(sum, total);
        let coverage = total.clamp(Single(ZERO), Single(ONE));
        A::plus(A::times(coverage, avg), A::times(A::minus(Single(ONE), coverage), Single(ONE)))
    } else {
        Single(ONE)
    }
}

/// `r` is the depth multiplier that the nodes give to `freq`.
pub open spec fn node_shape_of<A: Arith>(
    freq: Single,
    freqs: Seq<Single>,
    depths: Seq<Single>,
    shapes: Seq<usize>,
    enabled: Seq<bool>,
    r: Single,
) -> bool {
    exists|band_log: Single, sums: Seq<Single>, totals: Seq<Single>|
        {
            &&& #[trigger] log2_of::<A>(freq.larger(Single(ONE)), band_log)
            &&& #[trigger] node_sums::<A>(band_log, freqs, depths, shapes, enabled, sums, totals)
            &&& blend_of::<A>(sums[MAX_NODES as int], totals[MAX_NODES as int], r)
        }
}

/// The depth multiplier at `freq`. The detector and the curve on screen both
/// take it from here.
pub fn node_shape<A: Arith>(
    freq: Single,
    node_freqs: &[Single; MAX_NODES],
    node_depths: &[Single; MAX_NODES],
    node_shapes: &[usize; MAX_NODES],
    node_enabled: &[bool; MAX_NODES],
) -> (r: Single)
    ensures
        node_shape_of::<A>(freq, node_freqs@, node_depths@, node_shapes@, node_enabled@, r),
{
    let band_log = A::log2(freq.max(Single(ONE)));
    let mut sum = Single(ZERO);
    let mut total = Single(ZERO);
    let ghost mut sums = seq![sum];
    let ghost mut totals = seq![total];
    for j in 0..MAX_NODES
        invariant
            sums.len() == j + 1,
            totals.len() == j + 1,
            sums[0] == Single(ZERO),
            totals[0] == Single(ZERO),
            sums[j as int] == sum,
            totals[j as int] == total,
            forall|m: int|
                0 <= m < j ==> #[trigger] slot_adds::<A>(
                    band_log,
                    node_freqs@,
                    node_depths@,
                    node_shapes@,
                    node_enabled@,
                    sums,
                    totals,
                    m,
                ),
    {
        if node_enabled[j] {
            let anchor = A::log2(node_freqs[j]);
            let dist = A::minus(band_log, anchor);
            let w = weight::<A>(dist, node_shapes[j]);
            let share = A::times(node_depths[j], w);
            sum = A::plus(sum, share);
            total = A::plus(total, w);
        }
        proof {
            let sums2 = sums.push(sum);
            let totals2 = totals.push(total);
            assert forall|m: int| 0 <= m < j + 1 implies #[trigger] slot_adds::<A>(
                band_log,
                node_freqs@,
                node_depths@,
                node_shapes@,
                node_enabled@,
                sums2,
                totals2,
                m,
            ) by {
                if m < j {
                    assert(slot_adds::<A>(
                        band_log,
                        node_freqs@,
                        node_depths@,
                        node_shapes@,
                        node_enabled@,
                        sums,
                        totals,
                        m,
                    ));
                }
            }
            sums = sums2;
            totals = totals2;
        }
    }
    assert(node_sums::<A>(
        band_log,
        node_freqs@,
        node_depths@,
        node_shapes@,
        node_enabled@,
        sums,
        totals,
    ));
    blend::<A>(sum, total)
}

/// A deleted node leaves no trace: what its slot still holds changes nothing.
pub proof fn lemma_disabled_slots_do_not_matter<A: Arith>(
    freq: Single,
    freqs: Seq<Single>,
    depths: Seq<Single>,
    shapes: Seq<usize>,
    enabled: Seq<bool>,
    other_freqs: Seq<Single>,
    other_depths: Seq<Single>,
    other_shapes: Seq<usize>,
    r: Single,
)
    requires
        forall|j: int|
            0 <= j < MAX_NODES && #[trigger] enabled[j] ==> freqs[j] == other_freqs[j] && depths[j]
                == other_depths[j] && shapes[j] == other_shapes[j],
        node_shape_of::<A>(freq, freqs, depths, shapes, enabled, r),
    ensures
        node_shape_of::<A>(freq, other_freqs, other_depths, other_shapes, enabled, r),
{
    let (band_log, sums, totals) = choose|band_log: Single, sums: Seq<Single>, totals: Seq<Single>|
        {
            &&& #[trigger] log2_of::<A>(freq.larger(Single(ONE)), band_log)
            &&& #[trigger] node_sums::<A>(band_log, freqs, depths, shapes, enabled, sums, totals)
            &&& blend_of::<A>(sums[MAX_NODES as int], totals[MAX_NODES as int], r)
        };
    assert forall|j: int| 0 <= j < MAX_NODES implies #[trigger] slot_adds::<A>(
        band_log,
        other_freqs,
        other_depths,
        other_shapes,
        enabled,
        sums,
        totals,
        j,
    ) by {
        assert(slot_adds::<A>(band_log, freqs, depths, shapes, enabled, sums, totals, j));
    }
    assert(node_sums::<A>(band_log, other_freqs, other_depths, other_shapes, enabled, sums, totals));
}

/// With every node deleted the depth is neutral everywhere.
pub proof fn lemma_no_nodes_is_neutral<A: Arith>(
    freq: Single,
    freqs: Seq<Single>,
    depths: Seq<Single>,
    shapes: Seq<usize>,
    enabled: Seq<bool>,
    r: Single,
)
    requires
        forall|j: int| 0 <= j < MAX_NODES ==> !(#[trigger] enabled[j]),
        node_shape_of::<A>(freq, freqs, depths, shapes, enabled, r),
    ensures
        r == Single(ONE),
{
    let (band_log, sums, totals) = choose|band_log: Single, sums: Seq<Single>, totals: Seq<Single>|
        {
            &&& #[trigger] log2_of::<A>(freq.larger(Single(ONE)), band_log)
            &&& #[trigger] node_sums::<A>(band_log, freqs, depths, shapes, enabled, sums, totals)
            &&& blend_of::<A>(sums[MAX_NODES as int], totals[MAX_NODES as int], r)
        };
    lemma_nothing_adds_up::<A>(
        band_log,
        freqs,
        depths,
        shapes,
        enabled,
        sums,
        totals,
        MAX_NODES as int,
    );
}

proof fn lemma_nothing_adds_up<A: Arith>(
    band_log: Single,
    freqs: Seq<Single>,
    depths: Seq<Single>,
    shapes: Seq<usize>,
    enabled: Seq<bool>,
    sums: Seq<Single>,
    totals: Seq<Single>,
    j: int,
)
    requires
        0 <= j <= MAX_NODES,
        forall|m: int| 0 <= m < MAX_NODES ==> !(#[trigger] enabled[m]),
        node_sums::<A>(band_log, freqs, depths, shapes, enabled, sums, totals),
    ensures
        totals[j] == Single(ZERO),
    decreases j,
{
    if j > 0 {
        lemma_nothing_adds_up::<A>(
            band_log,
            freqs,
            depths,
            shapes,
            enabled,
            sums,
            totals,
            j - 1,
        );
        assert(slot_adds::<A>(band_log, freqs, depths, shapes, enabled, sums, totals, j - 1));
    }
}

// ----- Ballistics and knee ----------------------------------------------------

/// `r` is the factor by which a band at `freq` stretches attack and release.
pub open spec fn ballistics_scale_of<A: Arith>(freq: Single, alpha: Single, r: Single) -> bool {
    exists|q: Single|
        #[trigger] over_of::<A>(Single(BALLISTICS_FREQ_REF), freq.larger(Single(ONE)), q)
            && pow_of::<A>(q, alpha, r)
}

/// The factor by which a band at `freq_hz` stretches attack and release:
/// above one for the low bands, below one for the high ones.
pub fn ballistics_scale<A: Arith>(freq_hz: Single, alpha: Single) -> (r: Single)
    ensures
        ballistics_scale_of::<A>(freq_hz, alpha, r),
{
    A::pow(A::over(Single(BALLISTICS_FREQ_REF), freq_hz.max(Single(ONE))), alpha)
}

/// `r` is the reduction for a level `excess` dB over the threshold: nothing
/// below the knee, the line of slope `k` above it, a parabola in between.
pub open spec fn knee_of<A: Arith>(excess: Single, k: Single, knee: Single, r: Single) -> bool {
    exists|half: Single| #[trigger]
        over_of::<A>(knee, Single(TWO), half) && if excess.at_most(half.opposite()) {
            r == Single(ZERO)
        } else if half.at_most(excess) {
            exists|line: Single| #[trigger]
                times_of::<A>(k, excess, line) && r == line.larger(Single(ZERO))
        } else {
            exists|above: Single, sq: Single, top: Single, width: Single|
                {
                    &&& #[trigger] plus_of::<A>(excess, half, above)
                    &&& #[trigger] square_of::<A>(above, sq)
                    &&& #[trigger] times_of::<A>(k, sq, top)
                    &&& #[trigger] times_of::<A>(Single(TWO), knee, width)
                    &&& over_of::<A>(top, width, r)
                }
        }
}

/// The reduction in dB for a level `excess` dB over the threshold.
pub fn knee_reduction_db<A: Arith>(excess: Single, k: Single, knee_db: Single) -> (r: Single)
    ensures
        knee_of::<A>(excess, k, knee_db, r),
{
    let half = A::over(knee_db, Single(TWO));
    if excess.le(half.negated()) {
        Single(ZERO)
    } else if half.le(excess) {
        A::times(k, excess).max(Single(ZERO))
    } else {
        let sq = A::square(A::plus(excess, half));
        A::over(A::times(k, sq), A::times(Single(TWO), knee_db))
    }
}

/// `r` is the share of its way that a follower with a time constant of `ms`
/// goes in one frame; no follower is faster than one frame.
pub open spec fn coef_of<A: Arith>(ms: Single, frame_time: Single, r: Single) -> bool {
    exists|tau: Single, frames: Single, rate: Single, e: Single|
        {
            &&& #[trigger] over_of::<A>(ms.larger(Single(TENTH)), Single(THOUSAND), tau)
            &&& #[trigger] over_of::<A>(tau.larger(frame_time), frame_time, frames)
            &&& #[trigger] over_of::<A>(Single(MINUS_ONE), frames, rate)
            &&& #[trigger] exp_of::<A>(rate, e)
            &&& minus_of::<A>(Single(ONE), e, r)
        }
}

/// The share of its way that a follower goes in one frame.
pub fn coef<A: Arith>(ms: Single, frame_time: Single) -> (r: Single)
    ensures
        coef_of::<A>(ms, frame_time, r),
{
    let tau = A::over(ms.max(Single(TENTH)), Single(THOUSAND)).max(frame_time);
    let frames = A::over(tau, frame_time);
    A::minus(Single(ONE), A::exp(A::over(Single(MINUS_ONE), frames)))
}

/// `r` lies the share `c` of the way from `from` to `toward`.
pub open spec fn follow_of<A: Arith>(from: Single, toward: Single, c: Single, r: Single) -> bool {
    exists|way: Single, step: Single|
        {
            &&& #[trigger] minus_of::<A>(toward, from, way)
            &&& #[trigger] times_of::<A>(way, c, step)
            &&& plus_of::<A>(from, step, r)
        }
}

/// `r` is one frame's step from `from` to `toward` at a time constant of
/// `base_ms` stretched by `scale`.
pub open spec fn glide_of<A: Arith>(
    from: Single,
    toward: Single,
    base_ms: Single,
    scale: Single,
    frame_time: Single,
    r: Single,
) -> bool {
    exists|ms: Single, c: Single|
        {
            &&& #[trigger] times_of::<A>(base_ms, scale, ms)
            &&& #[trigger] coef_of::<A>(ms, frame_time, c)
            &&& follow_of::<A>(from, toward, c, r)
        }
}

fn glide<A: Arith>(
    from: Single,
    toward: Single,
    base_ms: Single,
    scale: Single,
    frame_time: Single,
) -> (r: Single)
    ensures
        glide_of::<A>(from, toward, base_ms, scale, frame_time, r),
{
    let c = coef::<A>(A::times(base_ms, scale), frame_time);
    A::plus(from, A::times(A::minus(toward, from), c))
}

// ----- Detector ---------------------------------------------------------------

/// What all bands of one frame share.
#[derive(Clone, Copy)]
pub struct FrameTerms {
    /// Seconds from one frame to the next.
    pub frame_time: Single,
    /// Attack time of the gain follower before scaling, in ms.
    pub attack_ms: Single,
    /// Release time of the gain follower before scaling, in ms.
    pub release_ms: Single,
    /// How far over the reference a level may go, in dB.
    pub threshold: Single,
    /// Knee width in dB.
    pub knee: Single,
}

/// `t` holds the terms of a frame under the parameters `p`.
pub open spec fn frame_terms_of<A: Arith>(
    hop: Single,
    rate: Single,
    p: DetectParams,
    t: FrameTerms,
) -> bool {
    &&& over_of::<A>(hop, rate, t.frame_time)
    &&& exists|ms: Single| #[trigger]
        times_of::<A>(p.attack_ms, Single(HALF), ms) && t.attack_ms == ms.larger(Single(HALF))
    &&& exists|ms: Single| #[trigger]
        times_of::<A>(p.release_ms, Single(HALF), ms) && t.release_ms == ms.larger(Single(FIVE))
    &&& exists|rest: Single, wide: Single, narrow: Single|
        {
            &&& #[trigger] minus_of::<A>(Single(ONE), p.selectivity, rest)
            &&& #[trigger] times_of::<A>(rest, Single(TWELVE), wide)
            &&& #[trigger] times_of::<A>(p.selectivity, Single(ONE), narrow)
            &&& plus_of::<A>(wide, narrow, t.threshold)
        }
    &&& t.knee == if p.soft_mode {
        Single(SOFT_KNEE_DB)
    } else {
        Single(HARD_KNEE_DB)
    }
}

fn frame_terms<A: Arith>(hop: Single, rate: Single, p: &DetectParams) -> (t: FrameTerms)
    ensures
        frame_terms_of::<A>(hop, rate, *p, t),
{
    let attack = A::times(p.attack_ms, Single(HALF));
    let release = A::times(p.release_ms, Single(HALF));
    let wide = A::times(A::minus(Single(ONE), p.selectivity), Single(TWELVE));
    let narrow = A::times(p.selectivity, Single(ONE));
    FrameTerms {
        frame_time: A::over(hop, rate),
        attack_ms: attack.max(Single(HALF)),
        release_ms: release.max(Single(FIVE)),
        threshold: A::plus(wide, narrow),
        knee: if p.soft_mode {
            Single(SOFT_KNEE_DB)
        } else {
            Single(HARD_KNEE_DB)
        },
    }
}

/// What one frame leaves behind in one band.
#[derive(Clone, Copy)]
pub struct BandStep {
    /// The smoothed spectral reference, in dB.
    pub baseline: Single,
    /// The global depth times the depth that the nodes give to this band.
    pub effective_depth: Single,
    /// The reduction in dB.
    pub reduction_db: Single,
    /// The linear gain that the reduction asks for.
    pub target_gain: Single,
    /// The gain on its way to that target.
    pub gain: Single,
}

/// `r` is the reduction that `level` gets over the reference `baseline`.
pub open spec fn reduction_of<A: Arith>(
    t: FrameTerms,
    sharpness: Single,
    level: Single,
    baseline: Single,
    effective_depth: Single,
    r: Single,
) -> bool {
    exists|reference: Single, excess: Single, slope: Single, k: Single, raw: Single|
        {
            &&& #[trigger] plus_of::<A>(baseline, t.threshold, reference)
            &&& #[trigger] minus_of::<A>(level, reference, excess)
            &&& #[trigger] plus_of::<A>(Single(HALF), sharpness, slope)
            &&& #[trigger] times_of::<A>(effective_depth, slope, k)
            &&& #[trigger] knee_of::<A>(excess, k, t.knee, raw)
            &&& r == raw.smaller(Single(THIRTY_SIX))
        }
}

/// `r` is the linear gain of a reduction by `reduction_db`.
pub open spec fn attenuation_of<A: Arith>(reduction_db: Single, r: Single) -> bool {
    exists|e: Single| #[trigger]
        over_of::<A>(reduction_db.opposite(), Single(TWENTY), e) && pow_of::<A>(
            Single(TEN),
            e,
            r,
        )
}

/// One frame takes a band from `baseline` and `gain` to `s`, given its level, the
/// median around it, how far its times are stretched, and the depth that the nodes
/// give it.
pub open spec fn band_step_with<A: Arith>(
    t: FrameTerms,
    p: DetectParams,
    scale: Single,
    region: Single,
    level: Single,
    median: Single,
    baseline: Single,
    gain: Single,
    s: BandStep,
) -> bool {
    &&& glide_of::<A>(
        baseline,
        median,
        if baseline.below(median) {
            p.attack_ms
        } else {
            p.release_ms
        },
        scale,
        t.frame_time,
        s.baseline,
    )
    &&& times_of::<A>(p.depth, region, s.effective_depth)
    &&& reduction_of::<A>(
        t,
        p.sharpness,
        level,
        s.baseline,
        s.effective_depth,
        s.reduction_db,
    )
    &&& attenuation_of::<A>(s.reduction_db, s.target_gain)
    &&& glide_of::<A>(
        gain,
        s.target_gain,
        if s.target_gain.below(gain) {
            t.attack_ms
        } else {
            t.release_ms
        },
        scale,
        t.frame_time,
        s.gain,
    )
}

/// One frame takes a band from `baseline` and `gain` to `s`, given its level and
/// the median around it.
pub open spec fn band_step_of<A: Arith>(
    t: FrameTerms,
    p: DetectParams,
    center: Single,
    level: Single,
    median: Single,
    baseline: Single,
    gain: Single,
    s: BandStep,
) -> bool {
    exists|scale: Single, region: Single|
        {
            &&& #[trigger] ballistics_scale_of::<A>(center, Single(BALLISTICS_ALPHA), scale)
            &&& #[trigger] node_shape_of::<A>(
                center,
                p.node_freqs@,
                p.node_depths@,
                p.node_shapes@,
                p.node_enabled@,
                region,
            )
            &&& band_step_with::<A>(t, p, scale, region, level, median, baseline, gain, s)
        }
}

fn band_step<A: Arith>(
    t: &FrameTerms,
    p: &DetectParams,
    center: Single,
    level: Single,
    median: Single,
    baseline: Single,
    gain: Single,
) -> (s: BandStep)
    ensures
        band_step_of::<A>(*t, *p, center, level, median, baseline, gain, s),
{
    let scale = ballistics_scale::<A>(center, Single(BALLISTICS_ALPHA));
    let region = node_shape::<A>(
        center,
        &p.node_freqs,
        &p.node_depths,
        &p.node_shapes,
        &p.node_enabled,
    );
    let tracking_ms = if baseline.lt(median) {
        p.attack_ms
    } else {
        p.release_ms
    };
    let baseline = glide::<A>(baseline, median, tracking_ms, scale, t.frame_time);
    let reference = A::plus(baseline, t.threshold);
    let excess = A::minus(level, reference);
    let effective_depth = A::times(p.depth, region);
    let k = A::times(effective_depth, A::plus(Single(HALF), p.sharpness));
    let raw = knee_reduction_db::<A>(excess, k, t.knee);
    let reduction_db = raw.min(Single(THIRTY_SIX));
    let target_gain = A::pow(Single(TEN), A::over(reduction_db.negated(), Single(TWENTY)));
    let follow_ms = if target_gain.lt(gain) {
        t.attack_ms
    } else {
        t.release_ms
    };
    let gain = glide::<A>(gain, target_gain, follow_ms, scale, t.frame_time);
    BandStep { baseline, effective_depth, reduction_db, target_gain, gain }
}

/// The same number in every band.
pub open spec fn all_bands(x: Single) -> Seq<Single> {
    Seq::new(BANDS as nat, |i: int| x)
}

/// The same number in every band.
pub fn in_all_bands(x: Single) -> (r: [Single; BANDS])
    ensures
        r@ == all_bands(x),
{
    let r = [x; BANDS];
    assert(r@ =~= all_bands(x));
    r
}

/// Follows the spectral reference and the gain of every band.
pub struct Detector {
    sample_rate: Single,
    /// Samples from one frame to the next.
    frame_hop: Single,
    baseline: [Single; BANDS],
    gain: [Single; BANDS],
    last_effective_depth: [Single; BANDS],
    last_reduction_db: [Single; BANDS],
    last_target_gain: [Single; BANDS],
}

impl Detector {
    /// Samples per second.
    pub closed spec fn rate(self) -> Single {
        self.sample_rate
    }

    /// Samples from one frame to the next.
    pub closed spec fn hop(self) -> Single {
        self.frame_hop
    }

    /// The smoothed spectral reference of every band.
    pub closed spec fn baselines(self) -> Seq<Single> {
        self.baseline@
    }

    /// The gain of every band.
    pub closed spec fn gains(self) -> Seq<Single> {
        self.gain@
    }

    /// The effective depth of every band in the last frame.
    pub closed spec fn effective_depths(self) -> Seq<Single> {
        self.last_effective_depth@
    }

    /// The reduction of every band in the last frame.
    pub closed spec fn reductions(self) -> Seq<Single> {
        self.last_reduction_db@
    }

    /// The target gain of every band in the last frame.
    pub closed spec fn target_gains(self) -> Seq<Single> {
        self.last_target_gain@
    }

    /// What the last frame left behind in band `i`.
    pub open spec fn step_at(self, i: int) -> BandStep {
        BandStep {
            baseline: self.baselines()[i],
            effective_depth: self.effective_depths()[i],
            reduction_db: self.reductions()[i],
            target_gain: self.target_gains()[i],
            gain: self.gains()[i],
        }
    }

    /// No frame has been seen yet.
    pub open spec fn at_rest(self) -> bool {
        &&& self.baselines() == all_bands(Single(ZERO))
        &&& self.gains() == all_bands(Single(ONE))
        &&& self.effective_depths() == all_bands(Single(ZERO))
        &&& self.reductions() == all_bands(Single(ZERO))
        &&& self.target_gains() == all_bands(Single(ONE))
    }

    /// The frame of `levels` takes every band from where it stood in `before` to
    /// where it stands in `self`.
    pub open spec fn steps_from<A: Arith>(
        self,
        before: Self,
        levels: Seq<Single>,
        p: DetectParams,
        centers: Seq<Single>,
    ) -> bool {
        &&& self.rate() == before.rate()
        &&& self.hop() == before.hop()
        &&& exists|t: FrameTerms|
            {
                &&& #[trigger] frame_terms_of::<A>(before.hop(), before.rate(), p, t)
                &&& forall|i: int|
                    0 <= i < BANDS ==> band_step_of::<A>(
                        t,
                        p,
                        centers[i],
                        levels[i],
                        median(window(levels, i)),
                        before.baselines()[i],
                        before.gains()[i],
                        #[trigger] self.step_at(i),
                    )
            }
    }

    /// A detector that sees a frame every `frame_hop` samples.
    pub fn new<A: Arith>(frame_hop: usize, sample_rate: Single) -> (d: Self)
        ensures
            d.rate() == sample_rate,
            count_of::<A>(frame_hop, d.hop()),
            d.at_rest(),
    {
        Detector {
            sample_rate,
            frame_hop: A::of_count(frame_hop),
            baseline: in_all_bands(Single(ZERO)),
            gain: in_all_bands(Single(ONE)),
            last_effective_depth: in_all_bands(Single(ZERO)),
            last_reduction_db: in_all_bands(Single(ZERO)),
            last_target_gain: in_all_bands(Single(ONE)),
        }
    }

    /// The effective depth of every band in the last frame.
    pub fn last_effective_depth(&self) -> (r: &[Single; BANDS])
        ensures
            r@ == self.effective_depths(),
    {
        &self.last_effective_depth
    }

    /// The reduction of every band in the last frame.
    pub fn last_reduction_db(&self) -> (r: &[Single; BANDS])
        ensures
            r@ == self.reductions(),
    {
        &self.last_reduction_db
    }

    /// The gain that every band was headed for in the last frame.
    pub fn last_target_gain(&self) -> (r: &[Single; BANDS])
        ensures
            r@ == self.target_gains(),
    {
        &self.last_target_gain
    }

    /// Takes in the levels of one frame and gives back the gain of every band.
    pub fn process_frame<A: Arith>(
        &mut self,
        levels_db: &[Single; BANDS],
        p: &DetectParams,
        band_centers: &[Single; BANDS],
    ) -> (out: [Single; BANDS])
        ensures
            final(self).steps_from::<A>(*old(self), levels_db@, *p, band_centers@),
            out@ == final(self).gains(),
    {
        let ghost before = *self;
        let terms = frame_terms::<A>(self.frame_hop, self.sample_rate, p);
        let medians = spectral_median(levels_db);
        for i in 0..BANDS
            invariant
                self.frame_hop == before.frame_hop,
                self.sample_rate == before.sample_rate,
                forall|m: int| 0 <= m < BANDS ==> medians@[m] == median(window(levels_db@, m)),
                forall|m: int|
                    i <= m < BANDS ==> self.baseline@[m] == before.baseline@[m] && self.gain@[m]
                        == before.gain@[m],
                forall|m: int|
                    0 <= m < i ==> band_step_of::<A>(
                        terms,
                        *p,
                        band_centers@[m],
                        levels_db@[m],
                        median(window(levels_db@, m)),
                        before.baselines()[m],
                        before.gains()[m],
                        #[trigger] self.step_at(m),
                    ),
        {
            let ghost earlier = *self;
            let s = band_step::<A>(
                &terms,
                p,
                band_centers[i],
                levels_db[i],
                medians[i],
                self.baseline[i],
                self.gain[i],
            );
            self.baseline[i] = s.baseline;
            self.last_effective_depth[i] = s.effective_depth;
            self.last_reduction_db[i] = s.reduction_db;
            self.last_target_gain[i] = s.target_gain;
            self.gain[i] = s.gain;
            proof {
                assert(self.step_at(i as int) == s);
                assert(forall|m: int|
                    0 <= m < i ==> #[trigger] self.step_at(m) == earlier.step_at(m));
            }
        }
        assert(frame_terms_of::<A>(before.hop(), before.rate(), *p, terms));
        self.gain
    }

    /// Forgets every frame.
    pub fn reset(&mut self)
        ensures
            final(self).rate() == old(self).rate(),
            final(self).hop() == old(self).hop(),
            final(self).at_rest(),
    {
        self.baseline = in_all_bands(Single(ZERO));
        self.gain = in_all_bands(Single(ONE));
        self.last_effective_depth = in_all_bands(Single(ZERO));
        self.last_reduction_db = in_all_bands(Single(ZERO));
        self.last_target_gain = in_all_bands(Single(ONE));
    }
}

/// A detector holds a value of every kind for every band.
pub proof fn lemma_detector_is_whole(d: Detector)
    ensures
        d.baselines().len() == BANDS,
        d.gains().len() == BANDS,
        d.effective_depths().len() == BANDS,
        d.reductions().len() == BANDS,
        d.target_gains().len() == BANDS,
{
}

/// No band is ever reduced by more than 36 dB.
pub proof fn lemma_reduction_is_capped<A: Arith>(
    after: Detector,
    before: Detector,
    levels: Seq<Single>,
    p: DetectParams,
    centers: Seq<Single>,
    i: int,
)
    requires
        after.steps_from::<A>(before, levels, p, centers),
        0 <= i < BANDS,
    ensures
        after.reductions()[i].at_most(Single(THIRTY_SIX)),
{
    let s = after.step_at(i);
    assert(exists|raw: Single| s.reduction_db == #[trigger] raw.smaller(Single(THIRTY_SIX)));
}

/// A level below the knee is left alone.
pub proof fn lemma_no_reduction_below_knee<A: Arith>(excess: Single, k: Single, knee: Single, r: Single)
    requires
        knee_of::<A>(excess, k, knee, r),
        forall|half: Single| #[trigger]
            over_of::<A>(knee, Single(TWO), half) ==> excess.at_most(half.opposite()),
    ensures
        r == Single(ZERO),
{
}

/// A shelf has its full weight on the side that it holds, its anchor included.
pub proof fn lemma_shelf_holds_its_side<A: Arith>(dist: Single, shape: usize, w: Single)
    requires
        weight_of::<A>(dist, shape, w),
        (shape == 1 && dist.at_most(Single(ZERO))) || (shape == 2 && Single(ZERO).at_most(dist)),
    ensures
        w == Single(ONE),
{
}

} // verus!
