//! What the level of a band says.
//!
//! The laws here hold for every arithmetic that is accurate and takes logarithms evenly.

use vstd::prelude::*;
use crate::arith::{count_of, log10_of, minus_of, over_of, plus_of, sqrt_of, times_of, Arith};
use crate::dsp::analysis::{
    band_described_of, decibels_of, described_of, last_bin, loudest, magnitude_of, magnitudes_of, Bin, PAR_HIGH_DB,
    PAR_LOW_DB,
};
use crate::dsp::bands::BandLayout;
use crate::exact::{
    accurate, lemma_count_is_exact, lemma_divided, lemma_over, lemma_product_is_close, lemma_product_is_positive,
    lemma_product_rises, lemma_product_size, lemma_quotient, lemma_root_is_close, lemma_spread, lemma_sum_is_close,
    lemma_values, size, usual, value,
};
use crate::numbers::{ONE, ONE_BILLIONTH, TWENTY, ZERO};
use crate::single::Single;

verus! {

/// A positive number of a size that magnitudes have.
pub open spec fn positive(x: Single) -> bool {
    x.finite() && 20_000_000_000real * value(x) >= 1real && value(x) <= 1_000_000_000real
}

/// Logarithms of `A` to base 10 of numbers that lie close together do so too.
pub open spec fn even_logarithms<A: Arith>() -> bool {
    &&& forall|x: Single, l: Single|
        positive(x) && #[trigger] log10_of::<A>(x, l) ==> l.finite() && size(value(l)) <= 11real
    &&& forall|x: Single, y: Single, l: Single, k: Single|
        positive(x) && positive(y) && 2real * value(y) >= value(x) && value(y) <= 2real * value(x)
            && #[trigger] log10_of::<A>(x, l) && #[trigger] log10_of::<A>(y, k) ==> 100_000real * (size(
            value(k) - value(l),
        ) * value(x)) <= 200_000real * size(value(y) - value(x)) + value(x)
}

// ----- Magnitudes -------------------------------------------------------------

/// A bin of moderate size.
pub open spec fn plain_bin(c: Bin) -> bool {
    c.re.finite() && c.im.finite() && size(value(c.re)) <= 10_000real && size(value(c.im)) <= 10_000real
}

/// The square of a bin's size.
pub open spec fn power(c: Bin) -> real {
    value(c.re) * value(c.re) + value(c.im) * value(c.im)
}

/// The magnitude of a bin is the length of the vector that its parts span.
pub proof fn lemma_magnitude_is_length<A: Arith>(c: Bin, m: Single)
    requires
        accurate::<A>(),
        plain_bin(c),
        magnitude_of::<A>(c, m),
    ensures
        m.finite(),
        value(m) >= 0real,
        500_000real * size(value(m) * value(m) - power(c)) <= power(c) + 1real / 1_000_000real,
{
    let (a, b, s) = choose|a: Single, b: Single, s: Single|
        {
            &&& #[trigger] times_of::<A>(c.re, c.re, a)
            &&& #[trigger] times_of::<A>(c.im, c.im, b)
            &&& #[trigger] plus_of::<A>(a, b, s)
            &&& sqrt_of::<A>(s, m)
        };
    let (x, y) = (value(c.re), value(c.im));
    lemma_product_size(x, x, 10_000real, 10_000real);
    lemma_product_size(y, y, 10_000real, 10_000real);
    lemma_square_is_no_less(x);
    lemma_square_is_no_less(y);
    lemma_product_is_close::<A>(c.re, c.re, a);
    lemma_product_is_close::<A>(c.im, c.im, b);
    lemma_sum_is_close::<A>(a, b, s);
    lemma_squares_keep_sign(x * x, y * y, value(a), value(b), value(s));
    lemma_root_of_power::<A>(s, m, power(c));
}

/// A square is not below zero.
proof fn lemma_square_is_no_less(x: real)
    ensures
        x * x >= 0real,
{
    assert(x * x >= 0real) by (nonlinear_arith);
}

/// The error of a sum of two squares.
proof fn lemma_squares_keep_sign(p: real, q: real, a: real, b: real, s: real)
    requires
        p >= 0real,
        q >= 0real,
        8_000_000real * size(a - p) <= size(p) + 1real / 1_000_000_000_000real,
        8_000_000real * size(b - q) <= size(q) + 1real / 1_000_000_000_000real,
        8_000_000real * size(s - (a + b)) <= size(a + b) + 1real / 1_000_000_000_000real,
    ensures
        2_000_000real * size(s - (p + q)) <= p + q + 1real / 1_000_000_000_000real,
{
}

/// The root of a power, where the power may be a trifle below zero.
proof fn lemma_root_of_power<A: Arith>(s: Single, m: Single, p: real)
    requires
        accurate::<A>(),
        s.finite(),
        0real <= p <= 200_000_000real,
        2_000_000real * size(value(s) - p) <= p + 1real / 1_000_000_000_000real,
        value(s) >= 0real,
        sqrt_of::<A>(s, m),
    ensures
        m.finite(),
        value(m) >= 0real,
        500_000real * size(value(m) * value(m) - p) <= p + 1real / 1_000_000real,
{
    lemma_root_is_close::<A>(s, m);
}

// ----- Means ------------------------------------------------------------------

/// The first `n` of these added up, exactly.
pub open spec fn total(mags: Seq<Single>, n: nat) -> real
    decreases n,
{
    if n == 0 {
        0real
    } else {
        total(mags, (n - 1) as nat) + value(mags[n - 1])
    }
}

/// Magnitudes of moderate size, not too many of them.
pub open spec fn countable(mags: Seq<Single>) -> bool {
    &&& mags.len() <= 8200
    &&& forall|k: int| 0 <= k < mags.len() ==> (#[trigger] mags[k]).finite() && value(mags[k]) >= 0real && value(
        mags[k],
    ) <= 20_000real
}

/// What one more magnitude does to the error of a sum.
proof fn lemma_sum_error_grows(k: real, t: real, s: real, m: real, r: real)
    requires
        0real <= k <= 8200real,
        t >= 0real,
        m >= 0real,
        4_000_000real * size(s - t) <= k * (t + 1real / 1_000_000_000_000real),
        8_000_000real * size(r - (s + m)) <= size(s + m) + 1real / 1_000_000_000_000real,
    ensures
        4_000_000real * size(r - (t + m)) <= (k + 1real) * (t + m + 1real / 1_000_000_000_000real),
{
    let e = 1real / 1_000_000_000_000real;
    lemma_product_rises(t + e, t + m + e, k);
    lemma_product_rises(k, 8200real, t + e);
    lemma_spread(t + m + e, k, 1real, 0real);
    let x = k * (t + e);
    assert(x <= 8200real * (t + e));
    assert(k * (t + m + e) >= x);
    assert((k + 1real) * (t + m + e) == (t + m + e) * k + (t + m + e) * 1real);
    assert((t + m + e) * k == k * (t + m + e)) by {
        lemma_spread(k, t + m + e, 0real, 0real);
    }
}

/// A running sum of magnitudes is close to what they add up to.
proof fn lemma_sum_is_near_total<A: Arith>(mags: Seq<Single>, sums: Seq<Single>, n: nat)
    requires
        accurate::<A>(),
        countable(mags),
        n <= mags.len(),
        sums.len() == mags.len() + 1,
        sums[0] == Single(ZERO),
        forall|k: int| 0 <= k < mags.len() ==> plus_of::<A>(#[trigger] sums[k], mags[k], sums[k + 1]),
    ensures
        sums[n as int].finite(),
        value(sums[n as int]) >= 0real,
        0real <= total(mags, n) <= 20_000real * n as real,
        4_000_000real * size(value(sums[n as int]) - total(mags, n)) <= n as real * (total(mags, n) + 1real
            / 1_000_000_000_000real),
    decreases n,
{
    lemma_values();
    let e = 1real / 1_000_000_000_000real;
    if n == 0 {
        lemma_spread(0real, total(mags, 0) + e, 0real, 0real);
        assert(0real * (total(mags, 0) + e) == 0real) by {
            lemma_product_rises(0real, 0real, total(mags, 0) + e);
            lemma_product_size(0real, total(mags, 0) + e, 0real, 1real);
        }
    } else {
        let i = (n - 1) as nat;
        lemma_sum_is_near_total::<A>(mags, sums, i);
        let (s, m, t) = (value(sums[i as int]), value(mags[i as int]), total(mags, i));
        assert(mags[i as int].finite());
        assert(plus_of::<A>(sums[i as int], mags[i as int], sums[i as int + 1]));
        lemma_product_rises(i as real, 8200real, t + e);
        lemma_sum_is_close::<A>(sums[i as int], mags[i as int], sums[n as int]);
        lemma_sum_error_grows(i as real, t, s, m, value(sums[n as int]));
        assert(n as real == i as real + 1real);
    }
}

/// The computed mean is close to the exact one.
proof fn lemma_mean_error(n: real, t: real, s: real, m: real, r: real)
    requires
        1real <= n <= 8200real,
        t >= 0real,
        m * n == t,
        m >= 0real,
        4_000_000real * size(s - t) <= n * (t + 1real / 1_000_000_000_000real),
        8_000_000real * size(r * n - s) <= size(s) + n / 1_000_000_000_000real,
    ensures
        4_000_000real * size(r - m) <= t + m + 1real / 1_000_000real,
{
    let e = 1real / 1_000_000_000_000real;
    lemma_product_rises(n, 8200real, t + e);
    let k = (t + m + 1real / 1_000_000real) / 4_000_000real;
    let w = t + m + 1real / 1_000_000real;
    assert(w / 4_000_000real * n == w * n / 4_000_000real) by (nonlinear_arith);
    lemma_product_groups_of_mean(t, m, n, e);
    lemma_spread(n, r, m, 0real);
    assert((r - m) * n == r * n - m * n) by {
        lemma_spread(n, r, -m, 0real);
        lemma_spread(n, m, 0real, 0real);
        lemma_spread(n, r, 0real, 0real);
    }
    lemma_divided(r - m, n, k);
}

/// The error of a mean, times the count.
proof fn lemma_product_groups_of_mean(t: real, m: real, n: real, e: real)
    requires
        n >= 1real,
        m * n == t,
        e == 1real / 1_000_000_000_000real,
    ensures
        (t + m + 1real / 1_000_000real) * n == n * (t + e) - n * e + t + n / 1_000_000real,
        n * e == n / 1_000_000_000_000real,
{
    lemma_spread(n, t, e, 0real);
    lemma_spread(n, t, m, 1real / 1_000_000real);
    lemma_spread(n, m, 0real, 0real);
    lemma_spread(n, t, 0real, 0real);
    lemma_spread(n, 1real / 1_000_000real, 0real, 0real);
    assert(n * (1real / 1_000_000_000_000real) == n / 1_000_000_000_000real) by (nonlinear_arith);
    assert(n * (1real / 1_000_000real) == n / 1_000_000real) by (nonlinear_arith);
}

/// The number that the logarithm is taken of, next to a number close to the mean.
proof fn lemma_floor_error(n: real, m: real, r: real, f: real, d: real, x: real)
    requires
        1real <= n <= 8200real,
        0real <= m,
        4_000_000real * size(r - m) <= n * m + m + 1real / 1_000_000real,
        9_999real < 10_000_000_000_000real * d < 10_001real,
        8_000_000real * size(f - (r + d)) <= size(r + d) + 1real / 1_000_000_000_000real,
        1_000_000real * size(x - (m + d)) <= m,
    ensures
        200_000real * size(f - x) <= 6real * (n * x) / 100real + 60real * x,
        2real * f >= x,
        f <= 2real * x,
        20_000_000_000real * f >= 1real,
        20_000_000_000real * x >= 1real,
{
    let y = m + d;
    lemma_spread(n, m, d, 0real);
    lemma_product_rises(0real, d, n);
    lemma_product_rises(n, 8200real, m);
    lemma_product_rises(y - m / 1_000_000real, x, n);
    lemma_spread(n, y, m / 1_000_000real, 0real);
    assert(n * (m / 1_000_000real) == n * m / 1_000_000real) by (nonlinear_arith);
    lemma_product_rises(0real, m, n);
    lemma_product_rises(n, 8200real, x);
}

/// Logarithms of numbers that lie this close.
proof fn lemma_logs_are_close(n: real, x: real, f: real, k: real, l: real)
    requires
        1real <= n <= 8200real,
        x > 0real,
        200_000real * size(f - x) <= 6real * (n * x) / 100real + 60real * x,
        100_000real * (size(k - l) * x) <= 200_000real * size(f - x) + x,
    ensures
        100_000real * size(k - l) <= 6real * n / 100real + 61real,
{
    let z = (6real * n / 100real + 61real) / 100_000real;
    lemma_product_size(k - l, x, size(k - l), x);
    let w = 6real * n / 100real + 61real;
    assert(w / 100_000real * x == w * x / 100_000real) by (nonlinear_arith);
    assert((6real * n / 100real + 61real) * x == 6real * (n * x) / 100real + 61real * x) by (nonlinear_arith);
    lemma_divided(k - l, x, z);
}

/// What one band of a spectrum is described by.
proof fn lemma_described<A: Arith>(
    mags: Seq<Single>,
    sums: Seq<Single>,
    n: usize,
    level: Single,
    concentration: Single,
    x: Single,
    l: Single,
)
    requires
        accurate::<A>(),
        even_logarithms::<A>(),
        countable(mags),
        mags.len() == n,
        n > 0,
        sums.len() == mags.len() + 1,
        sums[0] == Single(ZERO),
        forall|k: int| 0 <= k < mags.len() ==> plus_of::<A>(#[trigger] sums[k], mags[k], sums[k + 1]),
        described_of::<A>(sums.last(), loudest(mags), n, level, concentration),
        positive(x),
        log10_of::<A>(x, l),
        1_000_000real * size(value(x) - (total(mags, n as nat) / n as real + value(Single(ONE_BILLIONTH)))) <= total(
            mags,
            n as nat,
        ) / n as real,
    ensures
        level.finite(),
        100_000real * size(value(level) - 20real * value(l)) <= 2real * n as real + 1300real,
{
    lemma_values();
    let (count, mean, floor) = lemma_level_parts::<A>(sums.last(), loudest(mags), n, level, concentration);
    lemma_sum_is_near_total::<A>(mags, sums, n as nat);
    lemma_count_is_exact::<A>(n, count);
    let (t, s, q) = (total(mags, n as nat), value(sums.last()), n as real);
    let m = t / q;
    lemma_quotient(t, q);
    if m < 0real {
        lemma_product_is_positive(-m, q);
        lemma_spread(q, m, 0real, 0real);
    }
    assert(1real <= q <= 8200real);
    assert(0real <= t <= 20_000real * q);
    lemma_divided(m, q, 20_000real);
    assert(t <= 164_000_000real && size(m) <= 20_000real);
    lemma_product_rises(q, 8200real, t + 1real / 1_000_000_000_000real);
    assert(usual(sums.last()) && usual(count));
    lemma_over::<A>(sums.last(), count, mean);
    lemma_mean_error(q, t, s, m, value(mean));
    lemma_spread(q, m, 0real, 0real);
    lemma_mean_bound(t, m, value(mean));
    lemma_sum_is_close::<A>(mean, Single(ONE_BILLIONTH), floor);
    lemma_floor_error(q, m, value(mean), value(floor), value(Single(ONE_BILLIONTH)), value(x));
    let k = choose|log: Single| #[trigger]
        log10_of::<A>(floor, log) && times_of::<A>(Single(TWENTY), log, level);
    assert(positive(floor));
    lemma_logs_are_close(q, value(x), value(floor), value(k), value(l));
    lemma_product_is_close::<A>(Single(TWENTY), k, level);
}

/// How large a computed mean gets.
proof fn lemma_mean_bound(t: real, m: real, r: real)
    requires
        0real <= t <= 164_000_000real,
        0real <= m <= 20_000real,
        4_000_000real * size(r - m) <= t + m + 1real / 1_000_000real,
    ensures
        -100real <= r <= 30_000real,
{
}

/// The parts that a level comes from.
proof fn lemma_level_parts<A: Arith>(sum: Single, peak: Single, n: usize, level: Single, concentration: Single) -> (parts: (
    Single,
    Single,
    Single,
))
    requires
        described_of::<A>(sum, peak, n, level, concentration),
    ensures
        count_of::<A>(n, parts.0),
        over_of::<A>(sum, parts.0, parts.1),
        plus_of::<A>(parts.1, Single(ONE_BILLIONTH), parts.2),
        decibels_of::<A>(parts.2, level),
{
    let (count, mean, floor, top, ratio, par, over, span, raw) = choose|count: Single, mean: Single, floor: Single, top: Single, ratio: Single, par: Single, over: Single, span: Single, raw: Single|
        {
            &&& #[trigger] count_of::<A>(n, count)
            &&& #[trigger] over_of::<A>(sum, count, mean)
            &&& #[trigger] plus_of::<A>(mean, Single(ONE_BILLIONTH), floor)
            &&& #[trigger] plus_of::<A>(peak, Single(ONE_BILLIONTH), top)
            &&& decibels_of::<A>(floor, level)
            &&& #[trigger] over_of::<A>(top, floor, ratio)
            &&& #[trigger] decibels_of::<A>(ratio, par)
            &&& #[trigger] minus_of::<A>(par, Single(PAR_LOW_DB), over)
            &&& #[trigger] minus_of::<A>(Single(PAR_HIGH_DB), Single(PAR_LOW_DB), span)
            &&& #[trigger] over_of::<A>(over, span, raw)
            &&& concentration == raw.held(Single(ZERO), Single(ONE))
        };
    (count, mean, floor)
}

// ----- Levels -----------------------------------------------------------------

/// The bins of band `b`.
pub open spec fn bins_of_band(bins: Seq<Bin>, layout: BandLayout, b: int) -> (int, int) {
    (layout.bin_lo@[b] as int, last_bin(layout.bin_hi@[b] as int, bins.len() as int))
}

/// The magnitudes of the bins of a band, one for each.
pub open spec fn lengths_of(bins: Seq<Bin>, lo: int, mags: Seq<Single>) -> bool {
    forall|k: int|
        0 <= k < mags.len() ==> (#[trigger] mags[k]).finite() && value(mags[k]) >= 0real && 500_000real * size(
            value(mags[k]) * value(mags[k]) - power(bins[lo + k]),
        ) <= power(bins[lo + k]) + 1real / 1_000_000real
}

/// The level of a band is 20 times the logarithm of the mean length of its bins and a
/// thousand-millionth: next to the logarithm `l` of a number `x` that close, it is off by
/// no more than a few thousandths of a dB and the rounding of the sum.
pub proof fn lemma_level_is_of_mean<A: Arith>(
    bins: Seq<Bin>,
    layout: BandLayout,
    b: int,
    level: Single,
    concentration: Single,
) -> (mags: Seq<Single>)
    requires
        accurate::<A>(),
        even_logarithms::<A>(),
        band_described_of::<A>(bins, layout, b, level, concentration),
        0 <= bins_of_band(bins, layout, b).0 <= bins_of_band(bins, layout, b).1 < bins.len(),
        bins.len() <= 8200,
        forall|k: int| 0 <= k < bins.len() ==> plain_bin(#[trigger] bins[k]),
    ensures
        mags.len() == bins_of_band(bins, layout, b).1 - bins_of_band(bins, layout, b).0 + 1,
        lengths_of(bins, bins_of_band(bins, layout, b).0, mags),
        forall|x: Single, l: Single|
            positive(x) && #[trigger] log10_of::<A>(x, l) && 1_000_000real * size(
                value(x) - (total(mags, mags.len()) / mags.len() as real + value(Single(ONE_BILLIONTH))),
            ) <= total(mags, mags.len()) / mags.len() as real ==> level.finite() && 100_000real * size(
                value(level) - 20real * value(l),
            ) <= 2real * mags.len() as real + 1300real,
{
    let (lo, hi) = bins_of_band(bins, layout, b);
    let (mags, sums) = choose|mags: Seq<Single>, sums: Seq<Single>|
        {
            &&& #[trigger] magnitudes_of::<A>(bins, lo, mags, sums)
            &&& mags.len() == hi - lo + 1
            &&& described_of::<A>(
                sums.last(),
                loudest(mags),
                (hi - lo + 1) as usize,
                level,
                concentration,
            )
        };
    assert forall|k: int| 0 <= k < mags.len() implies (#[trigger] mags[k]).finite() && value(mags[k]) >= 0real
        && value(mags[k]) <= 20_000real && 500_000real * size(
        value(mags[k]) * value(mags[k]) - power(bins[lo + k]),
    ) <= power(bins[lo + k]) + 1real / 1_000_000real by {
        assert(magnitude_of::<A>(bins[lo + k], mags[k]));
        assert(plain_bin(bins[lo + k]));
        lemma_magnitude_is_length::<A>(bins[lo + k], mags[k]);
        lemma_length_bound(bins[lo + k], value(mags[k]));
    }
    assert forall|k: int| 0 <= k < mags.len() implies plus_of::<A>(#[trigger] sums[k], mags[k], sums[k + 1]) by {
        assert(magnitude_of::<A>(bins[lo + k], mags[k]));
    }
    let n = (hi - lo + 1) as usize;
    assert forall|x: Single, l: Single|
        positive(x) && #[trigger] log10_of::<A>(x, l) && 1_000_000real * size(
            value(x) - (total(mags, mags.len()) / mags.len() as real + value(Single(ONE_BILLIONTH))),
        ) <= total(mags, mags.len()) / mags.len() as real implies level.finite() && 100_000real * size(
        value(level) - 20real * value(l),
    ) <= 2real * mags.len() as real + 1300real by {
        lemma_described::<A>(mags, sums, n, level, concentration, x, l);
    }
    mags
}

/// A length is no larger than its parts allow.
proof fn lemma_length_bound(c: Bin, m: real)
    requires
        plain_bin(c),
        m >= 0real,
        500_000real * size(m * m - power(c)) <= power(c) + 1real / 1_000_000real,
    ensures
        m <= 20_000real,
{
    lemma_product_size(value(c.re), value(c.re), 10_000real, 10_000real);
    lemma_product_size(value(c.im), value(c.im), 10_000real, 10_000real);
    if m > 20_000real {
        lemma_product_rises(20_000real, m, m);
    }
}

/// A band whose bins all have the length `m` has the mean `m`.
pub proof fn lemma_even_band_has_its_mean(mags: Seq<Single>, n: nat, m: real)
    requires
        n <= mags.len(),
        forall|k: int| 0 <= k < mags.len() ==> value(#[trigger] mags[k]) == m,
    ensures
        total(mags, n) == n as real * m,
        n > 0 ==> total(mags, n) / n as real == m,
    decreases n,
{
    lemma_spread(m, n as real, 0real, 0real);
    if n > 0 {
        lemma_even_band_has_its_mean(mags, (n - 1) as nat, m);
        assert(value(mags[n - 1]) == m);
        let k = (n - 1) as real;
        assert(n as real == k + 1real);
        lemma_spread(m, k, 1real, 0real);
        lemma_spread(m, k, 0real, 0real);
        lemma_quotient(total(mags, n), n as real);
        let z = total(mags, n) / n as real - m;
        lemma_spread(n as real, z + m, m, 0real);
        lemma_spread(n as real, m, 0real, 0real);
        lemma_spread(n as real, z + m, 0real, 0real);
        lemma_spread(n as real, z, m, 0real);
        lemma_divided(z, n as real, 0real);
    } else {
        assert(0real * m == 0real) by {
            lemma_product_size(0real, m, 0real, size(m));
        }
    }
}

} // verus!
