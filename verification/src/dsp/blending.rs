//! What mix, delta and fade make of a signal.
//!
//! The laws here hold for every arithmetic that is accurate.

use vstd::prelude::*;
use crate::arith::{count_of, minus_of, over_of, plus_of, times_of, Arith};
use crate::dsp::suppressor::{fade_gain_of, faded_of, io_of, CROSSFADE_LEN};
use crate::exact::{
    accurate, lemma_count_is_exact, lemma_difference_is_close, lemma_error_scales, lemma_product_is_close,
    lemma_product_size, lemma_quotient_is_close, lemma_sum_is_close, lemma_values, size, usual, value,
};
use crate::numbers::ONE;
use crate::single::Single;

verus! {

/// A sample of no more than a hundred million.
pub open spec fn sample(x: Single) -> bool {
    x.finite() && size(value(x)) <= 100_000_000real
}

/// A share from nothing to all.
pub open spec fn share(x: Single) -> bool {
    x.finite() && 0real <= value(x) <= 1real
}

/// The mix lies its share of the way from the dry signal to the wet one, whatever the
/// share, but for a few millionths of the two: nothing but the dry signal at 0, nothing
/// but the wet one at 1, half of each at a half.
pub proof fn lemma_mix_blends<A: Arith>(dry: Single, wet: Single, mix: Single, r: Single)
    requires
        accurate::<A>(),
        sample(dry),
        sample(wet),
        share(mix),
        io_of::<A>(dry, wet, mix, false, r),
    ensures
        r.finite(),
        1_000_000real * size(value(r) - (value(dry) + value(mix) * (value(wet) - value(dry)))) <= size(value(dry))
            + size(value(wet)) + 1real / 1_000_000real,
{
    lemma_values();
    let (rest, p, q) = choose|rest: Single, p: Single, q: Single|
        {
            &&& #[trigger] minus_of::<A>(Single(ONE), mix, rest)
            &&& #[trigger] times_of::<A>(dry, rest, p)
            &&& #[trigger] times_of::<A>(wet, mix, q)
            &&& plus_of::<A>(p, q, r)
        };
    let (d, w, m) = (value(dry), value(wet), value(mix));
    let left = 1real - m;
    assert(Single(ONE).finite() && usual(Single(ONE)) && usual(mix));
    lemma_difference_is_close::<A>(Single(ONE), mix, rest);
    lemma_error_scales(d, value(rest), left, 1real / 7_000_000real);
    lemma_product_size(d, value(rest), size(d), 2real);
    lemma_product_size(d, left, size(d), 1real);
    lemma_product_size(w, m, size(w), 1real);
    lemma_product_is_close::<A>(dry, rest, p);
    lemma_product_is_close::<A>(wet, mix, q);
    lemma_sum_is_close::<A>(p, q, r);
    assert(d + m * (w - d) == d * left + w * m) by (nonlinear_arith)
        requires
            left == 1real - m,
    ;
}

/// Where the dry and the wet signal agree, so does every mix of them; and no mix lies
/// beyond the two, but for a few millionths.
pub proof fn lemma_mix_stays_between<A: Arith>(dry: Single, wet: Single, mix: Single, r: Single)
    requires
        accurate::<A>(),
        sample(dry),
        sample(wet),
        share(mix),
        value(dry) <= value(wet),
        io_of::<A>(dry, wet, mix, false, r) || io_of::<A>(wet, dry, mix, false, r),
    ensures
        1_000_000real * (value(dry) - value(r)) <= size(value(dry)) + size(value(wet)) + 1real / 1_000_000real,
        1_000_000real * (value(r) - value(wet)) <= size(value(dry)) + size(value(wet)) + 1real / 1_000_000real,
{
    let (d, w, m) = (value(dry), value(wet), value(mix));
    assert(0real <= m * (w - d) <= w - d && d - w <= m * (d - w) <= 0real) by (nonlinear_arith)
        requires
            d <= w,
            0real <= m <= 1real,
    ;
    if io_of::<A>(dry, wet, mix, false, r) {
        lemma_mix_blends::<A>(dry, wet, mix, r);
    } else {
        lemma_mix_blends::<A>(wet, dry, mix, r);
    }
}

/// Delta is what was taken out, whatever the mix.
pub proof fn lemma_delta_is_what_was_taken<A: Arith>(dry: Single, wet: Single, mix: Single, r: Single)
    requires
        accurate::<A>(),
        sample(dry),
        sample(wet),
        io_of::<A>(dry, wet, mix, true, r),
    ensures
        r.finite(),
        1_000_000real * size(value(r) - (value(dry) - value(wet))) <= size(value(dry)) + size(value(wet)) + 1real
            / 1_000_000real,
{
    lemma_difference_is_close::<A>(dry, wet, r);
}

/// A fade raises the signal evenly from silence: with `remaining` samples to go, this one
/// comes at the share of the fade that is over once it is played.
pub proof fn lemma_fade_rises_evenly<A: Arith>(remaining: usize, x: Single, r: Single)
    requires
        accurate::<A>(),
        sample(x),
        remaining <= CROSSFADE_LEN,
        faded_of::<A>(remaining, x, r),
    ensures
        r.finite(),
        remaining == 0 ==> r == x,
        remaining > 0 ==> 1_000_000real * size(512real * value(r) - (513 - remaining) as real * value(x)) <= 512real
            * size(value(x)) + 1real / 1_000_000real,
{
    lemma_values();
    if remaining > 0 {
        let g = choose|g: Single| #[trigger]
            fade_gain_of::<A>((remaining - 1) as usize, g) && times_of::<A>(x, g, r);
        let (a, b, part) = choose|a: Single, b: Single, share: Single|
            {
                &&& #[trigger] count_of::<A>((remaining - 1) as usize, a)
                &&& #[trigger] count_of::<A>(CROSSFADE_LEN, b)
                &&& #[trigger] over_of::<A>(a, b, share)
                &&& minus_of::<A>(Single(ONE), share, g)
            };
        let n = (remaining - 1) as real;
        lemma_count_is_exact::<A>((remaining - 1) as usize, a);
        lemma_count_is_exact::<A>(CROSSFADE_LEN, b);
        assert(value(a) == n && value(b) == 512real);
        assert(0real <= n <= 511real);
        assert(usual(a) && usual(b));
        let part_exact = n / 512real;
        lemma_quotient_is_close::<A>(a, b, part);
        assert(value(a) / value(b) == part_exact);
        assert(0real <= part_exact < 1real);
        assert(Single(ONE).finite() && usual(Single(ONE)) && usual(part));
        lemma_difference_is_close::<A>(Single(ONE), part, g);
        let left = 1real - part_exact;
        lemma_error_scales(value(x), value(g), left, 1real / 3_000_000real);
        lemma_product_size(value(x), value(g), size(value(x)), 2real);
        lemma_product_is_close::<A>(x, g, r);
        let v = value(x);
        let k = (513 - remaining) as real;
        assert(k == 512real - n);
        assert(512real * (v * left) == k * v) by (nonlinear_arith)
            requires
                left == 1real - n / 512real,
                k == 512real - n,
        ;
    }
}

} // verus!
