//! The patterns of the numbers that the library's rules are written in.

use vstd::prelude::*;
use vstd::arithmetic::power2::{lemma2_to64, lemma_pow2_adds, lemma_pow2_pos, pow2};
use vstd::arithmetic::div_mod::lemma_fundamental_div_mod_converse;
use crate::single::{lemma_magnitude_orders, rounded_units, Single};

verus! {

/// `0`.
pub const ZERO: u32 = 0x0000_0000;
/// `1e-9`.
pub const ONE_BILLIONTH: u32 = 0x3089_705f;
/// `1e-6`.
pub const ONE_MILLIONTH: u32 = 0x3586_37bd;
/// `1e-4`.
pub const ONE_TEN_THOUSANDTH: u32 = 0x38d1_b717;
/// `1e-3`.
pub const ONE_THOUSANDTH: u32 = 0x3a83_126f;
/// `0.1`.
pub const TENTH: u32 = 0x3dcc_cccd;
/// `0.25`.
pub const QUARTER: u32 = 0x3e80_0000;
/// `0.3`.
pub const THREE_TENTHS: u32 = 0x3e99_999a;
/// `0.33`.
pub const THIRTY_THREE_HUNDREDTHS: u32 = 0x3ea8_f5c3;
/// `0.5`.
pub const HALF: u32 = 0x3f00_0000;
/// `0.75`.
pub const THREE_QUARTERS: u32 = 0x3f40_0000;
/// `1`.
pub const ONE: u32 = 0x3f80_0000;
/// `2`.
pub const TWO: u32 = 0x4000_0000;
/// `3`.
pub const THREE: u32 = 0x4040_0000;
/// `5`.
pub const FIVE: u32 = 0x40a0_0000;
/// `6`.
pub const SIX: u32 = 0x40c0_0000;
/// `10`.
pub const TEN: u32 = 0x4120_0000;
/// `12`.
pub const TWELVE: u32 = 0x4140_0000;
/// `18`.
pub const EIGHTEEN: u32 = 0x4190_0000;
/// `20`.
pub const TWENTY: u32 = 0x41a0_0000;
/// `36`.
pub const THIRTY_SIX: u32 = 0x4210_0000;
/// `40`.
pub const FORTY: u32 = 0x4220_0000;
/// `50`.
pub const FIFTY: u32 = 0x4248_0000;
/// `100`.
pub const HUNDRED: u32 = 0x42c8_0000;
/// `500`.
pub const FIVE_HUNDRED: u32 = 0x43fa_0000;
/// `1000`.
pub const THOUSAND: u32 = 0x447a_0000;
/// `20000`.
pub const TWENTY_THOUSAND: u32 = 0x469c_4000;
/// `-0.5`.
pub const MINUS_HALF: u32 = 0xbf00_0000;
/// `-1`.
pub const MINUS_ONE: u32 = 0xbf80_0000;
/// `-2`.
pub const MINUS_TWO: u32 = 0xc000_0000;
/// `-12`.
pub const MINUS_TWELVE: u32 = 0xc140_0000;
/// `-20`.
pub const MINUS_TWENTY: u32 = 0xc1a0_0000;
/// The ratio of a circle's circumference to its diameter.
pub const PI: u32 = 0x4049_0fdb;
/// Twice [`PI`].
pub const TWO_PI: u32 = 0x40c9_0fdb;
/// The natural logarithm of 2.
pub const LN_2: u32 = 0x3f31_7218;

/// The patterns of small integers stand for those integers.
pub proof fn lemma_small_integers()
    ensures
        Single(ZERO).int_near() == 0,
        Single(ONE).int_near() == 1,
        Single(TWO).int_near() == 2,
        Single(THREE).int_near() == 3,
{
    let unit = pow2(149);
    let half = pow2(148);
    lemma2_to64();
    lemma_pow2_pos(148);
    lemma_pow2_adds(1, 148);
    lemma_pow2_adds(23, 126);
    lemma_pow2_adds(1, 126);
    assert(unit == 2 * half);
    assert(Single(ONE).magnitude() == unit);
    assert(Single(TWO).magnitude() == 2 * unit) by {
        assert(0x80_0000 * pow2(127) == 2 * (0x80_0000 * pow2(126))) by (nonlinear_arith)
            requires
                pow2(127) == 2 * pow2(126),
        ;
    }
    assert(Single(THREE).magnitude() == 3 * unit) by {
        assert(pow2(127) == 2 * pow2(126));
        assert(0xc0_0000 * pow2(127) == 3 * (0x80_0000 * pow2(126))) by (nonlinear_arith)
            requires
                pow2(127) == 2 * pow2(126),
        ;
    }
    lemma_fundamental_div_mod_converse(half as int, unit as int, 0, half as int);
    lemma_fundamental_div_mod_converse((unit + half) as int, unit as int, 1, half as int);
    lemma_fundamental_div_mod_converse((2 * unit + half) as int, unit as int, 2, half as int);
    lemma_fundamental_div_mod_converse((3 * unit + half) as int, unit as int, 3, half as int);
    assert(rounded_units(0) == 0);
    assert(rounded_units(unit) == 1);
    assert(rounded_units((2 * unit) as nat) == 2);
    assert(rounded_units((3 * unit) as nat) == 3);
}

/// One half lies between zero and one.
pub proof fn lemma_half_between()
    ensures
        Single(HALF).below(Single(ONE)),
        Single(ZERO).below(Single(HALF)),
{
    lemma_magnitude_orders(Single(HALF), Single(ONE));
    lemma_magnitude_orders(Single(ZERO), Single(HALF));
}

} // verus!
