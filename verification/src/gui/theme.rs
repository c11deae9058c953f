//! Colors.

use vstd::prelude::*;
use crate::arith::{count_of, minus_of, over_of, plus_of, pow_of, times_of, Arith};
use crate::dsp::detector::follow_of;
use crate::numbers::{HALF, ONE, SIX, TWO, ZERO};
use crate::params::ParamKey;
use crate::single::Single;

verus! {

/// A color without transparency.
#[derive(Clone, Copy, PartialEq, Eq, Structural, Debug)]
pub struct Rgb {
    pub r: u8,
    pub g: u8,
    pub b: u8,
}

/// The colors of the editor.
#[derive(Clone, Copy, PartialEq, Eq, Structural, Debug)]
pub struct Theme {
    pub bg_page: Rgb,
    pub card: Rgb,
    pub border: Rgb,
    pub text: Rgb,
    pub text_dim: Rgb,
    pub cyan: Rgb,
    pub cyan_track: Rgb,
    pub violet: Rgb,
    pub grid: Rgb,
    pub shape: Rgb,
    pub pill_bg: Rgb,
}

/// A color by its parts.
pub open spec fn rgb(r: u8, g: u8, b: u8) -> Rgb {
    Rgb { r, g, b }
}

/// Dark text on a bright page.
pub open spec fn light_theme() -> Theme {
    Theme {
        bg_page: rgb(238, 242, 248),
        card: rgb(255, 255, 255),
        border: rgb(226, 232, 240),
        text: rgb(30, 37, 50),
        text_dim: rgb(107, 118, 137),
        cyan: rgb(10, 196, 182),
        cyan_track: rgb(225, 231, 240),
        violet: rgb(139, 92, 255),
        grid: rgb(234, 239, 245),
        shape: rgb(180, 160, 120),
        pill_bg: rgb(225, 231, 240),
    }
}

/// Bright text on a deep page.
pub open spec fn dark_theme() -> Theme {
    Theme {
        bg_page: rgb(15, 18, 26),
        card: rgb(26, 30, 43),
        border: rgb(47, 55, 76),
        text: rgb(232, 236, 244),
        text_dim: rgb(148, 158, 178),
        cyan: rgb(10, 196, 182),
        cyan_track: rgb(47, 55, 76),
        violet: rgb(139, 92, 255),
        grid: rgb(38, 44, 60),
        shape: rgb(180, 160, 120),
        pill_bg: rgb(47, 55, 76),
    }
}

impl Rgb {
    /// A color by its parts.
    pub fn new(r: u8, g: u8, b: u8) -> (c: Self)
        ensures
            c == rgb(r, g, b),
    {
        Rgb { r, g, b }
    }
}

/// Below this a part of a color is on the straight piece of its curve, `0.04045`.
pub const LINEAR_END: u32 = 0x3d25_aee6;
/// Slope of the straight piece, `12.92`.
pub const LINEAR_SLOPE: u32 = 0x414e_b852;
/// Offset of the curved piece, `0.055`.
pub const CURVE_OFFSET: u32 = 0x3d61_47ae;
/// Scale of the curved piece, `1.055`.
pub const CURVE_SCALE: u32 = 0x3f87_0a3d;
/// Exponent of the curved piece, `2.4`.
pub const CURVE_POWER: u32 = 0x4019_999a;
/// Largest value of a part, `255`.
pub const FULL_PART: u32 = 0x437f_0000;
/// Share of red in luminance, `0.2126`.
pub const RED_SHARE: u32 = 0x3e59_b3d0;
/// Share of green in luminance, `0.7152`.
pub const GREEN_SHARE: u32 = 0x3f37_1759;
/// Share of blue in luminance, `0.0722`.
pub const BLUE_SHARE: u32 = 0x3d93_dd98;

/// `r` is how much light a part of a color stands for.
pub open spec fn light_of<A: Arith>(part: u8, r: Single) -> bool {
    exists|n: Single, s: Single|
        {
            &&& #[trigger] count_of::<A>(part as usize, n)
            &&& #[trigger] over_of::<A>(n, Single(FULL_PART), s)
            &&& if s.at_most(Single(LINEAR_END)) {
                over_of::<A>(s, Single(LINEAR_SLOPE), r)
            } else {
                exists|up: Single, base: Single|
                    {
                        &&& #[trigger] plus_of::<A>(s, Single(CURVE_OFFSET), up)
                        &&& #[trigger] over_of::<A>(up, Single(CURVE_SCALE), base)
                        &&& pow_of::<A>(base, Single(CURVE_POWER), r)
                    }
            }
        }
}

fn light<A: Arith>(part: u8) -> (r: Single)
    ensures
        light_of::<A>(part, r),
{
    let s = A::over(A::of_count(part as usize), Single(FULL_PART));
    if s.le(Single(LINEAR_END)) {
        A::over(s, Single(LINEAR_SLOPE))
    } else {
        A::pow(A::over(A::plus(s, Single(CURVE_OFFSET)), Single(CURVE_SCALE)), Single(CURVE_POWER))
    }
}

/// `r` is the relative luminance of a color.
pub open spec fn luminance_of<A: Arith>(c: Rgb, r: Single) -> bool {
    exists|lr: Single, lg: Single, lb: Single, pr: Single, pg: Single, pb: Single, rg: Single|
        {
            &&& #[trigger] light_of::<A>(c.r, lr)
            &&& #[trigger] light_of::<A>(c.g, lg)
            &&& #[trigger] light_of::<A>(c.b, lb)
            &&& #[trigger] times_of::<A>(Single(RED_SHARE), lr, pr)
            &&& #[trigger] times_of::<A>(Single(GREEN_SHARE), lg, pg)
            &&& #[trigger] times_of::<A>(Single(BLUE_SHARE), lb, pb)
            &&& #[trigger] plus_of::<A>(pr, pg, rg)
            &&& plus_of::<A>(rg, pb, r)
        }
}

impl Theme {
    /// Dark text on a bright page.
    pub fn light() -> (t: Self)
        ensures
            t == light_theme(),
    {
        Theme {
            bg_page: Rgb::new(238, 242, 248),
            card: Rgb::new(255, 255, 255),
            border: Rgb::new(226, 232, 240),
            text: Rgb::new(30, 37, 50),
            text_dim: Rgb::new(107, 118, 137),
            cyan: Rgb::new(10, 196, 182),
            cyan_track: Rgb::new(225, 231, 240),
            violet: Rgb::new(139, 92, 255),
            grid: Rgb::new(234, 239, 245),
            shape: Rgb::new(180, 160, 120),
            pill_bg: Rgb::new(225, 231, 240),
        }
    }

    /// Bright text on a deep page.
    pub fn dark() -> (t: Self)
        ensures
            t == dark_theme(),
    {
        Theme {
            bg_page: Rgb::new(15, 18, 26),
            card: Rgb::new(26, 30, 43),
            border: Rgb::new(47, 55, 76),
            text: Rgb::new(232, 236, 244),
            text_dim: Rgb::new(148, 158, 178),
            cyan: Rgb::new(10, 196, 182),
            cyan_track: Rgb::new(47, 55, 76),
            violet: Rgb::new(139, 92, 255),
            grid: Rgb::new(38, 44, 60),
            shape: Rgb::new(180, 160, 120),
            pill_bg: Rgb::new(47, 55, 76),
        }
    }

    /// The theme in force.
    pub fn active(dark_mode: bool) -> (t: Self)
        ensures
            t == if dark_mode {
                dark_theme()
            } else {
                light_theme()
            },
    {
        if dark_mode {
            Theme::dark()
        } else {
            Theme::light()
        }
    }

    /// The relative luminance of a color, from 0 for black to 1 for white.
    pub fn luminance<A: Arith>(c: Rgb) -> (r: Single)
        ensures
            luminance_of::<A>(c, r),
    {
        let lr = light::<A>(c.r);
        let lg = light::<A>(c.g);
        let lb = light::<A>(c.b);
        let pr = A::times(Single(RED_SHARE), lr);
        let pg = A::times(Single(GREEN_SHARE), lg);
        let pb = A::times(Single(BLUE_SHARE), lb);
        A::plus(A::plus(pr, pg), pb)
    }
}

/// Both themes speak the same language of signals; only surfaces and texts turn.
pub proof fn lemma_themes_share_signals()
    ensures
        light_theme().cyan == dark_theme().cyan,
        light_theme().violet == dark_theme().violet,
        light_theme().shape == dark_theme().shape,
        light_theme().card != dark_theme().card,
        light_theme().bg_page != dark_theme().bg_page,
        light_theme().text != dark_theme().text,
{
}

// ----- Node handles -----------------------------------------------------------

/// `r` lies the share `k` of the way from one part of a color to another.
pub open spec fn part_between_of<A: Arith>(from: u8, to: u8, k: Single, r: u8) -> bool {
    exists|f: Single, t: Single, x: Single|
        {
            &&& #[trigger] count_of::<A>(from as usize, f)
            &&& #[trigger] count_of::<A>(to as usize, t)
            &&& #[trigger] follow_of::<A>(f, t, k, x)
            &&& r == x.byte_part()
        }
}

fn part_between<A: Arith>(from: u8, to: u8, k: Single) -> (r: u8)
    ensures
        part_between_of::<A>(from, to, k, r),
{
    let f = A::of_count(from as usize);
    let t = A::of_count(to as usize);
    let x = A::plus(f, A::times(A::minus(t, f), k));
    assert(follow_of::<A>(f, t, k, x));
    x.whole_byte()
}

/// `r` lies the share `k` of the way from one color to another.
pub open spec fn between_of<A: Arith>(from: Rgb, to: Rgb, k: Single, r: Rgb) -> bool {
    &&& part_between_of::<A>(from.r, to.r, k, r.r)
    &&& part_between_of::<A>(from.g, to.g, k, r.g)
    &&& part_between_of::<A>(from.b, to.b, k, r.b)
}

/// `t` is how far along its colors a reduction by `gr_db` is: all the way at 6 dB.
pub open spec fn tint_share_of<A: Arith>(gr_db: Single, t: Single) -> bool {
    exists|raw: Single| #[trigger]
        over_of::<A>(gr_db, Single(SIX), raw) && t == raw.held(Single(ZERO), Single(ONE))
}

/// How far along its colors a reduction by `gr_db` is.
pub fn tint_share<A: Arith>(gr_db: Single) -> (t: Single)
    ensures
        tint_share_of::<A>(gr_db, t),
{
    A::over(gr_db, Single(SIX)).clamp(Single(ZERO), Single(ONE))
}

/// `r` is the color of a handle under a reduction by `gr_db`: from `base` over
/// cyan to violet.
pub open spec fn tint_of<A: Arith>(base: Rgb, gr_db: Single, r: Rgb) -> bool {
    exists|t: Single| #[trigger]
        tint_share_of::<A>(gr_db, t) && if t.at_most(Single(HALF)) {
            exists|k: Single| #[trigger]
                times_of::<A>(t, Single(TWO), k) && between_of::<A>(base, rgb(10, 196, 182), k, r)
        } else {
            exists|past: Single, k: Single|
                {
                    &&& #[trigger] minus_of::<A>(t, Single(HALF), past)
                    &&& #[trigger] times_of::<A>(past, Single(TWO), k)
                    &&& between_of::<A>(rgb(10, 196, 182), rgb(139, 92, 255), k, r)
                }
        }
}

/// The color of a handle under a reduction by `gr_db`.
pub fn gr_tint<A: Arith>(base: Rgb, gr_db: Single) -> (r: Rgb)
    ensures
        tint_of::<A>(base, gr_db, r),
{
    let t = tint_share::<A>(gr_db);
    let cyan = Rgb::new(10, 196, 182);
    if t.le(Single(HALF)) {
        let k = A::times(t, Single(TWO));
        Rgb {
            r: part_between::<A>(base.r, cyan.r, k),
            g: part_between::<A>(base.g, cyan.g, k),
            b: part_between::<A>(base.b, cyan.b, k),
        }
    } else {
        let violet = Rgb::new(139, 92, 255);
        let k = A::times(A::minus(t, Single(HALF)), Single(TWO));
        Rgb {
            r: part_between::<A>(cyan.r, violet.r, k),
            g: part_between::<A>(cyan.g, violet.g, k),
            b: part_between::<A>(cyan.b, violet.b, k),
        }
    }
}

// ----- Toggle -----------------------------------------------------------------

/// How a toggle between soft and hard looks.
#[derive(Clone, Copy, PartialEq, Eq, Structural, Debug)]
pub struct Pill {
    /// The soft side is lit, else the hard one.
    pub soft_lit: bool,
    pub soft_text: Rgb,
    pub hard_text: Rgb,
    /// What a click makes of the value.
    pub clicked: bool,
}

/// How the toggle of a switch looks, with the lit side written in white. Soft mode
/// lights the soft side where it is on; any other switch lights the hard side where
/// it is on.
pub fn pill_toggle(key: ParamKey, value: bool, theme: &Theme) -> (p: Pill)
    ensures
        p.soft_lit == if key is SoftMode {
            value
        } else {
            !value
        },
        p.soft_text == if p.soft_lit {
            rgb(255, 255, 255)
        } else {
            theme.text_dim
        },
        p.hard_text == if p.soft_lit {
            theme.text_dim
        } else {
            rgb(255, 255, 255)
        },
        p.clicked == !value,
{
    let white = Rgb::new(255, 255, 255);
    let soft_lit = match key {
        ParamKey::SoftMode => value,
        _ => !value,
    };
    Pill {
        soft_lit,
        soft_text: if soft_lit {
            white
        } else {
            theme.text_dim
        },
        hard_text: if soft_lit {
            theme.text_dim
        } else {
            white
        },
        clicked: !value,
    }
}

} // verus!
