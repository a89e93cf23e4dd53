//! Colors and coverage-driven channel blending.
//!
//! A rasterizer reports, for each touched pixel, how much of it the glyph's
//! filled area covers, as a fraction in `[0, 1]`. Blending paints such a pixel
//! with `foreground * t + background * (1 - t)`, truncated per channel to an
//! 8-bit value. Coverage is carried as an exact fraction `num / den`, so the
//! blend is the exact floor of that expression.

use vstd::arithmetic::div_mod::{lemma_div_is_ordered, lemma_div_multiples_vanish};
use vstd::prelude::*;

verus! {

/// An 8-bit-per-channel RGB color.
#[derive(Clone, Copy, PartialEq, Eq, Structural, Debug)]
pub struct Color {
    pub r: u8,
    pub g: u8,
    pub b: u8,
}

/// A pixel coverage fraction `num / den`.
#[derive(Clone, Copy, PartialEq, Eq, Structural, Debug)]
pub struct Coverage {
    pub num: u32,
    pub den: u32,
}

impl Coverage {
    /// A coverage value is a fraction in `[0, 1]`: a positive denominator and
    /// a numerator no larger than it.
    pub open spec fn valid(self) -> bool {
        0 < self.den && self.num <= self.den
    }
}

/// One blended channel: the exact truncation (floor) of
/// `fg * t + bg * (1 - t)` where `t` is the fraction `num / den`.
pub open spec fn blend_channel_spec(fg: u8, bg: u8, num: int, den: int) -> int
    recommends
        0 < den,
        0 <= num <= den,
{
    (fg * num + bg * (den - num)) / den
}

/// The blended color, channel by channel.
pub open spec fn blend_spec(fg: Color, bg: Color, num: int, den: int) -> Color {
    Color {
        r: blend_channel_spec(fg.r, bg.r, num, den) as u8,
        g: blend_channel_spec(fg.g, bg.g, num, den) as u8,
        b: blend_channel_spec(fg.b, bg.b, num, den) as u8,
    }
}

/// A blended channel never leaves the interval spanned by its foreground and
/// background values; in particular it always fits in 8 bits.
pub proof fn lemma_blend_channel_bounds(fg: u8, bg: u8, num: int, den: int)
    requires
        0 < den,
        0 <= num <= den,
    ensures
        blend_channel_spec(fg, bg, num, den) >= if fg <= bg {
            fg as int
        } else {
            bg as int
        },
        blend_channel_spec(fg, bg, num, den) <= if fg <= bg {
            bg as int
        } else {
            fg as int
        },
        0 <= blend_channel_spec(fg, bg, num, den) <= 255,
{
    let lo: int = if fg <= bg {
        fg as int
    } else {
        bg as int
    };
    let hi: int = if fg <= bg {
        bg as int
    } else {
        fg as int
    };
    let s = fg * num + bg * (den - num);
    assert(lo * den <= s && s <= hi * den) by (nonlinear_arith)
        requires
            0 < den,
            0 <= num <= den,
            lo <= fg as int <= hi,
            lo <= bg as int <= hi,
            s == fg * num + bg * (den - num),
    {}
    lemma_div_is_ordered(lo * den, s, den);
    lemma_div_is_ordered(s, hi * den, den);
    lemma_div_multiples_vanish(lo, den);
    lemma_div_multiples_vanish(hi, den);
    assert(den * lo == lo * den) by (nonlinear_arith) {}
    assert(den * hi == hi * den) by (nonlinear_arith) {}
}

/// Full coverage paints pure foreground: `t == 1` gives back `fg` exactly.
pub proof fn lemma_blend_channel_full(fg: u8, bg: u8, den: int)
    requires
        0 < den,
    ensures
        blend_channel_spec(fg, bg, den, den) == fg as int,
{
    assert(fg * den + bg * (den - den) == den * (fg as int)) by (nonlinear_arith) {}
    lemma_div_multiples_vanish(fg as int, den);
}

/// Zero coverage leaves pure background: `t == 0` gives back `bg` exactly.
pub proof fn lemma_blend_channel_zero(fg: u8, bg: u8, den: int)
    requires
        0 < den,
    ensures
        blend_channel_spec(fg, bg, 0, den) == bg as int,
{
    assert(fg * 0 + bg * (den - 0) == den * (bg as int)) by (nonlinear_arith) {}
    lemma_div_multiples_vanish(bg as int, den);
}

/// Blend one channel of a foreground over a background at the given coverage.
pub fn blend_channel(fg: u8, bg: u8, cov: Coverage) -> (r: u8)
    requires
        cov.valid(),
    ensures
        r as int == blend_channel_spec(fg, bg, cov.num as int, cov.den as int),
{
    let num = cov.num as u64;
    let den = cov.den as u64;
    assert(fg as u64 * num <= 255 * 0xffff_ffffu64 && bg as u64 * (den - num) <= 255
        * 0xffff_ffffu64) by (nonlinear_arith)
        requires
            fg <= 255,
            bg <= 255,
            num <= 0xffff_ffffu64,
            num <= den <= 0xffff_ffffu64,
    {}
    let weighted = fg as u64 * num + bg as u64 * (den - num);
    let q = weighted / den;
    proof {
        lemma_blend_channel_bounds(fg, bg, cov.num as int, cov.den as int);
    }
    q as u8
}

/// Blend a foreground color over a background color at the given coverage.
pub fn blend(fg: Color, bg: Color, cov: Coverage) -> (r: Color)
    requires
        cov.valid(),
    ensures
        r == blend_spec(fg, bg, cov.num as int, cov.den as int),
{
    proof {
        lemma_blend_channel_bounds(fg.r, bg.r, cov.num as int, cov.den as int);
        lemma_blend_channel_bounds(fg.g, bg.g, cov.num as int, cov.den as int);
        lemma_blend_channel_bounds(fg.b, bg.b, cov.num as int, cov.den as int);
    }
    Color {
        r: blend_channel(fg.r, bg.r, cov),
        g: blend_channel(fg.g, bg.g, cov),
        b: blend_channel(fg.b, bg.b, cov),
    }
}

} // verus!
