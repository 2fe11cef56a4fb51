//! Color quantizer: maps an RGB8 triple to the nearest entry of the ANSI
//! 256-color terminal palette.
//!
//! Achromatic colors (r = g = b) are routed through the 24-step extended
//! greyscale ramp (indices 232..=255) rather than the 6x6x6 color cube,
//! because the cube holds only four true greys; values at most 8 collapse to
//! palette black (16) and values above 248 to palette white (231).

use vstd::prelude::*;

verus! {

use vstd::arithmetic::div_mod::{
    lemma_div_is_ordered, lemma_div_multiples_vanish_fancy, lemma_fundamental_div_mod,
    lemma_mod_division_less_than_divisor,
};

/// Ramp position for an achromatic value `v` with `8 < v <= 248`:
/// `round((v - 8) / 247 * 24)`, written over the integers
/// (the quotient is never exactly halfway, so one rounding rule serves).
pub open spec fn grey_level(v: int) -> int {
    (48 * (v - 8) + 247) / 494
}

/// Cube coordinate for one channel: `round(c / 255 * 5)`, written over the
/// integers (the quotient is never exactly halfway).
pub open spec fn cube_level(c: int) -> int {
    (10 * c + 255) / 510
}

/// The palette index chosen for `(r, g, b)`: greys go through the extended
/// greyscale ramp, everything else through the 6x6x6 cube.
pub open spec fn ansi256_of(r: int, g: int, b: int) -> int {
    if r == g && g == b {
        if r <= 8 {
            16
        } else if r > 248 {
            231
        } else {
            232 + grey_level(r)
        }
    } else {
        16 + 36 * cube_level(r) + 6 * cube_level(g) + cube_level(b)
    }
}

/// Quantizes an RGB8 color to the nearest ANSI 256-color palette index.
pub fn rgb_to_ansi256(r: u8, g: u8, b: u8) -> (idx: u8)
    ensures
        idx == ansi256_of(r as int, g as int, b as int),
        16 <= idx <= 255,
{
    if r == g && g == b {
        if r <= 8 {
            return 16;
        }
        if r > 248 {
            return 231;
        }
        let level: u32 = (48 * (r as u32 - 8) + 247) / 494;
        assert(level <= 23) by {
            assert(48 * (r as u32 - 8) + 247 <= 11767);
        };
        232 + level as u8
    } else {
        let rl: u32 = (10 * r as u32 + 255) / 510;
        let gl: u32 = (10 * g as u32 + 255) / 510;
        let bl: u32 = (10 * b as u32 + 255) / 510;
        assert(rl <= 5 && gl <= 5 && bl <= 5);
        (16 + 36 * rl + 6 * gl + bl) as u8
    }
}

/// The representative achromatic value of greyscale ramp step `k`
/// (the value the ramp position formula is inverted at): `8 + round(247 k / 24)`.
pub open spec fn grey_ramp_value(k: int) -> int {
    8 + (494 * k + 24) / 48
}

/// Quantization is idempotent on the greyscale ramp's own representative
/// colors: the representative value of ramp step `k` quantizes back to
/// palette index `232 + k`. Step 0's representative is the value 8, which
/// the quantizer sends to palette black (16) instead, so it is left out.
pub proof fn lemma_grey_ramp_round_trip(k: int)
    requires
        1 <= k <= 23,
    ensures
        ansi256_of(grey_ramp_value(k), grey_ramp_value(k), grey_ramp_value(k)) == 232 + k,
{
    let x = 494 * k + 24;
    let q = x / 48;
    let r = x % 48;
    lemma_fundamental_div_mod(x, 48);
    lemma_mod_division_less_than_divisor(x, 48);
    let v = grey_ramp_value(k);
    assert(v == 8 + q);
    lemma_div_is_ordered(518, x, 48);
    lemma_div_is_ordered(x, 11386, 48);
    assert(518int / 48 == 10 && 11386int / 48 == 237);
    assert(8 < v <= 248);
    assert(48 * (v - 8) + 247 == 494 * k + (271 - r));
    lemma_div_multiples_vanish_fancy(k, 271 - r, 494);
    assert(grey_level(v) == k);
}

} // verus!
