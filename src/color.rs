//! Packed 32-bit colors.
//!
//! An opaque color is `0x00RRGGBB`; a translucent one is `0xRRGGBBAA`,
//! where the alpha byte `AA` weighs the color against what lies under it
//! (255 is fully opaque, 0 fully transparent).
use vstd::prelude::*;

verus! {

/// Red, green and blue channel of an opaque color.
pub open spec fn red_of(c: u32) -> int { ((c >> 16u32) & 0xff) as int }
pub open spec fn green_of(c: u32) -> int { ((c >> 8u32) & 0xff) as int }
pub open spec fn blue_of(c: u32) -> int { (c & 0xff) as int }

/// Red, green, blue and alpha channel of a translucent color.
pub open spec fn rgba_red_of(c: u32) -> int { ((c >> 24u32) & 0xff) as int }
pub open spec fn rgba_green_of(c: u32) -> int { ((c >> 16u32) & 0xff) as int }
pub open spec fn rgba_blue_of(c: u32) -> int { ((c >> 8u32) & 0xff) as int }
pub open spec fn rgba_alpha_of(c: u32) -> int { (c & 0xff) as int }

/// One channel of the "over" operator: background weighed by `255 - a`,
/// foreground by `a`, the sum scaled back to a byte and rounded down.
pub open spec fn blend_channel(bg: int, fg: int, a: int) -> int {
    (bg * (255 - a) + fg * a) / 255
}

/// `c` is the opaque color that compositing `fg` over `bg` gives.
pub open spec fn is_merge(c: u32, bg: u32, fg: u32) -> bool {
    &&& red_of(c) == blend_channel(red_of(bg), rgba_red_of(fg), rgba_alpha_of(fg))
    &&& green_of(c) == blend_channel(green_of(bg), rgba_green_of(fg), rgba_alpha_of(fg))
    &&& blue_of(c) == blend_channel(blue_of(bg), rgba_blue_of(fg), rgba_alpha_of(fg))
    &&& c >> 24u32 == 0
}

/// Packs three channels into an opaque color.
pub fn rgb(r: u8, g: u8, b: u8) -> (c: u32)
    ensures
        red_of(c) == r as int,
        green_of(c) == g as int,
        blue_of(c) == b as int,
        c >> 24u32 == 0,
{
    let (r32, g32, b32) = (r as u32, g as u32, b as u32);
    let c = (r32 << 16u32) | (g32 << 8u32) | b32;
    assert(((c >> 16u32) & 0xff) == r32 && ((c >> 8u32) & 0xff) == g32 && (c & 0xff) == b32
        && c >> 24u32 == 0) by (bit_vector)
        requires
            r32 < 256,
            g32 < 256,
            b32 < 256,
            c == (r32 << 16u32) | (g32 << 8u32) | b32,
    ;
    c
}

/// Packs four channels into a translucent color.
pub fn rgba(r: u8, g: u8, b: u8, a: u8) -> (c: u32)
    ensures
        rgba_red_of(c) == r as int,
        rgba_green_of(c) == g as int,
        rgba_blue_of(c) == b as int,
        rgba_alpha_of(c) == a as int,
{
    let (r32, g32, b32, a32) = (r as u32, g as u32, b as u32, a as u32);
    let c = (r32 << 24u32) | (g32 << 16u32) | (b32 << 8u32) | a32;
    assert(((c >> 24u32) & 0xff) == r32 && ((c >> 16u32) & 0xff) == g32 && ((c >> 8u32) & 0xff)
        == b32 && (c & 0xff) == a32) by (bit_vector)
        requires
            r32 < 256,
            g32 < 256,
            b32 < 256,
            a32 < 256,
            c == (r32 << 24u32) | (g32 << 16u32) | (b32 << 8u32) | a32,
    ;
    c
}

/// The lowest byte of `v`.
fn low_byte(v: u32) -> (r: u8)
    ensures
        r as u32 == v & 0xff,
{
    let m = v & 0xff;
    assert(m < 256) by (bit_vector)
        requires
            m == v & 0xff,
    ;
    m as u8
}

/// Red channel of an opaque color.
pub fn rgb_red(c: u32) -> (r: u8)
    ensures
        r as int == red_of(c),
{
    low_byte(c >> 16u32)
}

/// Green channel of an opaque color.
pub fn rgb_green(c: u32) -> (r: u8)
    ensures
        r as int == green_of(c),
{
    low_byte(c >> 8u32)
}

/// Blue channel of an opaque color.
pub fn rgb_blue(c: u32) -> (r: u8)
    ensures
        r as int == blue_of(c),
{
    low_byte(c)
}

/// Red channel of a translucent color.
pub fn rgba_red(c: u32) -> (r: u8)
    ensures
        r as int == rgba_red_of(c),
{
    low_byte(c >> 24u32)
}

/// Green channel of a translucent color.
pub fn rgba_green(c: u32) -> (r: u8)
    ensures
        r as int == rgba_green_of(c),
{
    low_byte(c >> 16u32)
}

/// Blue channel of a translucent color.
pub fn rgba_blue(c: u32) -> (r: u8)
    ensures
        r as int == rgba_blue_of(c),
{
    low_byte(c >> 8u32)
}

/// Alpha byte of a translucent color.
pub fn rgba_alpha(c: u32) -> (r: u8)
    ensures
        r as int == rgba_alpha_of(c),
{
    low_byte(c)
}

/// Gives an opaque color the alpha byte `alpha` (0 transparent, 255 opaque).
pub fn rgba_from_rgb(color_rgb: u32, alpha: u8) -> (c: u32)
    ensures
        rgba_red_of(c) == red_of(color_rgb),
        rgba_green_of(c) == green_of(color_rgb),
        rgba_blue_of(c) == blue_of(color_rgb),
        rgba_alpha_of(c) == alpha as int,
{
    rgba(rgb_red(color_rgb), rgb_green(color_rgb), rgb_blue(color_rgb), alpha)
}

fn blend(bg: u8, fg: u8, a: u8) -> (r: u8)
    ensures
        r as int == blend_channel(bg as int, fg as int, a as int),
{
    let (bg, fg, a) = (bg as u32, fg as u32, a as u32);
    assert(0 <= bg * (255 - a) <= 255 * 255) by (nonlinear_arith)
        requires bg < 256, a < 256;
    assert(0 <= fg * a <= 255 * 255) by (nonlinear_arith)
        requires fg < 256, a < 256;
    let sum = bg * (255 - a) + fg * a;
    assert(sum <= 255 * 255) by (nonlinear_arith)
        requires bg < 256, fg < 256, a < 256, sum == bg * (255 - a) + fg * a;
    assert(sum / 255 <= 255) by (nonlinear_arith)
        requires sum <= 255 * 255;
    (sum / 255) as u8
}

/// Composites the translucent color `fg_rgba` over the opaque color `bg_rgb`
/// and returns the opaque result; the alpha byte is consumed.
pub fn rgba_merge(bg_rgb: u32, fg_rgba: u32) -> (c: u32)
    ensures
        is_merge(c, bg_rgb, fg_rgba),
{
    let a = rgba_alpha(fg_rgba);
    let r = blend(rgb_red(bg_rgb), rgba_red(fg_rgba), a);
    let g = blend(rgb_green(bg_rgb), rgba_green(fg_rgba), a);
    let b = blend(rgb_blue(bg_rgb), rgba_blue(fg_rgba), a);
    rgb(r, g, b)
}

} // verus!
