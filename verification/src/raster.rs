//! Pixels and samples of a flat RGB buffer.
//!
//! Pixel `p` of a buffer occupies the samples `3 * p`, `3 * p + 1` and
//! `3 * p + 2`. In an image `width` pixels wide, pixel `p` sits in column
//! `p % width` of row `p / width`.

use crate::palette::{lemma_nearest_exists, nearest, Color};
use vstd::arithmetic::div_mod::{lemma_fundamental_div_mod, lemma_fundamental_div_mod_converse};
use vstd::prelude::*;

verus! {

/// The color stored at pixel `p` of the buffer `s`.
pub open spec fn pixel(s: Seq<u8>, p: int) -> Color {
    Color { r: s[3 * p], g: s[3 * p + 1], b: s[3 * p + 2] }
}

/// Channel `k` of a color: 0 is red, 1 is green, 2 is blue.
pub open spec fn channel(color: Color, k: int) -> u8 {
    if k == 0 {
        color.r
    } else if k == 1 {
        color.g
    } else {
        color.b
    }
}

/// `v` limited to the range of a sample, `0..=255`.
pub open spec fn clamp_sample(v: int) -> u8 {
    if v < 0 {
        0
    } else if v > 255 {
        255
    } else {
        v as u8
    }
}

/// Number of whole pixels that the buffer holds.
pub open spec fn pixel_count(s: Seq<u8>) -> int {
    (s.len() / 3) as int
}

/// The buffer holds exactly `width * height` pixels.
pub open spec fn fits(s: Seq<u8>, width: int, height: int) -> bool {
    s.len() == width * height * 3
}

/// `color` occurs in `palette`.
pub open spec fn in_palette(color: Color, palette: Seq<Color>) -> bool {
    exists|i: int| 0 <= i < palette.len() && #[trigger] palette[i] == color
}

/// Every pixel of the buffer holds a color of the palette.
pub open spec fn all_in_palette(s: Seq<u8>, palette: Seq<Color>) -> bool {
    forall|p: int| 0 <= p < pixel_count(s) ==> in_palette(#[trigger] pixel(s, p), palette)
}

/// The buffer in which every pixel is replaced by the palette entry
/// nearest to it.
pub open spec fn quantized(s: Seq<u8>, palette: Seq<Color>) -> Seq<u8> {
    Seq::new(s.len(), |j: int| channel(nearest(pixel(s, j / 3), palette), j % 3))
}

/// Quantization works pixel by pixel: what it leaves at a pixel is the
/// palette entry nearest to what was there, whatever the other pixels
/// hold.
pub proof fn lemma_quantized_pixel(s: Seq<u8>, palette: Seq<Color>, p: int)
    requires
        0 <= p < pixel_count(s),
    ensures
        pixel(quantized(s, palette), p) == nearest(pixel(s, p), palette),
{
    let out = quantized(s, palette);
    assert(out[3 * p] == nearest(pixel(s, p), palette).r);
    assert(out[3 * p + 1] == nearest(pixel(s, p), palette).g);
    assert(out[3 * p + 2] == nearest(pixel(s, p), palette).b);
}

/// After quantization every pixel holds a palette color.
pub proof fn lemma_quantized_in_palette(s: Seq<u8>, palette: Seq<Color>)
    requires
        palette.len() > 0,
    ensures
        quantized(s, palette).len() == s.len(),
        all_in_palette(quantized(s, palette), palette),
{
    let out = quantized(s, palette);
    assert forall|p: int| 0 <= p < pixel_count(out) implies in_palette(
        #[trigger] pixel(out, p),
        palette,
    ) by {
        lemma_nearest_exists(pixel(s, p), palette);
        lemma_quantized_pixel(s, palette, p);
    }
}

/// Column `x` of row `y` is pixel `y * width + x`, and the other way round.
pub proof fn lemma_pixel_position(x: int, y: int, width: int, height: int)
    requires
        0 <= x < width,
        0 <= y < height,
    ensures
        0 <= y * width + x < width * height,
        (y * width + x) % width == x,
        (y * width + x) / width == y,
{
    lemma_fundamental_div_mod_converse(y * width + x, width, y, x);
    assert(y * width + x < width * height) by (nonlinear_arith)
        requires
            0 <= x < width,
            0 <= y < height,
    ;
    assert(0 <= y * width) by (nonlinear_arith)
        requires
            0 <= y,
            0 < width,
    ;
}

/// Every pixel of a `width` by `height` image has a column and a row.
pub proof fn lemma_pixel_coordinates(p: int, width: int, height: int)
    requires
        0 <= p < width * height,
        0 < width,
    ensures
        0 <= p % width < width,
        0 <= p / width < height,
        p == (p / width) * width + p % width,
{
    lemma_fundamental_div_mod(p, width);
    let q = p / width;
    let r = p % width;
    assert(width * q == q * width) by (nonlinear_arith);
    assert(0 <= q < height) by (nonlinear_arith)
        requires
            0 <= p < width * height,
            0 < width,
            p == q * width + r,
            0 <= r < width,
    ;
}

/// Whether the buffer holds exactly `width * height` pixels, which is what
/// every dithering function asks of its caller.
pub fn holds_image(buffer: &[u8], width: u32, height: u32) -> (ok: bool)
    ensures
        ok == fits(buffer@, width as int, height as int),
{
    assert(0 <= width * height <= 0xffff_fffe_0000_0001) by (nonlinear_arith)
        requires
            0 <= width <= 0xffff_ffff,
            0 <= height <= 0xffff_ffff,
    ;
    let samples: u128 = width as u128 * height as u128 * 3;
    buffer.len() as u128 == samples
}

/// Offset in the buffer of the first sample of the pixel in column `x` of
/// row `y`.
pub fn sample_index(x: u32, y: u32, width: u32, height: u32) -> (i: usize)
    requires
        x < width,
        y < height,
        width * height * 3 <= usize::MAX,
    ensures
        i == (y * width + x) * 3,
        i + 3 <= width * height * 3,
{
    proof {
        lemma_pixel_position(x as int, y as int, width as int, height as int);
    }
    (y as usize * width as usize + x as usize) * 3
}

} // verus!
