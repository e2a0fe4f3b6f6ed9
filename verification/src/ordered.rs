//! Ordered dithering: a threshold matrix tiled over the image.
//!
//! Every pixel is shifted by a threshold that depends only on its
//! position, then replaced by the palette entry nearest to the shifted
//! color. No pixel influences another.

use crate::palette::{lemma_nearest_exists, nearest, Color};
use crate::raster::{all_in_palette, channel, clamp_sample, in_palette, pixel, pixel_count};
use vstd::arithmetic::div_mod::{lemma_fundamental_div_mod, lemma_mod_bound};
use vstd::prelude::*;

verus! {

/// A threshold matrix as a mathematical object: `side * side` numerators
/// in row-major order over the common `divisor`, each threshold at least
/// zero and less than one.
pub struct MatrixView {
    pub values: Seq<int>,
    pub side: int,
    pub divisor: int,
}

impl MatrixView {
    /// The matrix is square and complete, and its thresholds lie in
    /// `[0, 1)`.
    pub open spec fn wf(self) -> bool {
        &&& 0 < self.side
        &&& 0 < self.divisor
        &&& self.values.len() == self.side * self.side
        &&& forall|i: int|
            0 <= i < self.values.len() ==> 0 <= #[trigger] self.values[i] < self.divisor
    }

    /// Numerator of the threshold for the pixel in column `x` of row `y`.
    pub open spec fn threshold_at(self, x: int, y: int) -> int {
        self.values[(y % self.side) * self.side + x % self.side]
    }
}

/// A threshold matrix: numerators in row-major order over a common
/// divisor.
pub struct ThresholdMatrix<'a> {
    /// Numerators of the thresholds, `side * side` of them.
    pub values: &'a [u8],
    /// Number of rows and of columns.
    pub side: u8,
    /// Common denominator of the thresholds.
    pub divisor: u8,
}

impl<'a> View for ThresholdMatrix<'a> {
    type V = MatrixView;

    open spec fn view(&self) -> MatrixView {
        MatrixView {
            values: Seq::new(self.values@.len(), |i: int| self.values@[i] as int),
            side: self.side as int,
            divisor: self.divisor as int,
        }
    }
}

/// The sample `255 * clamp(value / 255 + threshold / divisor - 1 / 2)`
/// with its fraction cut off, where `clamp` limits to `[0, 1]`. All
/// terms are brought over the denominator `2 * divisor`.
pub open spec fn threshold_channel(value: u8, threshold: int, divisor: int) -> u8 {
    clamp_sample((2 * divisor * value + 255 * (2 * threshold - divisor)) / (2 * divisor))
}

/// The color with every channel shifted by the threshold.
pub open spec fn perturbed(color: Color, threshold: int, divisor: int) -> Color {
    Color {
        r: threshold_channel(color.r, threshold, divisor),
        g: threshold_channel(color.g, threshold, divisor),
        b: threshold_channel(color.b, threshold, divisor),
    }
}

/// The color that ordered dithering leaves at pixel `p`.
pub open spec fn ordered_pixel(
    s: Seq<u8>,
    matrix: MatrixView,
    palette: Seq<Color>,
    width: int,
    p: int,
) -> Color {
    nearest(
        perturbed(pixel(s, p), matrix.threshold_at(p % width, p / width), matrix.divisor),
        palette,
    )
}

/// The buffer after ordered dithering of an image `width` pixels wide.
pub open spec fn ordered(s: Seq<u8>, matrix: MatrixView, palette: Seq<Color>, width: int) -> Seq<
    u8,
> {
    Seq::new(s.len(), |j: int| channel(ordered_pixel(s, matrix, palette, width, j / 3), j % 3))
}

/// Ordered dithering works pixel by pixel: what it leaves at a pixel
/// follows from what was there and from the pixel's position, whatever
/// the other pixels hold.
pub proof fn lemma_ordered_pixel(
    s: Seq<u8>,
    matrix: MatrixView,
    palette: Seq<Color>,
    width: int,
    p: int,
)
    requires
        0 <= p < pixel_count(s),
    ensures
        pixel(ordered(s, matrix, palette, width), p) == ordered_pixel(
            s,
            matrix,
            palette,
            width,
            p,
        ),
{
    let out = ordered(s, matrix, palette, width);
    let chosen = ordered_pixel(s, matrix, palette, width, p);
    assert(out[3 * p] == chosen.r);
    assert(out[3 * p + 1] == chosen.g);
    assert(out[3 * p + 2] == chosen.b);
}

/// After ordered dithering every pixel holds a palette color.
pub proof fn lemma_ordered_in_palette(
    s: Seq<u8>,
    matrix: MatrixView,
    palette: Seq<Color>,
    width: int,
)
    requires
        palette.len() > 0,
    ensures
        ordered(s, matrix, palette, width).len() == s.len(),
        all_in_palette(ordered(s, matrix, palette, width), palette),
{
    let out = ordered(s, matrix, palette, width);
    assert forall|p: int| 0 <= p < pixel_count(out) implies in_palette(
        #[trigger] pixel(out, p),
        palette,
    ) by {
        let shifted = perturbed(
            pixel(s, p),
            matrix.threshold_at(p % width, p / width),
            matrix.divisor,
        );
        lemma_nearest_exists(shifted, palette);
        lemma_ordered_pixel(s, matrix, palette, width, p);
    }
}

/// Shifts a sample by `threshold / divisor - 1 / 2` of the full range.
pub fn threshold_sample(value: u8, threshold: u8, divisor: u8) -> (r: u8)
    requires
        0 < divisor,
    ensures
        r == threshold_channel(value, threshold as int, divisor as int),
{
    let d: i32 = divisor as i32;
    assert(0 <= 2 * d * value <= 130050) by (nonlinear_arith)
        requires
            0 <= value <= 255,
            0 < d <= 255,
    ;
    let n: i32 = 2 * d * value as i32 + 255 * (2 * threshold as i32 - d);
    if n < 0 {
        assert(n as int / (2 * d) < 0) by (nonlinear_arith)
            requires
                n < 0,
                d > 0,
        ;
        0
    } else {
        let cut: i32 = n / (2 * d);
        assert(cut >= 0) by (nonlinear_arith)
            requires
                n >= 0,
                d > 0,
                cut == n as int / (2 * d),
        ;
        if cut > 255 {
            255
        } else {
            cut as u8
        }
    }
}

/// [`threshold_channel`] cuts the shifted sample down to a whole number:
/// with the shifted sample written as `n / (2 * divisor)`, the result is
/// 0 where it is negative, 255 where it is 255 or more, and otherwise
/// the largest integer that is not above it.
pub proof fn lemma_threshold_channel_is_floor(value: u8, threshold: int, divisor: int)
    requires
        0 < divisor,
    ensures
        ({
            let n = 2 * divisor * value + 255 * (2 * threshold - divisor);
            let r = threshold_channel(value, threshold, divisor);
            &&& n < 0 ==> r == 0
            &&& n >= 510 * divisor ==> r == 255
            &&& 0 <= n < 510 * divisor ==> 2 * divisor * r <= n < 2 * divisor * (r + 1)
        }),
{
    let n = 2 * divisor * value + 255 * (2 * threshold - divisor);
    let q = n / (2 * divisor);
    lemma_fundamental_div_mod(n, 2 * divisor);
    lemma_mod_bound(n, 2 * divisor);
    assert(q < 0 <==> n < 0) by (nonlinear_arith)
        requires
            n == (2 * divisor) * q + n % (2 * divisor),
            0 <= n % (2 * divisor) < 2 * divisor,
            0 < divisor,
    ;
    assert(q >= 255 <==> n >= 510 * divisor) by (nonlinear_arith)
        requires
            n == (2 * divisor) * q + n % (2 * divisor),
            0 <= n % (2 * divisor) < 2 * divisor,
            0 < divisor,
    ;
    assert(2 * divisor * (q + 1) == (2 * divisor) * q + 2 * divisor) by (nonlinear_arith);
    assert(2 * divisor * q == (2 * divisor) * q) by (nonlinear_arith);
}

} // verus!
