//! Error diffusion: what one pixel does to its neighbours, and what a
//! whole pass over the image leaves behind.
//!
//! Pixels are visited in raster order. Each visited pixel is replaced by
//! the palette entry nearest to it, and the difference is handed on to
//! pixels that have not been visited yet, in the proportions that a
//! kernel gives. A share is added to the sample already stored, the sum
//! is rounded to the nearest integer (halves away from zero) and clamped
//! to `0..=255`, so shares from several pixels compose through 8-bit
//! intermediate values.

use crate::palette::{lemma_nearest_exists, map_to_palette, nearest, Color};
use crate::raster::{
    all_in_palette, channel, clamp_sample, fits, in_palette, lemma_pixel_coordinates,
    lemma_pixel_position, pixel, sample_index,
};
use vstd::arithmetic::div_mod::{lemma_fundamental_div_mod, lemma_mod_bound};
use vstd::prelude::*;

verus! {

/// The quotient `n / d` rounded to the nearest integer, halves away from
/// zero. Meaningful for a positive `d`.
pub open spec fn round_half_away(n: int, d: int) -> int {
    if n >= 0 {
        (2 * n + d) / (2 * d)
    } else {
        -((d - 2 * n) / (2 * d))
    }
}

/// [`round_half_away`] gives an integer nearest to `n / d`: it is no
/// farther from the quotient than one half, and where it is exactly one
/// half away it is the candidate that lies farther from zero.
pub proof fn lemma_round_half_away_is_nearest(n: int, d: int)
    requires
        0 < d,
    ensures
        ({
            let r = round_half_away(n, d);
            &&& -d <= 2 * (n - r * d) <= d
            &&& n >= 0 ==> r >= 0 && 2 * (n - r * d) < d
            &&& n < 0 ==> r <= 0 && -d < 2 * (n - r * d)
        }),
{
    let r = round_half_away(n, d);
    if n >= 0 {
        lemma_fundamental_div_mod(2 * n + d, 2 * d);
        lemma_mod_bound(2 * n + d, 2 * d);
        assert((2 * d) * r == 2 * (r * d)) by (nonlinear_arith);
        assert(r >= 0) by (nonlinear_arith)
            requires
                2 * n + d >= 0,
                d > 0,
                r == (2 * n + d) / (2 * d),
        ;
    } else {
        let m = (d - 2 * n) / (2 * d);
        lemma_fundamental_div_mod(d - 2 * n, 2 * d);
        lemma_mod_bound(d - 2 * n, 2 * d);
        assert((2 * d) * m == 2 * (m * d)) by (nonlinear_arith);
        assert(r * d == -(m * d)) by (nonlinear_arith)
            requires
                r == -m,
        ;
        assert(m >= 0) by (nonlinear_arith)
            requires
                d - 2 * n >= 0,
                d > 0,
                m == (d - 2 * n) / (2 * d),
        ;
    }
}

/// The sample that results when `error * weight / divisor` is added to
/// `value`.
pub open spec fn diffuse_channel(value: u8, error: int, weight: int, divisor: int) -> u8 {
    clamp_sample(round_half_away(value * divisor + error * weight, divisor))
}

/// A diffusion kernel as a mathematical object: a grid of `width` by
/// `height` weights in row-major order, each weight a numerator over the
/// common `divisor`. The current pixel sits in column `x_offset` of the
/// first row.
pub struct KernelView {
    pub weights: Seq<int>,
    pub width: int,
    pub height: int,
    pub x_offset: int,
    pub divisor: int,
}

impl KernelView {
    /// The grid is complete, and it hands error only to pixels that come
    /// later in raster order: the cells of the first row up to and
    /// including the current pixel weigh nothing.
    pub open spec fn wf(self) -> bool {
        &&& 0 < self.width
        &&& 0 < self.height
        &&& 0 <= self.x_offset < self.width
        &&& 0 < self.divisor
        &&& self.weights.len() == self.width * self.height
        &&& forall|i: int| 0 <= i < self.weights.len() ==> 0 <= #[trigger] self.weights[i]
        &&& forall|i: int| 0 <= i <= self.x_offset ==> #[trigger] self.weights[i] == 0
    }

    /// Weight of the neighbour `dx` columns to the right of and `dy` rows
    /// below the current pixel; zero where the grid has no cell for it.
    pub open spec fn weight_toward(self, dx: int, dy: int) -> int {
        let kx = dx + self.x_offset;
        if 0 <= kx < self.width && 0 <= dy < self.height {
            self.weights[dy * self.width + kx]
        } else {
            0
        }
    }

    /// The kernel with every cell from position `n` on set to zero.
    pub open spec fn truncated(self, n: int) -> KernelView {
        KernelView {
            weights: Seq::new(
                self.weights.len(),
                |i: int| if i < n {
                    self.weights[i]
                } else {
                    0
                },
            ),
            ..self
        }
    }
}

/// A diffusion kernel: weights in row-major order over a common divisor.
pub struct DiffusionKernel<'a> {
    /// Numerators of the weights, `width * height` of them.
    pub weights: &'a [u8],
    /// Number of columns of the grid.
    pub width: u8,
    /// Number of rows of the grid.
    pub height: u8,
    /// Column of the current pixel in the first row.
    pub x_offset: u8,
    /// Common denominator of the weights.
    pub divisor: u8,
}

impl<'a> View for DiffusionKernel<'a> {
    type V = KernelView;

    open spec fn view(&self) -> KernelView {
        KernelView {
            weights: Seq::new(self.weights@.len(), |i: int| self.weights@[i] as int),
            width: self.width as int,
            height: self.height as int,
            x_offset: self.x_offset as int,
            divisor: self.divisor as int,
        }
    }
}

/// The buffer after pixel `p` alone has been processed: `p` holds the
/// palette entry nearest to it, and every other pixel has received its
/// share of the difference.
pub open spec fn diffuse_pixel(
    s: Seq<u8>,
    kernel: KernelView,
    palette: Seq<Color>,
    width: int,
    p: int,
) -> Seq<u8> {
    let original = pixel(s, p);
    let chosen = nearest(original, palette);
    Seq::new(
        s.len(),
        |j: int|
            {
                let q = j / 3;
                let weight = kernel.weight_toward(q % width - p % width, q / width - p / width);
                if q == p {
                    channel(chosen, j % 3)
                } else if weight == 0 {
                    s[j]
                } else {
                    diffuse_channel(
                        s[j],
                        channel(original, j % 3) - channel(chosen, j % 3),
                        weight,
                        kernel.divisor,
                    )
                }
            },
    )
}

/// The buffer after the first `n` pixels have been processed in raster
/// order.
pub open spec fn diffuse_upto(
    s: Seq<u8>,
    kernel: KernelView,
    palette: Seq<Color>,
    width: int,
    n: int,
) -> Seq<u8>
    decreases n,
{
    if n <= 0 {
        s
    } else {
        diffuse_pixel(diffuse_upto(s, kernel, palette, width, n - 1), kernel, palette, width, n - 1)
    }
}

/// The buffer after error diffusion over the whole image.
pub open spec fn diffused(
    s: Seq<u8>,
    kernel: KernelView,
    palette: Seq<Color>,
    width: int,
    height: int,
) -> Seq<u8> {
    diffuse_upto(s, kernel, palette, width, width * height)
}

/// Adds the share `error * weight / divisor` to a sample.
pub fn diffuse_sample(value: u8, error: i16, weight: u8, divisor: u8) -> (r: u8)
    requires
        0 < divisor,
    ensures
        r == diffuse_channel(value, error as int, weight as int, divisor as int),
{
    let d: i32 = divisor as i32;
    assert(0 <= value * d <= 65025) by (nonlinear_arith)
        requires
            0 <= value <= 255,
            0 < d <= 255,
    ;
    assert(-8355840 <= error * weight <= 8355840) by (nonlinear_arith)
        requires
            -32768 <= error <= 32767,
            0 <= weight <= 255,
    ;
    let n: i32 = value as i32 * d + error as i32 * weight as i32;
    if n < 0 {
        assert((d - 2 * n) / (2 * d) >= 0) by (nonlinear_arith)
            requires
                n < 0,
                d > 0,
        ;
        0
    } else {
        let rounded: i32 = (2 * n + d) / (2 * d);
        assert(rounded >= 0) by (nonlinear_arith)
            requires
                n >= 0,
                d > 0,
                rounded == (2 * n + d) / (2 * d),
        ;
        if rounded > 255 {
            255
        } else {
            rounded as u8
        }
    }
}

/// Cell `(kx, ky)` of the grid sits at position `ky * width + kx`, and no
/// other cell does.
proof fn lemma_cell_position(kernel: KernelView, kx: int, ky: int)
    requires
        kernel.wf(),
        0 <= kx < kernel.width,
        0 <= ky < kernel.height,
    ensures
        0 <= ky * kernel.width + kx < kernel.weights.len(),
        (ky * kernel.width + kx) % kernel.width == kx,
        (ky * kernel.width + kx) / kernel.width == ky,
{
    lemma_pixel_position(kx, ky, kernel.width, kernel.height);
}

/// A truncated kernel weighs a neighbour as the whole kernel does where
/// the neighbour's cell comes before the cut, and not at all elsewhere.
proof fn lemma_truncated_weight(kernel: KernelView, n: int, dx: int, dy: int)
    requires
        kernel.wf(),
    ensures
        kernel.truncated(n).weight_toward(dx, dy) == if dy * kernel.width + dx + kernel.x_offset
            < n {
            kernel.weight_toward(dx, dy)
        } else {
            0
        },
{
    let kx = dx + kernel.x_offset;
    if 0 <= kx < kernel.width && 0 <= dy < kernel.height {
        lemma_cell_position(kernel, kx, dy);
    }
}

/// Where cell `(kx, ky)` weighs nothing, or names the current pixel or a
/// place outside the image, taking it into account changes nothing.
proof fn lemma_spread_skip(
    s: Seq<u8>,
    kernel: KernelView,
    palette: Seq<Color>,
    width: int,
    height: int,
    p: int,
    kx: int,
    ky: int,
)
    requires
        kernel.wf(),
        fits(s, width, height),
        0 <= p < width * height,
        0 < width,
        0 <= kx < kernel.width,
        0 <= ky < kernel.height,
        ({
            let nx = p % width + kx - kernel.x_offset;
            let ny = p / width + ky;
            ||| kernel.weights[ky * kernel.width + kx] == 0
            ||| nx < 0
            ||| nx >= width
            ||| ny >= height
            ||| (nx == p % width && ny == p / width)
        }),
    ensures
        diffuse_pixel(s, kernel.truncated(ky * kernel.width + kx + 1), palette, width, p)
            == diffuse_pixel(s, kernel.truncated(ky * kernel.width + kx), palette, width, p),
{
    let ki = ky * kernel.width + kx;
    let before = diffuse_pixel(s, kernel.truncated(ki), palette, width, p);
    let after = diffuse_pixel(s, kernel.truncated(ki + 1), palette, width, p);
    lemma_cell_position(kernel, kx, ky);
    lemma_pixel_coordinates(p, width, height);
    assert forall|j: int| 0 <= j < s.len() implies before[j] == after[j] by {
        let q = j / 3;
        let dx = q % width - p % width;
        let dy = q / width - p / width;
        lemma_pixel_coordinates(q, width, height);
        lemma_truncated_weight(kernel, ki, dx, dy);
        lemma_truncated_weight(kernel, ki + 1, dx, dy);
        if q != p && dy * kernel.width + dx + kernel.x_offset == ki {
            if 0 <= dx + kernel.x_offset < kernel.width && 0 <= dy < kernel.height {
                lemma_cell_position(kernel, dx + kernel.x_offset, dy);
                assert(dy == ky && dx + kernel.x_offset == kx);
            }
        }
    }
    assert(before =~= after);
}

/// Where cell `(kx, ky)` has a weight and names another pixel of the
/// image, taking it into account adds that pixel's share to its three
/// samples and changes nothing else.
proof fn lemma_spread_update(
    s: Seq<u8>,
    kernel: KernelView,
    palette: Seq<Color>,
    width: int,
    height: int,
    p: int,
    kx: int,
    ky: int,
)
    requires
        kernel.wf(),
        fits(s, width, height),
        0 <= p < width * height,
        0 < width,
        0 <= kx < kernel.width,
        0 <= ky < kernel.height,
        kernel.weights[ky * kernel.width + kx] != 0,
        0 <= p % width + kx - kernel.x_offset < width,
        p / width + ky < height,
        !(kx == kernel.x_offset && ky == 0),
    ensures
        ({
            let ki = ky * kernel.width + kx;
            let t = (p / width + ky) * width + (p % width + kx - kernel.x_offset);
            let before = diffuse_pixel(s, kernel.truncated(ki), palette, width, p);
            let after = diffuse_pixel(s, kernel.truncated(ki + 1), palette, width, p);
            let original = pixel(s, p);
            let chosen = nearest(original, palette);
            let weight = kernel.weights[ki];
            &&& 0 <= t < width * height
            &&& t != p
            &&& before[3 * t] == s[3 * t]
            &&& before[3 * t + 1] == s[3 * t + 1]
            &&& before[3 * t + 2] == s[3 * t + 2]
            &&& after == before.update(
                3 * t,
                diffuse_channel(s[3 * t], original.r - chosen.r, weight, kernel.divisor),
            ).update(
                3 * t + 1,
                diffuse_channel(s[3 * t + 1], original.g - chosen.g, weight, kernel.divisor),
            ).update(
                3 * t + 2,
                diffuse_channel(s[3 * t + 2], original.b - chosen.b, weight, kernel.divisor),
            )
        }),
{
    let ki = ky * kernel.width + kx;
    let nx = p % width + kx - kernel.x_offset;
    let ny = p / width + ky;
    let t = ny * width + nx;
    let before = diffuse_pixel(s, kernel.truncated(ki), palette, width, p);
    let after = diffuse_pixel(s, kernel.truncated(ki + 1), palette, width, p);
    let original = pixel(s, p);
    let chosen = nearest(original, palette);
    let weight = kernel.weights[ki];
    let updated = before.update(
        3 * t,
        diffuse_channel(s[3 * t], original.r - chosen.r, weight, kernel.divisor),
    ).update(
        3 * t + 1,
        diffuse_channel(s[3 * t + 1], original.g - chosen.g, weight, kernel.divisor),
    ).update(
        3 * t + 2,
        diffuse_channel(s[3 * t + 2], original.b - chosen.b, weight, kernel.divisor),
    );
    lemma_cell_position(kernel, kx, ky);
    lemma_pixel_coordinates(p, width, height);
    lemma_pixel_position(nx, ny, width, height);
    assert(t != p);
    assert forall|j: int| 0 <= j < s.len() implies updated[j] == after[j] by {
        let q = j / 3;
        let dx = q % width - p % width;
        let dy = q / width - p / width;
        lemma_pixel_coordinates(q, width, height);
        lemma_truncated_weight(kernel, ki, dx, dy);
        lemma_truncated_weight(kernel, ki + 1, dx, dy);
        if q == t {
            assert(dx + kernel.x_offset == kx && dy == ky);
        } else if q != p && dy * kernel.width + dx + kernel.x_offset == ki {
            if 0 <= dx + kernel.x_offset < kernel.width && 0 <= dy < kernel.height {
                lemma_cell_position(kernel, dx + kernel.x_offset, dy);
                assert(dy == ky && dx + kernel.x_offset == kx);
                assert(q == t);
            }
        }
    }
    assert(updated =~= after);
    lemma_truncated_weight(kernel, ki, kx - kernel.x_offset, ky);
}

/// Quantizes the pixel in column `cx` of row `cy` and spreads its
/// quantization error over the neighbours that the kernel names. Targets
/// outside the image are dropped.
pub fn diffuse_pixel_at(
    buffer: &mut [u8],
    kernel: &DiffusionKernel<'_>,
    palette: &[Color],
    width: u32,
    height: u32,
    cx: u32,
    cy: u32,
)
    requires
        kernel@.wf(),
        palette@.len() > 0,
        cx < width,
        cy < height,
        fits(old(buffer)@, width as int, height as int),
    ensures
        final(buffer)@ == diffuse_pixel(
            old(buffer)@,
            kernel@,
            palette@,
            width as int,
            cy * width + cx,
        ),
{
    let ghost s0 = buffer@;
    let ghost p = cy * width + cx;
    let ghost w = width as int;
    let ghost h = height as int;
    proof {
        lemma_pixel_position(cx as int, cy as int, w, h);
        assert(buffer.len() == s0.len());
    }
    let i: usize = sample_index(cx, cy, width, height);
    let (new_color, qe) = map_to_palette(Color::from_slice(&buffer[i..i + 3]), palette);
    buffer[i] = new_color.r;
    buffer[i + 1] = new_color.g;
    buffer[i + 2] = new_color.b;
    proof {
        let start = diffuse_pixel(s0, kernel@.truncated(0), palette@, w, p);
        assert forall|j: int| 0 <= j < s0.len() implies buffer@[j] == start[j] by {
            let q = j / 3;
            lemma_truncated_weight(kernel@, 0, q % w - p % w, q / w - p / w);
            if 0 <= q % w - p % w + kernel@.x_offset < kernel@.width && 0 <= q / w - p / w
                < kernel@.height {
                lemma_cell_position(kernel@, q % w - p % w + kernel@.x_offset, q / w - p / w);
            }
        }
        assert(buffer@ =~= start);
        assert(0 * kernel.width == 0);
    }
    let mut ky: u8 = 0;
    while ky < kernel.height
        invariant
            kernel@.wf(),
            fits(s0, w, h),
            buffer.len() == s0.len(),
            w == width,
            h == height,
            cx < width,
            cy < height,
            p == cy * width + cx,
            p % w == cx,
            p / w == cy,
            0 <= p < w * h,
            ky <= kernel.height,
            qe == pixel(s0, p).error_to(nearest(pixel(s0, p), palette@)),
            buffer@ == diffuse_pixel(s0, kernel@.truncated(ky * kernel.width), palette@, w, p),
        decreases kernel.height - ky,
    {
        let mut kx: u8 = 0;
        while kx < kernel.width
            invariant
                kernel@.wf(),
                fits(s0, w, h),
                buffer.len() == s0.len(),
                w == width,
                h == height,
                cx < width,
                cy < height,
                p == cy * width + cx,
                p % w == cx,
                p / w == cy,
                0 <= p < w * h,
                ky < kernel.height,
                kx <= kernel.width,
                qe == pixel(s0, p).error_to(nearest(pixel(s0, p), palette@)),
                buffer@ == diffuse_pixel(
                    s0,
                    kernel@.truncated(ky * kernel.width + kx),
                    palette@,
                    w,
                    p,
                ),
            decreases kernel.width - kx,
        {
            proof {
                lemma_cell_position(kernel@, kx as int, ky as int);
                assert(0 <= ky * kernel.width <= 65025) by (nonlinear_arith)
                    requires
                        0 <= ky <= 255,
                        0 <= kernel.width <= 255,
                ;
            }
            let ki: usize = ky as usize * kernel.width as usize + kx as usize;
            let weight: u8 = kernel.weights[ki];
            let nx: i64 = cx as i64 + kx as i64 - kernel.x_offset as i64;
            let ny: i64 = cy as i64 + ky as i64;
            if weight != 0 && !(nx == cx as i64 && ny == cy as i64) && 0 <= nx && nx
                < width as i64 && ny < height as i64 {
                let ni: usize = sample_index(nx as u32, ny as u32, width, height);
                proof {
                    lemma_spread_update(s0, kernel@, palette@, w, h, p, kx as int, ky as int);
                }
                let r: u8 = buffer[ni];
                let g: u8 = buffer[ni + 1];
                let b: u8 = buffer[ni + 2];
                buffer[ni] = diffuse_sample(r, qe.r, weight, kernel.divisor);
                buffer[ni + 1] = diffuse_sample(g, qe.g, weight, kernel.divisor);
                buffer[ni + 2] = diffuse_sample(b, qe.b, weight, kernel.divisor);
            } else {
                proof {
                    lemma_spread_skip(s0, kernel@, palette@, w, h, p, kx as int, ky as int);
                }
            }
            kx += 1;
        }
        proof {
            assert((ky + 1) * kernel.width == ky * kernel.width + kernel.width)
                by (nonlinear_arith);
        }
        ky += 1;
    }
    proof {
        assert(kernel@.truncated(kernel.height * kernel.width).weights =~= kernel@.weights)
            by {
            assert(kernel.height * kernel.width == kernel@.width * kernel@.height)
                by (nonlinear_arith);
        }
    }
}

/// Processing a pixel leaves the pixels before it as they are, and leaves
/// a palette color in its own place.
pub proof fn lemma_diffuse_pixel_settles(
    s: Seq<u8>,
    kernel: KernelView,
    palette: Seq<Color>,
    width: int,
    height: int,
    p: int,
)
    requires
        kernel.wf(),
        palette.len() > 0,
        fits(s, width, height),
        0 < width,
        0 <= p < width * height,
    ensures
        diffuse_pixel(s, kernel, palette, width, p).len() == s.len(),
        pixel(diffuse_pixel(s, kernel, palette, width, p), p) == nearest(pixel(s, p), palette),
        in_palette(pixel(diffuse_pixel(s, kernel, palette, width, p), p), palette),
        forall|q: int|
            0 <= q < p ==> #[trigger] pixel(diffuse_pixel(s, kernel, palette, width, p), q)
                == pixel(s, q),
{
    let out = diffuse_pixel(s, kernel, palette, width, p);
    lemma_nearest_exists(pixel(s, p), palette);
    lemma_pixel_coordinates(p, width, height);
    assert(out[3 * p] == nearest(pixel(s, p), palette).r);
    assert(out[3 * p + 1] == nearest(pixel(s, p), palette).g);
    assert(out[3 * p + 2] == nearest(pixel(s, p), palette).b);
    assert forall|q: int| 0 <= q < p implies #[trigger] pixel(out, q) == pixel(s, q) by {
        lemma_earlier_pixel_weighs_nothing(kernel, width, height, p, q);
        assert(out[3 * q] == s[3 * q]);
        assert(out[3 * q + 1] == s[3 * q + 1]);
        assert(out[3 * q + 2] == s[3 * q + 2]);
    }
}

/// A pixel that comes before the current one in raster order gets no
/// share of its error.
proof fn lemma_earlier_pixel_weighs_nothing(
    kernel: KernelView,
    width: int,
    height: int,
    p: int,
    q: int,
)
    requires
        kernel.wf(),
        0 < width,
        0 <= q < p < width * height,
    ensures
        kernel.weight_toward(q % width - p % width, q / width - p / width) == 0,
{
    lemma_pixel_coordinates(p, width, height);
    lemma_pixel_coordinates(q, width, height);
    let dx = q % width - p % width;
    let dy = q / width - p / width;
    let kx = dx + kernel.x_offset;
    assert(dy <= 0) by (nonlinear_arith)
        requires
            q < p,
            0 < width,
            q == (q / width) * width + q % width,
            p == (p / width) * width + p % width,
            0 <= q % width < width,
            0 <= p % width < width,
            dy == q / width - p / width,
    ;
    if dy == 0 && 0 <= kx {
        assert(q / width == p / width);
        assert(dx < 0);
        assert(kernel.width <= kernel.width * kernel.height) by (nonlinear_arith)
            requires
                0 < kernel.width,
                0 < kernel.height,
        ;
        assert(kernel.weights[kx] == 0);
        assert(dy * kernel.width + kx == kx);
    }
}

/// After the first `n` pixels have been processed, each of them holds a
/// palette color.
pub proof fn lemma_diffuse_upto_in_palette(
    s: Seq<u8>,
    kernel: KernelView,
    palette: Seq<Color>,
    width: int,
    height: int,
    n: int,
)
    requires
        kernel.wf(),
        palette.len() > 0,
        fits(s, width, height),
        0 <= width,
        0 <= n <= width * height,
    ensures
        diffuse_upto(s, kernel, palette, width, n).len() == s.len(),
        forall|q: int|
            0 <= q < n ==> in_palette(
                #[trigger] pixel(diffuse_upto(s, kernel, palette, width, n), q),
                palette,
            ),
    decreases n,
{
    if n > 0 {
        assert(0 < width) by (nonlinear_arith)
            requires
                0 < n <= width * height,
                0 <= width,
        ;
        lemma_diffuse_upto_in_palette(s, kernel, palette, width, height, n - 1);
        let previous = diffuse_upto(s, kernel, palette, width, n - 1);
        lemma_diffuse_pixel_settles(previous, kernel, palette, width, height, n - 1);
    }
}

/// After error diffusion every pixel of the image holds a palette color.
pub proof fn lemma_diffused_in_palette(
    s: Seq<u8>,
    kernel: KernelView,
    palette: Seq<Color>,
    width: int,
    height: int,
)
    requires
        kernel.wf(),
        palette.len() > 0,
        fits(s, width, height),
        0 <= width,
        0 <= height,
    ensures
        diffused(s, kernel, palette, width, height).len() == s.len(),
        all_in_palette(diffused(s, kernel, palette, width, height), palette),
{
    assert(0 <= width * height) by (nonlinear_arith)
        requires
            0 <= width,
            0 <= height,
    ;
    lemma_diffuse_upto_in_palette(s, kernel, palette, width, height, width * height);
}

/// Two images that agree on their first `n` pixels still agree on them
/// after the first `k` pixels of each have been processed.
proof fn lemma_causal_upto(
    a: Seq<u8>,
    b: Seq<u8>,
    kernel: KernelView,
    palette: Seq<Color>,
    width: int,
    height: int,
    n: int,
    k: int,
)
    requires
        kernel.wf(),
        palette.len() > 0,
        fits(a, width, height),
        fits(b, width, height),
        0 <= width,
        0 <= n <= width * height,
        0 <= k <= width * height,
        forall|j: int| 0 <= j < 3 * n ==> a[j] == b[j],
    ensures
        diffuse_upto(a, kernel, palette, width, k).len() == a.len(),
        diffuse_upto(b, kernel, palette, width, k).len() == b.len(),
        forall|j: int|
            0 <= j < 3 * n ==> diffuse_upto(a, kernel, palette, width, k)[j] == diffuse_upto(
                b,
                kernel,
                palette,
                width,
                k,
            )[j],
    decreases k,
{
    if k > 0 {
        let p = k - 1;
        lemma_causal_upto(a, b, kernel, palette, width, height, n, p);
        let before_a = diffuse_upto(a, kernel, palette, width, p);
        let before_b = diffuse_upto(b, kernel, palette, width, p);
        let after_a = diffuse_pixel(before_a, kernel, palette, width, p);
        let after_b = diffuse_pixel(before_b, kernel, palette, width, p);
        assert(0 < width) by (nonlinear_arith)
            requires
                0 < k <= width * height,
                0 <= width,
        ;
        if p < n {
            assert(before_a[3 * p] == before_b[3 * p]);
            assert(before_a[3 * p + 1] == before_b[3 * p + 1]);
            assert(before_a[3 * p + 2] == before_b[3 * p + 2]);
            assert(pixel(before_a, p) == pixel(before_b, p));
        }
        assert forall|j: int| 0 <= j < 3 * n implies after_a[j] == after_b[j] by {
            if p >= n {
                lemma_earlier_pixel_weighs_nothing(kernel, width, height, p, j / 3);
            }
        }
    }
}

/// Error diffusion never looks ahead: what it leaves in the first `n`
/// pixels follows from the first `n` pixels of the image alone.
pub proof fn lemma_diffusion_is_causal(
    a: Seq<u8>,
    b: Seq<u8>,
    kernel: KernelView,
    palette: Seq<Color>,
    width: int,
    height: int,
    n: int,
)
    requires
        kernel.wf(),
        palette.len() > 0,
        fits(a, width, height),
        fits(b, width, height),
        0 <= width,
        0 <= height,
        0 <= n <= width * height,
        forall|j: int| 0 <= j < 3 * n ==> a[j] == b[j],
    ensures
        forall|j: int|
            0 <= j < 3 * n ==> diffused(a, kernel, palette, width, height)[j] == diffused(
                b,
                kernel,
                palette,
                width,
                height,
            )[j],
{
    lemma_causal_upto(a, b, kernel, palette, width, height, n, width * height);
}

} // verus!
