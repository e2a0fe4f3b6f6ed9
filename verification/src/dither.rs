//! Dithering methods and the dispatcher that applies them to a buffer.

use crate::diffusion::{
    diffuse_pixel, diffuse_pixel_at, diffuse_upto, diffused, lemma_diffused_in_palette,
    DiffusionKernel, KernelView,
};
use crate::ordered::{
    lemma_ordered_in_palette, ordered, threshold_sample, MatrixView, ThresholdMatrix,
};
use crate::palette::{
    lemma_monochrome_colors, lemma_nearest_exists, lemma_palette_entry_maps_to_itself,
    map_to_palette, nearest, nearest_index, Color, ColorPalette,
};
use crate::raster::{
    all_in_palette, fits, in_palette, lemma_pixel_position, lemma_quantized_in_palette,
    lemma_quantized_pixel, pixel, pixel_count, quantized, sample_index,
};
use vstd::prelude::*;

verus! {

/// Available dithering methods.
#[derive(Copy, Clone, Debug, PartialEq, Eq, Structural)]
pub enum DitherMethod {
    /// Nearest-color quantization without any dithering.
    NoDither,
    /// Floyd-Steinberg error diffusion.
    FloydSteinberg,
    /// Error diffusion to the right and the lower neighbour, half each.
    Simple2D,
    /// Jarvis, Judice and Ninke error diffusion.
    Jarvis,
    /// Atkinson error diffusion.
    Atkinson,
    /// Stucki error diffusion.
    Stucki,
    /// Burkes error diffusion.
    Burkes,
    /// Sierra error diffusion over three rows.
    Sierra,
    /// Sierra error diffusion over two rows.
    TwoRowSierra,
    /// Sierra Lite error diffusion.
    SierraLite,
    /// Ordered dithering with the 2 by 2 Bayer matrix.
    Bayer2x2,
    /// Ordered dithering with the 4 by 4 Bayer matrix.
    Bayer4x4,
    /// Ordered dithering with the 8 by 8 Bayer matrix.
    Bayer8x8,
}

impl Default for DitherMethod {
    fn default() -> (method: Self)
        ensures
            method == DitherMethod::FloydSteinberg,
    {
        DitherMethod::FloydSteinberg
    }
}

/// Per-channel difference between a color and the palette entry chosen
/// for it: original minus chosen, each in `-255..=255`.
#[derive(Clone, Copy, Debug, PartialEq, Eq, Structural)]
pub struct QuantizationError {
    pub r: i16,
    pub g: i16,
    pub b: i16,
}

/// Floyd-Steinberg weights in sixteenths, 3 columns by 2 rows.
pub const FLOYD_STEINBERG: [u8; 6] = [0, 0, 7, 3, 5, 1];

/// Jarvis, Judice and Ninke weights in forty-eighths, 5 columns by 3 rows.
pub const JARVIS: [u8; 15] = [0, 0, 0, 7, 5, 3, 5, 7, 5, 3, 1, 3, 5, 3, 1];

/// Simple two-dimensional weights in halves, 2 columns by 2 rows.
pub const SIMPLE2D: [u8; 4] = [0, 1, 1, 0];

/// Atkinson weights in eighths, 4 columns by 3 rows. Only six eighths of
/// the error are handed on.
pub const ATKINSON: [u8; 12] = [0, 0, 1, 1, 1, 1, 1, 0, 0, 1, 0, 0];

/// Stucki weights in forty-seconds, 5 columns by 3 rows.
pub const STUCKI: [u8; 15] = [0, 0, 0, 8, 4, 2, 4, 8, 4, 2, 1, 2, 4, 2, 1];

/// Burkes weights in thirty-seconds, 5 columns by 2 rows.
pub const BURKES: [u8; 10] = [0, 0, 0, 8, 4, 2, 4, 8, 4, 2];

/// Sierra weights in thirty-seconds, 5 columns by 3 rows.
pub const SIERRA: [u8; 15] = [0, 0, 0, 5, 3, 2, 4, 5, 4, 2, 0, 2, 3, 2, 0];

/// Two-row Sierra weights in sixteenths, 5 columns by 2 rows.
pub const TWOROWSIERRA: [u8; 10] = [0, 0, 0, 4, 3, 1, 2, 3, 2, 1];

/// Sierra Lite weights in quarters, 3 columns by 2 rows.
pub const SIERRALITE: [u8; 6] = [0, 0, 2, 1, 1, 0];

/// Bayer thresholds of order one in quarters, 2 by 2.
pub const BAYER2X2: [u8; 4] = [0, 2, 3, 1];

/// Bayer thresholds of order two in sixteenths, 4 by 4.
pub const BAYER4X4: [u8; 16] = [0, 8, 2, 10, 12, 4, 14, 6, 3, 11, 1, 9, 15, 7, 13, 5];

/// Bayer thresholds of order three in sixty-fourths, 8 by 8.
pub const BAYER8X8: [u8; 64] = [
    0, 32, 8, 40, 2, 34, 10, 42,
    48, 16, 56, 24, 50, 18, 58, 26,
    12, 44, 4, 36, 14, 46, 6, 38,
    60, 28, 52, 20, 62, 30, 54, 22,
    3, 35, 11, 43, 1, 33, 9, 41,
    51, 19, 59, 27, 49, 17, 57, 25,
    15, 47, 7, 39, 13, 45, 5, 37,
    63, 31, 55, 23, 61, 29, 53, 21,
];

/// The threshold matrix with the given numerators and shape.
pub open spec fn tile(values: Seq<u8>, side: int, divisor: int) -> MatrixView {
    MatrixView { values: Seq::new(values.len(), |i: int| values[i] as int), side, divisor }
}

/// The kernel with the given numerators and shape.
pub open spec fn grid(weights: Seq<u8>, width: int, height: int, x_offset: int, divisor: int)
    -> KernelView {
    KernelView {
        weights: Seq::new(weights.len(), |i: int| weights[i] as int),
        width,
        height,
        x_offset,
        divisor,
    }
}

impl DitherMethod {
    /// The kernel of an error-diffusion method; `None` for the others.
    pub open spec fn kernel_view(self) -> Option<KernelView> {
        match self {
            DitherMethod::FloydSteinberg => Some(grid(FLOYD_STEINBERG@, 3, 2, 1, 16)),
            DitherMethod::Simple2D => Some(grid(SIMPLE2D@, 2, 2, 0, 2)),
            DitherMethod::Jarvis => Some(grid(JARVIS@, 5, 3, 2, 48)),
            DitherMethod::Atkinson => Some(grid(ATKINSON@, 4, 3, 1, 8)),
            DitherMethod::Stucki => Some(grid(STUCKI@, 5, 3, 2, 42)),
            DitherMethod::Burkes => Some(grid(BURKES@, 5, 2, 2, 32)),
            DitherMethod::Sierra => Some(grid(SIERRA@, 5, 3, 2, 32)),
            DitherMethod::TwoRowSierra => Some(grid(TWOROWSIERRA@, 5, 2, 2, 16)),
            DitherMethod::SierraLite => Some(grid(SIERRALITE@, 3, 2, 1, 4)),
            _ => None,
        }
    }

    /// The threshold matrix of an ordered method; `None` for the others.
    pub open spec fn matrix_view(self) -> Option<MatrixView> {
        match self {
            DitherMethod::Bayer2x2 => Some(tile(BAYER2X2@, 2, 4)),
            DitherMethod::Bayer4x4 => Some(tile(BAYER4X4@, 4, 16)),
            DitherMethod::Bayer8x8 => Some(tile(BAYER8X8@, 8, 64)),
            _ => None,
        }
    }

    /// The threshold matrix of an ordered method; `None` for the others.
    pub fn threshold_matrix(self) -> (matrix: Option<ThresholdMatrix<'static>>)
        ensures
            matrix is Some <==> self.matrix_view() is Some,
            matrix matches Some(m) ==> m@ == self.matrix_view().unwrap() && m@.wf(),
    {
        match self {
            DitherMethod::Bayer2x2 => Some(
                ThresholdMatrix { values: &BAYER2X2, side: 2, divisor: 4 },
            ),
            DitherMethod::Bayer4x4 => Some(
                ThresholdMatrix { values: &BAYER4X4, side: 4, divisor: 16 },
            ),
            DitherMethod::Bayer8x8 => Some(
                ThresholdMatrix { values: &BAYER8X8, side: 8, divisor: 64 },
            ),
            _ => None,
        }
    }

    /// The kernel of an error-diffusion method; `None` for the others.
    pub fn kernel(self) -> (kernel: Option<DiffusionKernel<'static>>)
        ensures
            kernel is Some <==> self.kernel_view() is Some,
            kernel matches Some(k) ==> k@ == self.kernel_view().unwrap() && k@.wf(),
    {
        match self {
            DitherMethod::FloydSteinberg => Some(
                DiffusionKernel {
                    weights: &FLOYD_STEINBERG,
                    width: 3,
                    height: 2,
                    x_offset: 1,
                    divisor: 16,
                },
            ),
            DitherMethod::Simple2D => Some(
                DiffusionKernel { weights: &SIMPLE2D, width: 2, height: 2, x_offset: 0, divisor: 2 },
            ),
            DitherMethod::Jarvis => Some(
                DiffusionKernel { weights: &JARVIS, width: 5, height: 3, x_offset: 2, divisor: 48 },
            ),
            DitherMethod::Atkinson => Some(
                DiffusionKernel { weights: &ATKINSON, width: 4, height: 3, x_offset: 1, divisor: 8 },
            ),
            DitherMethod::Stucki => Some(
                DiffusionKernel { weights: &STUCKI, width: 5, height: 3, x_offset: 2, divisor: 42 },
            ),
            DitherMethod::Burkes => Some(
                DiffusionKernel { weights: &BURKES, width: 5, height: 2, x_offset: 2, divisor: 32 },
            ),
            DitherMethod::Sierra => Some(
                DiffusionKernel { weights: &SIERRA, width: 5, height: 3, x_offset: 2, divisor: 32 },
            ),
            DitherMethod::TwoRowSierra => Some(
                DiffusionKernel {
                    weights: &TWOROWSIERRA,
                    width: 5,
                    height: 2,
                    x_offset: 2,
                    divisor: 16,
                },
            ),
            DitherMethod::SierraLite => Some(
                DiffusionKernel {
                    weights: &SIERRALITE,
                    width: 3,
                    height: 2,
                    x_offset: 1,
                    divisor: 4,
                },
            ),
            _ => None,
        }
    }
}

/// The buffer after error diffusion with the kernel of `method`; the
/// buffer itself for a method that has no kernel.
pub open spec fn error_diffused(
    s: Seq<u8>,
    method: DitherMethod,
    palette: Seq<Color>,
    width: int,
    height: int,
) -> Seq<u8> {
    match method.kernel_view() {
        Some(kernel) => diffused(s, kernel, palette, width, height),
        None => s,
    }
}

/// Error-diffusion dithering in place.
///
/// Visits the pixels row by row from the top, each row from the left.
/// Every pixel is replaced by the palette color nearest to its current
/// value, and the difference is spread over pixels not visited yet, as
/// the kernel of `dither_type` says. Does nothing for a method without a
/// kernel.
pub fn apply_error_diffusion(
    buffer: &mut [u8],
    dither_type: DitherMethod,
    color_palette: &[Color],
    width: u32,
    height: u32,
)
    requires
        color_palette@.len() > 0,
        fits(old(buffer)@, width as int, height as int),
    ensures
        final(buffer)@.len() == old(buffer)@.len(),
        final(buffer)@ == error_diffused(
            old(buffer)@,
            dither_type,
            color_palette@,
            width as int,
            height as int,
        ),
        dither_type.kernel_view() is Some ==> all_in_palette(final(buffer)@, color_palette@),
{
    let kernel = match dither_type.kernel() {
        Some(kernel) => kernel,
        None => {
            return ;
        },
    };
    let ghost s0 = buffer@;
    let ghost w = width as int;
    let ghost h = height as int;
    let mut cy: u32 = 0;
    while cy < height
        invariant
            kernel@.wf(),
            color_palette@.len() > 0,
            fits(s0, w, h),
            w == width,
            h == height,
            cy <= height,
            buffer.len() == s0.len(),
            buffer@ == diffuse_upto(s0, kernel@, color_palette@, w, cy * width),
        decreases height - cy,
    {
        let mut cx: u32 = 0;
        while cx < width
            invariant
                kernel@.wf(),
                color_palette@.len() > 0,
                fits(s0, w, h),
                w == width,
                h == height,
                cy < height,
                cx <= width,
                buffer.len() == s0.len(),
                buffer@ == diffuse_upto(s0, kernel@, color_palette@, w, cy * width + cx),
            decreases width - cx,
        {
            proof {
                lemma_pixel_position(cx as int, cy as int, w, h);
            }
            diffuse_pixel_at(buffer, &kernel, color_palette, width, height, cx, cy);
            cx += 1;
        }
        proof {
            assert((cy + 1) * width == cy * width + width) by (nonlinear_arith);
        }
        cy += 1;
    }
    proof {
        assert(height * width == w * h) by (nonlinear_arith)
            requires
                w == width,
                h == height,
        ;
        lemma_diffused_in_palette(s0, kernel@, color_palette@, w, h);
    }
}

/// The buffer after ordered dithering with the matrix of `method`; the
/// buffer itself for a method that has no matrix.
pub open spec fn ordered_dithered(
    s: Seq<u8>,
    method: DitherMethod,
    palette: Seq<Color>,
    width: int,
) -> Seq<u8> {
    match method.matrix_view() {
        Some(matrix) => ordered(s, matrix, palette, width),
        None => s,
    }
}

/// Ordered dithering in place.
///
/// Shifts every pixel by the threshold that the matrix of `dither_type`
/// holds for its position, the matrix being repeated over the image, and
/// replaces it by the palette color nearest to the shifted value. Does
/// nothing for a method without a matrix.
pub fn apply_bayer_dithering(
    buffer: &mut [u8],
    dither_type: DitherMethod,
    color_palette: &[Color],
    width: u32,
    height: u32,
)
    requires
        color_palette@.len() > 0,
        fits(old(buffer)@, width as int, height as int),
    ensures
        final(buffer)@.len() == old(buffer)@.len(),
        final(buffer)@ == ordered_dithered(
            old(buffer)@,
            dither_type,
            color_palette@,
            width as int,
        ),
        dither_type.matrix_view() is Some ==> all_in_palette(final(buffer)@, color_palette@),
{
    let matrix = match dither_type.threshold_matrix() {
        Some(matrix) => matrix,
        None => {
            return ;
        },
    };
    let ghost s0 = buffer@;
    let ghost w = width as int;
    let ghost h = height as int;
    let ghost done = ordered(s0, matrix@, color_palette@, w);
    let mut cy: u32 = 0;
    while cy < height
        invariant
            matrix@.wf(),
            color_palette@.len() > 0,
            fits(s0, w, h),
            w == width,
            h == height,
            cy <= height,
            done == ordered(s0, matrix@, color_palette@, w),
            buffer.len() == s0.len(),
            forall|j: int|
                0 <= j < s0.len() ==> buffer@[j] == if j / 3 < cy * width {
                    done[j]
                } else {
                    s0[j]
                },
        decreases height - cy,
    {
        let mut cx: u32 = 0;
        while cx < width
            invariant
                matrix@.wf(),
                color_palette@.len() > 0,
                fits(s0, w, h),
                w == width,
                h == height,
                cy < height,
                cx <= width,
                done == ordered(s0, matrix@, color_palette@, w),
                buffer.len() == s0.len(),
                forall|j: int|
                    0 <= j < s0.len() ==> buffer@[j] == if j / 3 < cy * width + cx {
                        done[j]
                    } else {
                        s0[j]
                    },
            decreases width - cx,
        {
            proof {
                lemma_pixel_position(cx as int, cy as int, w, h);
            }
            let i: usize = sample_index(cx, cy, width, height);
            let matrix_x: usize = (cx % matrix.side as u32) as usize;
            let matrix_y: usize = (cy % matrix.side as u32) as usize;
            proof {
                lemma_pixel_position(
                    matrix_x as int,
                    matrix_y as int,
                    matrix.side as int,
                    matrix.side as int,
                );
                assert(0 <= matrix_y * matrix.side <= 65025) by (nonlinear_arith)
                    requires
                        0 <= matrix_y <= 255,
                        0 <= matrix.side <= 255,
                ;
            }
            let threshold: u8 = matrix.values[matrix_y * matrix.side as usize + matrix_x];

            // Apply threshold to each color channel
            let mut color = Color::from_slice(&buffer[i..i + 3]);
            color.r = threshold_sample(color.r, threshold, matrix.divisor);
            color.g = threshold_sample(color.g, threshold, matrix.divisor);
            color.b = threshold_sample(color.b, threshold, matrix.divisor);

            let (new_color, _) = map_to_palette(color, color_palette);
            buffer[i] = new_color.r;
            buffer[i + 1] = new_color.g;
            buffer[i + 2] = new_color.b;
            cx += 1;
        }
        proof {
            assert((cy + 1) * width == cy * width + width) by (nonlinear_arith);
        }
        cy += 1;
    }
    proof {
        assert(height * width * 3 == s0.len()) by (nonlinear_arith)
            requires
                s0.len() == w * h * 3,
                w == width,
                h == height,
        ;
        assert(buffer@ =~= done);
        lemma_ordered_in_palette(s0, matrix@, color_palette@, w);
    }
}

/// The color is pure black or pure white.
pub open spec fn is_black_or_white(color: Color) -> bool {
    color == (Color { r: 0, g: 0, b: 0 }) || color == (Color { r: 255, g: 255, b: 255 })
}

/// The buffer that [`dither`] leaves behind: plain quantization where no
/// dithering is asked for, ordered dithering for a method with a
/// threshold matrix, and error diffusion for all others.
pub open spec fn dithered(
    s: Seq<u8>,
    method: DitherMethod,
    palette: Seq<Color>,
    width: int,
    height: int,
) -> Seq<u8> {
    if method == DitherMethod::NoDither {
        quantized(s, palette)
    } else if method.matrix_view() is Some {
        ordered_dithered(s, method, palette, width)
    } else {
        error_diffused(s, method, palette, width, height)
    }
}

/// Restricts an image to a palette, in place, with the given dithering
/// method.
///
/// `buffer` holds `width * height` pixels of three samples each, row by
/// row. Afterwards every pixel holds a color of the palette; the length
/// of the buffer does not change.
pub fn dither(
    buffer: &mut [u8],
    dither_type: DitherMethod,
    color_palette: ColorPalette,
    width: u32,
    height: u32,
)
    requires
        fits(old(buffer)@, width as int, height as int),
    ensures
        final(buffer)@.len() == old(buffer)@.len(),
        final(buffer)@ == dithered(
            old(buffer)@,
            dither_type,
            color_palette@,
            width as int,
            height as int,
        ),
        all_in_palette(final(buffer)@, color_palette@),
        color_palette == ColorPalette::Monochrome ==> forall|p: int|
            0 <= p < pixel_count(final(buffer)@) ==> is_black_or_white(
                #[trigger] pixel(final(buffer)@, p),
            ),
{
    // get the color palette as slice
    let colors = color_palette.colors();
    let palette = colors.as_slice();

    match dither_type {
        DitherMethod::NoDither => {
            // Just quantize without dithering
            let ghost s0 = buffer@;
            let ghost w = width as int;
            let ghost h = height as int;
            let ghost done = quantized(s0, palette@);
                    let mut cy: u32 = 0;
            while cy < height
                invariant
                    palette@.len() > 0,
                    fits(s0, w, h),
                    w == width,
                    h == height,
                    cy <= height,
                    done == quantized(s0, palette@),
                    buffer.len() == s0.len(),
                    forall|j: int|
                        0 <= j < s0.len() ==> buffer@[j] == if j / 3 < cy * width {
                            done[j]
                        } else {
                            s0[j]
                        },
                decreases height - cy,
            {
                let mut cx: u32 = 0;
                while cx < width
                    invariant
                        palette@.len() > 0,
                        fits(s0, w, h),
                        w == width,
                        h == height,
                        cy < height,
                        cx <= width,
                        done == quantized(s0, palette@),
                        buffer.len() == s0.len(),
                        forall|j: int|
                            0 <= j < s0.len() ==> buffer@[j] == if j / 3 < cy * width + cx {
                                done[j]
                            } else {
                                s0[j]
                            },
                    decreases width - cx,
                {
                    proof {
                        lemma_pixel_position(cx as int, cy as int, w, h);
                    }
                    let i: usize = sample_index(cx, cy, width, height);
                    let (new_color, _) = map_to_palette(
                        Color::from_slice(&buffer[i..i + 3]),
                        palette,
                    );
                    buffer[i] = new_color.r;
                    buffer[i + 1] = new_color.g;
                    buffer[i + 2] = new_color.b;
                    cx += 1;
                }
                proof {
                    assert((cy + 1) * width == cy * width + width) by (nonlinear_arith);
                }
                cy += 1;
            }
            proof {
                assert(height * width * 3 == s0.len()) by (nonlinear_arith)
                    requires
                        s0.len() == w * h * 3,
                        w == width,
                        h == height,
                ;
                assert(buffer@ =~= done);
                lemma_quantized_in_palette(s0, palette@);
            }
        },
        DitherMethod::Bayer2x2 | DitherMethod::Bayer4x4 | DitherMethod::Bayer8x8 => {
            apply_bayer_dithering(buffer, dither_type, palette, width, height);
        },
        _ => {
            apply_error_diffusion(buffer, dither_type, palette, width, height);
        },
    }
    proof {
        if color_palette == ColorPalette::Monochrome {
            lemma_monochrome_colors();
            assert forall|p: int| 0 <= p < pixel_count(buffer@) implies is_black_or_white(
                #[trigger] pixel(buffer@, p),
            ) by {
                assert(in_palette(pixel(buffer@, p), color_palette@));
            }
        }
    }
}

/// Quantizing without dithering twice gives what quantizing once gives:
/// after the first pass every pixel holds a palette color, and a palette
/// color maps to itself.
pub proof fn lemma_no_dither_is_idempotent(
    s: Seq<u8>,
    palette: Seq<Color>,
    width: int,
    height: int,
)
    requires
        palette.len() > 0,
        fits(s, width, height),
    ensures
        dithered(
            dithered(s, DitherMethod::NoDither, palette, width, height),
            DitherMethod::NoDither,
            palette,
            width,
            height,
        ) == dithered(s, DitherMethod::NoDither, palette, width, height),
{
    let once = quantized(s, palette);
    let twice = quantized(once, palette);
    assert forall|j: int| 0 <= j < s.len() implies twice[j] == once[j] by {
        let p = j / 3;
        lemma_nearest_exists(pixel(s, p), palette);
        lemma_quantized_pixel(s, palette, p);
        lemma_palette_entry_maps_to_itself(palette, nearest_index(pixel(s, p), palette));
    }
    assert(twice =~= once);
}

/// The result of dithering depends on nothing but the buffer, the method,
/// the palette and the dimensions: equal inputs give equal outputs.
pub proof fn lemma_dithering_is_deterministic(
    a: Seq<u8>,
    b: Seq<u8>,
    method: DitherMethod,
    palette: ColorPalette,
    width: int,
    height: int,
)
    requires
        a == b,
    ensures
        dithered(a, method, palette@, width, height) == dithered(
            b,
            method,
            palette@,
            width,
            height,
        ),
{
}

/// In an image of a single pixel there is no neighbour to hand error to:
/// every method that does not shift the pixel by a threshold leaves the
/// palette color nearest to it.
pub proof fn lemma_single_pixel(s: Seq<u8>, method: DitherMethod, palette: Seq<Color>)
    requires
        palette.len() > 0,
        fits(s, 1, 1),
        method.matrix_view() is None,
    ensures
        dithered(s, method, palette, 1, 1) == quantized(s, palette),
{
    if method != DitherMethod::NoDither {
        let kernel = method.kernel_view().unwrap();
        let out = diffuse_pixel(s, kernel, palette, 1, 0);
        assert(diffuse_upto(s, kernel, palette, 1, 0) == s);
        assert(diffuse_upto(s, kernel, palette, 1, 1) == out);
        assert(out =~= quantized(s, palette));
    }
}

} // verus!
