use dithers::dither::{apply_bayer_dithering, apply_error_diffusion, dither, DitherMethod};
use dithers::palette::{map_to_palette, Color, ColorPalette};

const METHODS: [DitherMethod; 13] = [
    DitherMethod::NoDither,
    DitherMethod::FloydSteinberg,
    DitherMethod::Simple2D,
    DitherMethod::Jarvis,
    DitherMethod::Atkinson,
    DitherMethod::Stucki,
    DitherMethod::Burkes,
    DitherMethod::Sierra,
    DitherMethod::TwoRowSierra,
    DitherMethod::SierraLite,
    DitherMethod::Bayer2x2,
    DitherMethod::Bayer4x4,
    DitherMethod::Bayer8x8,
];

const PALETTES: [ColorPalette; 3] =
    [ColorPalette::Monochrome, ColorPalette::COLOR8, ColorPalette::COLOR16];

const SIZES: [(u32, u32); 9] =
    [(0, 0), (0, 3), (3, 0), (1, 1), (1, 7), (7, 1), (2, 2), (13, 9), (32, 17)];

/// A textured image of the given size, the same on every call.
fn textured(width: u32, height: u32) -> Vec<u8> {
    let mut state: u32 = 0x2545_f491;
    let mut buffer = Vec::new();
    for y in 0..height {
        for x in 0..width {
            state = state.wrapping_mul(1_664_525).wrapping_add(1_013_904_223);
            let noise = (state >> 24) % 64;
            buffer.push(((x * 5 + noise) % 256) as u8);
            buffer.push(((y * 9 + 2 * noise) % 256) as u8);
            buffer.push(((x * y + 3 * noise + 40) % 256) as u8);
        }
    }
    buffer
}

fn is_palette_color(pixel: &[u8], palette: &[Color]) -> bool {
    palette.iter().any(|c| c.r == pixel[0] && c.g == pixel[1] && c.b == pixel[2])
}

#[test]
fn output_has_the_length_of_the_input() {
    for (width, height) in SIZES {
        for method in METHODS {
            for palette in PALETTES {
                let mut buffer = textured(width, height);
                dither(&mut buffer, method, palette, width, height);
                assert_eq!(buffer.len(), (width * height * 3) as usize);
            }
        }
    }
}

#[test]
fn every_output_pixel_is_a_palette_color() {
    for (width, height) in SIZES {
        for method in METHODS {
            for palette in PALETTES {
                let mut buffer = textured(width, height);
                dither(&mut buffer, method, palette, width, height);
                let colors = palette.colors();
                for pixel in buffer.chunks_exact(3) {
                    assert!(
                        is_palette_color(pixel, &colors),
                        "{:?} with {:?} left {:?}",
                        method,
                        palette,
                        pixel
                    );
                }
            }
        }
    }
}

#[test]
fn monochrome_output_is_black_or_white() {
    for (width, height) in SIZES {
        for method in METHODS {
            let mut buffer = textured(width, height);
            dither(&mut buffer, method, ColorPalette::Monochrome, width, height);
            for pixel in buffer.chunks_exact(3) {
                assert!(pixel == [0, 0, 0] || pixel == [255, 255, 255], "{:?}", pixel);
            }
        }
    }
}

#[test]
fn quantizing_twice_is_quantizing_once() {
    for (width, height) in SIZES {
        for palette in PALETTES {
            let mut once = textured(width, height);
            dither(&mut once, DitherMethod::NoDither, palette, width, height);
            let mut twice = once.clone();
            dither(&mut twice, DitherMethod::NoDither, palette, width, height);
            assert_eq!(once, twice);
        }
    }
}

#[test]
fn dithering_the_same_input_twice_gives_the_same_output() {
    for (width, height) in SIZES {
        for method in METHODS {
            for palette in PALETTES {
                let mut first = textured(width, height);
                let mut second = textured(width, height);
                dither(&mut first, method, palette, width, height);
                dither(&mut second, method, palette, width, height);
                assert_eq!(first, second, "{:?} with {:?}", method, palette);
            }
        }
    }
}

#[test]
fn methods_diverge_on_a_textured_image() {
    let (width, height) = (32, 17);
    let mut floyd = textured(width, height);
    let mut atkinson = floyd.clone();
    let mut bayer = floyd.clone();
    let mut plain = floyd.clone();
    dither(&mut floyd, DitherMethod::FloydSteinberg, ColorPalette::COLOR8, width, height);
    dither(&mut atkinson, DitherMethod::Atkinson, ColorPalette::COLOR8, width, height);
    dither(&mut bayer, DitherMethod::Bayer4x4, ColorPalette::COLOR8, width, height);
    dither(&mut plain, DitherMethod::NoDither, ColorPalette::COLOR8, width, height);
    assert_ne!(floyd, atkinson);
    assert_ne!(floyd, bayer);
    assert_ne!(atkinson, bayer);
    assert_ne!(floyd, plain);
    assert_ne!(bayer, plain);
}

#[test]
fn single_pixel_images_work_for_every_method() {
    for method in METHODS {
        for palette in PALETTES {
            let colors = palette.colors();
            for pixel in [[0u8, 0, 0], [128, 128, 128], [255, 255, 255], [200, 30, 10], [12, 250, 99]]
            {
                let mut buffer = pixel.to_vec();
                dither(&mut buffer, method, palette, 1, 1);
                assert_eq!(buffer.len(), 3);
                assert!(is_palette_color(&buffer, &colors));
            }
        }
    }
}

#[test]
fn single_pixel_without_thresholds_becomes_its_nearest_color() {
    for method in METHODS {
        if method.threshold_matrix().is_some() {
            continue;
        }
        for palette in PALETTES {
            let colors = palette.colors();
            for pixel in [[0u8, 0, 0], [128, 128, 128], [255, 255, 255], [200, 30, 10], [12, 250, 99]]
            {
                let mut buffer = pixel.to_vec();
                dither(&mut buffer, method, palette, 1, 1);
                let (nearest, _) =
                    map_to_palette(Color { r: pixel[0], g: pixel[1], b: pixel[2] }, &colors);
                assert_eq!(buffer, vec![nearest.r, nearest.g, nearest.b], "{:?}", method);
            }
        }
    }
}

#[test]
fn empty_images_stay_empty() {
    for method in METHODS {
        for (width, height) in [(0u32, 0u32), (0, 4), (4, 0)] {
            let mut buffer: Vec<u8> = Vec::new();
            dither(&mut buffer, method, ColorPalette::COLOR16, width, height);
            assert!(buffer.is_empty());
        }
    }
}

#[test]
fn two_gray_pixels_without_dithering_split_into_white_and_black() {
    let mut buffer = vec![128, 128, 128, 64, 64, 64];
    dither(&mut buffer, DitherMethod::NoDither, ColorPalette::Monochrome, 2, 1);
    assert_eq!(buffer, vec![255, 255, 255, 0, 0, 0]);
}

#[test]
fn bayer2x2_on_flat_gray_follows_the_four_thresholds() {
    let mut buffer = vec![128u8; 12];
    dither(&mut buffer, DitherMethod::Bayer2x2, ColorPalette::COLOR8, 2, 2);
    // threshold 0: 128 - 127.5 = 0.5, cut to 0, nearest is black
    // threshold 1/2: 128, nearest is the gray 0x8e8e8e
    // threshold 3/4: 128 + 63.75, cut to 191, nearest is the gray 0x8e8e8e
    // threshold 1/4: 128 - 63.75, cut to 64, nearest is the blue 0x1d286f
    assert_eq!(buffer, vec![0, 0, 0, 142, 142, 142, 142, 142, 142, 29, 40, 111]);
}

#[test]
fn bayer_matrix_repeats_over_the_image() {
    let (width, height) = (6u32, 4u32);
    let mut buffer = vec![128u8; (width * height * 3) as usize];
    dither(&mut buffer, DitherMethod::Bayer2x2, ColorPalette::COLOR8, width, height);
    let tile = [[[0u8, 0, 0], [142, 142, 142]], [[142, 142, 142], [29, 40, 111]]];
    for y in 0..height as usize {
        for x in 0..width as usize {
            let i = (y * width as usize + x) * 3;
            assert_eq!(buffer[i..i + 3], tile[y % 2][x % 2], "pixel ({}, {})", x, y);
        }
    }
}

#[test]
fn floyd_steinberg_hands_seven_sixteenths_to_the_right() {
    // First pixel: 100 is nearer to black, the error is 100.
    // Second pixel: 200 + 100 * 7 / 16 = 243.75, stored as 244, nearer to white.
    let mut buffer = vec![100, 100, 100, 200, 200, 200];
    let palette = ColorPalette::Monochrome.colors();
    apply_error_diffusion(&mut buffer, DitherMethod::FloydSteinberg, &palette, 2, 1);
    assert_eq!(buffer, vec![0, 0, 0, 255, 255, 255]);

    // 120 + 120 * 7 / 16 = 172.5, stored as 173, nearer to white, though
    // 120 alone is nearer to black.
    let mut buffer = vec![120, 120, 120, 120, 120, 120];
    apply_error_diffusion(&mut buffer, DitherMethod::FloydSteinberg, &palette, 2, 1);
    assert_eq!(buffer, vec![0, 0, 0, 255, 255, 255]);
    let mut plain = vec![120, 120, 120, 120, 120, 120];
    dither(&mut plain, DitherMethod::NoDither, ColorPalette::Monochrome, 2, 1);
    assert_eq!(plain, vec![0, 0, 0, 0, 0, 0]);
}

#[test]
fn floyd_steinberg_spreads_over_the_next_row() {
    // 2 by 2, all 100. Pixel (0,0) turns black with error 100; it hands
    // 43.75 to (1,0), 31.25 to (0,1) and 6.25 to (1,1); nothing lies to
    // the lower left.
    //   (1,0) = 144 turns white with error -111; it hands -20.8125 to
    //   (0,1) and -34.6875 to (1,1).
    //   (0,1) = round(100 + 31.25) = 131, then round(131 - 20.8125) = 110,
    //   turns black with error 110; it hands 48.125 to (1,1).
    //   (1,1) = round(100 + 6.25) = 106, then round(106 - 34.6875) = 71,
    //   then round(71 + 48.125) = 119, turns black.
    let mut buffer = vec![100u8; 12];
    let palette = ColorPalette::Monochrome.colors();
    apply_error_diffusion(&mut buffer, DitherMethod::FloydSteinberg, &palette, 2, 2);
    assert_eq!(buffer, vec![0, 0, 0, 255, 255, 255, 0, 0, 0, 0, 0, 0]);
}

#[test]
fn error_diffusion_ignores_methods_without_a_kernel() {
    let palette = ColorPalette::COLOR8.colors();
    for method in [
        DitherMethod::NoDither,
        DitherMethod::Bayer2x2,
        DitherMethod::Bayer4x4,
        DitherMethod::Bayer8x8,
    ] {
        let mut buffer = textured(4, 3);
        let before = buffer.clone();
        apply_error_diffusion(&mut buffer, method, &palette, 4, 3);
        assert_eq!(buffer, before);
    }
}

#[test]
fn ordered_dithering_ignores_methods_without_a_matrix() {
    let palette = ColorPalette::COLOR8.colors();
    for method in METHODS {
        if method.threshold_matrix().is_some() {
            continue;
        }
        let mut buffer = textured(4, 3);
        let before = buffer.clone();
        apply_bayer_dithering(&mut buffer, method, &palette, 4, 3);
        assert_eq!(buffer, before);
    }
}

#[test]
fn dispatcher_agrees_with_the_two_engines() {
    let (width, height) = (13, 9);
    for palette in PALETTES {
        let colors = palette.colors();
        for method in METHODS {
            let mut whole = textured(width, height);
            dither(&mut whole, method, palette, width, height);
            let mut part = textured(width, height);
            if method.kernel().is_some() {
                apply_error_diffusion(&mut part, method, &colors, width, height);
            } else if method.threshold_matrix().is_some() {
                apply_bayer_dithering(&mut part, method, &colors, width, height);
            } else {
                for pixel in part.chunks_exact_mut(3) {
                    let (nearest, _) =
                        map_to_palette(Color { r: pixel[0], g: pixel[1], b: pixel[2] }, &colors);
                    pixel[0] = nearest.r;
                    pixel[1] = nearest.g;
                    pixel[2] = nearest.b;
                }
            }
            assert_eq!(whole, part, "{:?} with {:?}", method, palette);
        }
    }
}

#[test]
fn works_with_a_palette_of_the_callers_own() {
    let palette = [
        Color { r: 255, g: 0, b: 0 },
        Color { r: 0, g: 255, b: 0 },
        Color { r: 0, g: 0, b: 255 },
    ];
    for method in METHODS {
        let mut buffer = textured(9, 5);
        if method.kernel().is_some() {
            apply_error_diffusion(&mut buffer, method, &palette, 9, 5);
        } else if method.threshold_matrix().is_some() {
            apply_bayer_dithering(&mut buffer, method, &palette, 9, 5);
        } else {
            continue;
        }
        for pixel in buffer.chunks_exact(3) {
            assert!(is_palette_color(pixel, &palette));
        }
    }
}

#[test]
fn error_diffusion_never_looks_ahead() {
    let (width, height) = (13u32, 9u32);
    let palette = ColorPalette::COLOR16.colors();
    for method in METHODS {
        if method.kernel().is_none() {
            continue;
        }
        let image = textured(width, height);
        let mut whole = image.clone();
        apply_error_diffusion(&mut whole, method, &palette, width, height);
        for kept in [0usize, 1, 12, 13, 14, 60, 116, 117] {
            // change every pixel from `kept` on
            let mut changed = image.clone();
            for sample in changed[3 * kept..].iter_mut() {
                *sample = sample.wrapping_mul(31).wrapping_add(77);
            }
            apply_error_diffusion(&mut changed, method, &palette, width, height);
            assert_eq!(whole[..3 * kept], changed[..3 * kept], "{:?} keeping {}", method, kept);
        }
    }
}

#[test]
fn ordered_dithering_and_quantization_treat_every_pixel_alone() {
    let (width, height) = (13u32, 9u32);
    for method in [
        DitherMethod::NoDither,
        DitherMethod::Bayer2x2,
        DitherMethod::Bayer4x4,
        DitherMethod::Bayer8x8,
    ] {
        let image = textured(width, height);
        let mut whole = image.clone();
        dither(&mut whole, method, ColorPalette::COLOR16, width, height);
        for kept in [0usize, 5, 58, 116] {
            // change every pixel but `kept`
            let mut changed = image.clone();
            for (j, sample) in changed.iter_mut().enumerate() {
                if j / 3 != kept {
                    *sample = sample.wrapping_mul(31).wrapping_add(77);
                }
            }
            dither(&mut changed, method, ColorPalette::COLOR16, width, height);
            assert_eq!(whole[3 * kept..3 * kept + 3], changed[3 * kept..3 * kept + 3]);
        }
    }
}
