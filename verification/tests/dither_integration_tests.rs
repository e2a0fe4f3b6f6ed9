use dithers::dither::{dither, DitherMethod};
use dithers::palette::ColorPalette;

/// A synthetic image with smooth ramps and some texture, 96 by 64 pixels.
fn test_image() -> (Vec<u8>, u32, u32) {
    let (width, height) = (96u32, 64u32);
    let mut buffer = Vec::with_capacity((width * height * 3) as usize);
    for y in 0..height {
        for x in 0..width {
            buffer.push(((x * 255) / (width - 1)) as u8);
            buffer.push(((y * 255) / (height - 1)) as u8);
            buffer.push(((x * 7 + y * 13 + (x * y) % 31) % 256) as u8);
        }
    }
    (buffer, width, height)
}

#[test]
fn test_floyd_steinberg_all_palettes() {
    let (buffer, width, height) = test_image();
    let original_buffer = buffer.clone();

    // Test with monochrome
    let mut test_buffer = original_buffer.clone();
    dither(&mut test_buffer, DitherMethod::FloydSteinberg, ColorPalette::Monochrome, width, height);
    assert_ne!(test_buffer, original_buffer, "Buffer should be modified by dithering");

    // Test with 8-color
    let mut test_buffer = original_buffer.clone();
    dither(&mut test_buffer, DitherMethod::FloydSteinberg, ColorPalette::COLOR8, width, height);
    assert_ne!(test_buffer, original_buffer, "Buffer should be modified by dithering");

    // Test with 16-color
    let mut test_buffer = original_buffer.clone();
    dither(&mut test_buffer, DitherMethod::FloydSteinberg, ColorPalette::COLOR16, width, height);
    assert_ne!(test_buffer, original_buffer, "Buffer should be modified by dithering");
}

#[test]
fn test_error_diffusion_algorithms() {
    let (buffer, width, height) = test_image();
    let original_buffer = buffer.clone();

    let algorithms = [
        DitherMethod::FloydSteinberg,
        DitherMethod::Simple2D,
        DitherMethod::Jarvis,
        DitherMethod::Atkinson,
        DitherMethod::Stucki,
        DitherMethod::Burkes,
        DitherMethod::Sierra,
        DitherMethod::TwoRowSierra,
        DitherMethod::SierraLite,
    ];

    for algorithm in algorithms {
        let mut test_buffer = original_buffer.clone();
        dither(&mut test_buffer, algorithm, ColorPalette::COLOR8, width, height);
        assert_ne!(test_buffer, original_buffer, "Algorithm {:?} should modify the buffer", algorithm);
    }
}

#[test]
fn test_bayer_algorithms() {
    let (buffer, width, height) = test_image();
    let original_buffer = buffer.clone();

    let algorithms = [DitherMethod::Bayer2x2, DitherMethod::Bayer4x4, DitherMethod::Bayer8x8];

    for algorithm in algorithms {
        let mut test_buffer = original_buffer.clone();
        dither(&mut test_buffer, algorithm, ColorPalette::COLOR8, width, height);
        assert_ne!(
            test_buffer, original_buffer,
            "Bayer algorithm {:?} should modify the buffer",
            algorithm
        );
    }
}

#[test]
fn test_no_dithering() {
    let (buffer, width, height) = test_image();
    let original_buffer = buffer.clone();

    let mut test_buffer = original_buffer.clone();
    dither(&mut test_buffer, DitherMethod::NoDither, ColorPalette::COLOR8, width, height);

    // Should still modify buffer due to palette quantization
    assert_ne!(test_buffer, original_buffer, "Even 'None' dithering should quantize colors");
}

#[test]
fn test_monochrome_palette_output() {
    let (buffer, width, height) = test_image();
    let mut test_buffer = buffer;

    dither(&mut test_buffer, DitherMethod::FloydSteinberg, ColorPalette::Monochrome, width, height);

    // Check that all pixels are either black (0,0,0) or white (255,255,255)
    for chunk in test_buffer.chunks_exact(3) {
        let (r, g, b) = (chunk[0], chunk[1], chunk[2]);
        assert!(
            (r == 0 && g == 0 && b == 0) || (r == 255 && g == 255 && b == 255),
            "Monochrome pixel should be black (0,0,0) or white (255,255,255), got ({},{},{})",
            r,
            g,
            b
        );
    }
}

#[test]
fn test_all_algorithms_with_all_palettes() {
    let (buffer, width, height) = test_image();

    let algorithms = [
        DitherMethod::NoDither,
        DitherMethod::FloydSteinberg,
        DitherMethod::Simple2D,
        DitherMethod::Jarvis,
        DitherMethod::Atkinson,
        DitherMethod::Stucki,
        DitherMethod::Burkes,
        DitherMethod::Sierra,
        DitherMethod::TwoRowSierra,
        DitherMethod::SierraLite,
        DitherMethod::Bayer2x2,
        DitherMethod::Bayer4x4,
        DitherMethod::Bayer8x8,
    ];

    let palettes = [ColorPalette::Monochrome, ColorPalette::COLOR8, ColorPalette::COLOR16];

    for algorithm in algorithms {
        for palette in palettes {
            let mut test_buffer = buffer.clone();

            // This should not panic
            dither(&mut test_buffer, algorithm, palette, width, height);

            // Buffer should be valid RGB data
            assert_eq!(
                test_buffer.len(),
                (width * height * 3) as usize,
                "Buffer size should remain consistent for {:?} with {:?}",
                algorithm,
                palette
            );
        }
    }
}

#[test]
fn test_buffer_bounds() {
    let (buffer, width, height) = test_image();
    let mut test_buffer = buffer;

    dither(&mut test_buffer, DitherMethod::FloydSteinberg, ColorPalette::Monochrome, width, height);

    // If we get here without panicking, bounds checking worked
    assert_eq!(test_buffer.len(), (width * height * 3) as usize);
}

#[test]
fn test_different_algorithms_produce_different_results() {
    let (buffer, width, height) = test_image();

    let mut floyd_buffer = buffer.clone();
    let mut atkinson_buffer = buffer.clone();
    let mut bayer_buffer = buffer;

    dither(&mut floyd_buffer, DitherMethod::FloydSteinberg, ColorPalette::COLOR8, width, height);
    dither(&mut atkinson_buffer, DitherMethod::Atkinson, ColorPalette::COLOR8, width, height);
    dither(&mut bayer_buffer, DitherMethod::Bayer4x4, ColorPalette::COLOR8, width, height);

    // Different algorithms should produce different results
    assert_ne!(floyd_buffer, atkinson_buffer, "Floyd-Steinberg and Atkinson should produce different results");
    assert_ne!(floyd_buffer, bayer_buffer, "Floyd-Steinberg and Bayer should produce different results");
    assert_ne!(atkinson_buffer, bayer_buffer, "Atkinson and Bayer should produce different results");
}
