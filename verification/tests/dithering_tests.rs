use cat_printer::dithering::{
    atkinson_dither, bayer_dither, dither_image, halftone_dither, threshold_dither, ImageDithering,
};

#[test]
fn threshold_cuts_at_127_inclusive_white() {
    let mut pixels = vec![0u8, 126, 127, 128, 255];
    threshold_dither(&mut pixels);
    assert_eq!(pixels, vec![0, 0, 255, 255, 255]);
}

#[test]
fn threshold_leaves_all_white_unchanged() {
    let mut pixels = vec![255u8; 384 * 10];
    threshold_dither(&mut pixels);
    assert!(pixels.iter().all(|&p| p == 255));
}

#[test]
fn atkinson_mid_gray_is_binary() {
    let mut pixels = vec![127u8; 4 * 3];
    atkinson_dither(&mut pixels, 4, 3);
    assert!(pixels.iter().all(|&p| p == 0 || p == 255));
}

#[test]
fn atkinson_mid_gray_exact_pattern() {
    let mut pixels = vec![127u8; 4 * 3];
    atkinson_dither(&mut pixels, 4, 3);
    assert_eq!(pixels, vec![0, 255, 255, 0, 255, 0, 0, 255, 255, 0, 0, 255]);
}

#[test]
fn atkinson_single_pixels() {
    let mut dark = vec![100u8];
    atkinson_dither(&mut dark, 1, 1);
    assert_eq!(dark, vec![0]);
    let mut light = vec![200u8];
    atkinson_dither(&mut light, 1, 1);
    assert_eq!(light, vec![255]);
}

#[test]
fn atkinson_leaves_tail_bytes_untouched() {
    let mut pixels = vec![127u8, 127, 127, 127, 42, 43];
    atkinson_dither(&mut pixels, 2, 2);
    assert_eq!(&pixels[4..], &[42, 43]);
}

#[test]
fn bayer_uniform_gray_pattern() {
    let mut pixels = vec![100u8; 16];
    bayer_dither(&mut pixels, 4, 4);
    assert_eq!(
        pixels,
        vec![255, 0, 255, 0, 0, 255, 0, 0, 255, 0, 255, 0, 0, 0, 0, 255]
    );
}

#[test]
fn bayer_extremes() {
    let mut black = vec![0u8; 16];
    bayer_dither(&mut black, 4, 4);
    assert!(black.iter().all(|&p| p == 0));
    // White scales to 15, which beats every matrix cell except the 15 at
    // row 3, column 0: that one pixel per tile stays black.
    let mut white = vec![255u8; 16];
    bayer_dither(&mut white, 4, 4);
    let mut expected = vec![255u8; 16];
    expected[3 * 4] = 0;
    assert_eq!(white, expected);
}

#[test]
fn halftone_all_white_is_blank() {
    let pixels = vec![255u8; 16];
    let (out, w, h) = halftone_dither(&pixels, 4, 4);
    assert_eq!((w, h), (4, 4));
    assert!(out.iter().all(|&p| p == 255));
}

#[test]
fn halftone_all_black_draws_circles() {
    let pixels = vec![0u8; 16];
    let (out, w, h) = halftone_dither(&pixels, 4, 4);
    assert_eq!((w, h), (4, 4));
    assert!(out.iter().all(|&p| p == 0 || p == 255));
    // The circle of a black block covers the cell's center.
    assert_eq!(out[2 * 4 + 2], 0);
}

#[test]
fn halftone_mid_gray_block_draws_its_radius() {
    // An all-127 block averages 127: the radius is
    // (6 * (255 * 16 - 127 * 16)) / (255 * 16) = 3, and a radius-3 circle
    // about the cell center blackens the whole center row of the cell.
    let pixels = vec![127u8; 16];
    let (out, w, h) = halftone_dither(&pixels, 4, 4);
    assert_eq!((w, h), (4, 4));
    assert!(out.iter().all(|&p| p == 0 || p == 255));
    assert_eq!(&out[8..12], &[0, 0, 0, 0]);
    // A lighter block shrinks the circle to nothing.
    let light = vec![220u8; 16];
    let (out2, _, _) = halftone_dither(&light, 4, 4);
    assert!(out2.iter().all(|&p| p == 255));
}

#[test]
fn halftone_scales_up_ragged_dimensions() {
    let pixels = vec![0u8; 5 * 6];
    let (out, w, h) = halftone_dither(&pixels, 5, 6);
    assert_eq!((w, h), (8, 8));
    assert_eq!(out.len(), 64);
}

#[test]
fn dither_image_threshold_keeps_dimensions() {
    let pixels = vec![200u8; 12];
    let (out, w, h) = dither_image(pixels, 4, 3, ImageDithering::Threshold);
    assert_eq!((w, h), (4, 3));
    assert!(out.iter().all(|&p| p == 255));
}

#[test]
fn dither_image_floyd_steinberg_is_binary() {
    let pixels = vec![127u8; 4 * 4];
    let (out, w, h) = dither_image(pixels, 4, 4, ImageDithering::FloydSteinberg);
    assert_eq!((w, h), (4, 4));
    assert_eq!(out.len(), 16);
    assert!(out.iter().all(|&p| p == 0 || p == 255));
    // Mid-gray maps to black at the first pixel before any error arrives.
    assert_eq!(out[0], 0);
    // Diffused error pushes later pixels to white: the buffer cannot come
    // back unchanged, nor all black.
    assert!(out.iter().any(|&p| p == 255));
}

#[test]
fn dither_image_floyd_steinberg_extremes() {
    let black = vec![0u8; 8];
    let (out, _, _) = dither_image(black, 4, 2, ImageDithering::FloydSteinberg);
    assert!(out.iter().all(|&p| p == 0));
    let white = vec![255u8; 8];
    let (out, _, _) = dither_image(white, 4, 2, ImageDithering::FloydSteinberg);
    assert!(out.iter().all(|&p| p == 255));
}

#[test]
fn dither_image_atkinson_matches_direct_call() {
    let pixels = vec![127u8; 12];
    let (out, w, h) = dither_image(pixels, 4, 3, ImageDithering::Atkinson);
    assert_eq!((w, h), (4, 3));
    let mut direct = vec![127u8; 12];
    atkinson_dither(&mut direct, 4, 3);
    assert_eq!(out, direct);
}

#[test]
fn dither_image_halftone_rescales() {
    let pixels = vec![255u8; 16];
    let (out, w, h) = dither_image(pixels, 4, 4, ImageDithering::Halftone);
    assert_eq!((w, h), (4, 4));
    assert!(out.iter().all(|&p| p == 255));
}
