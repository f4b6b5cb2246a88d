use smush_lut::lut3d::{image_dimensions, lut_size_of_image, swap_slice_axes, ImageLutError};
use smush_lut::text::{is_float_literal, parse_u8};

fn chars(s: &str) -> Vec<char> {
    s.chars().collect()
}

#[test]
fn float_literals() {
    for s in [
        "0", ".75", "1.", "-1", "+2.5", "1e5", "1E-3", "2.5e+10", "inf", "-Infinity", "NaN",
        "007",
    ] {
        assert!(is_float_literal(&chars(s)), "{}", s);
        assert!(s.parse::<f32>().is_ok(), "{}", s);
    }
    for s in ["", ".", "+", "-", "1.2.3", "e5", "1e", "1e+", "x", " 1", "1 ", "infinit", "--1", "1f"] {
        assert!(!is_float_literal(&chars(s)), "{}", s);
        assert!(s.parse::<f32>().is_err(), "{}", s);
    }
}

#[test]
fn u8_values() {
    assert_eq!(parse_u8(&chars("0")), Some(0));
    assert_eq!(parse_u8(&chars("16")), Some(16));
    assert_eq!(parse_u8(&chars("+255")), Some(255));
    assert_eq!(parse_u8(&chars("0255")), Some(255));
    assert_eq!(parse_u8(&chars("256")), None);
    assert_eq!(parse_u8(&chars("1000")), None);
    assert_eq!(parse_u8(&chars("")), None);
    assert_eq!(parse_u8(&chars("+")), None);
    assert_eq!(parse_u8(&chars("-1")), None);
    assert_eq!(parse_u8(&chars("2x")), None);
}

#[test]
fn image_dimensions_of_lut() {
    assert_eq!(lut_size_of_image(256, 16), Ok(16));
    assert_eq!(lut_size_of_image(4, 2), Ok(2));
    assert_eq!(image_dimensions(16), Some((256, 16)));
    assert_eq!(image_dimensions(65536), None);
}

#[test]
fn rgba_to_linear_invalid_dimensions() {
    // The width should be height^2.
    let linear = lut_size_of_image(128, 32);
    assert_eq!(linear, Err(ImageLutError::InvalidDimensions));
    assert_eq!(
        linear.unwrap_err().message(),
        "Invalid dimensions. Expected width to equal height * height."
    );
}

#[test]
fn image_slices_lie_side_by_side() {
    let lut = smush_lut::create_default_lut();
    let image = swap_slice_axes(16, &lut);
    assert_ne!(lut, image);
    for (x, y, z) in [(15usize, 0usize, 0usize), (0, 15, 0), (0, 0, 15), (3, 7, 11)] {
        let pixel = (y * 256 + z * 16 + x) * 4;
        let sample = ((z * 16 + y) * 16 + x) * 4;
        assert_eq!(&image[pixel..pixel + 4], &lut[sample..sample + 4]);
    }
    // Blue grows along the width of the image, green down its height.
    assert_eq!(&[0u8, 0, 255, 255], &image[240 * 4..240 * 4 + 4]);
    assert_eq!(&[0u8, 255, 0, 255], &image[15 * 256 * 4..15 * 256 * 4 + 4]);
}

#[test]
fn image_lut_image_round_trip() {
    let image: Vec<u8> = (0..16384usize).map(|i| (i * 7 % 251) as u8).collect();
    let lut = swap_slice_axes(16, &image);
    assert_eq!(swap_slice_axes(16, &lut), image);
    let small: Vec<u8> = (0..32u8).collect();
    let swapped = swap_slice_axes(2, &small);
    // Sample (1, 0, 1) of the LUT is pixel (3, 0) of the image.
    assert_eq!(&swapped[12..16], &small[20..24]);
    assert_eq!(swap_slice_axes(2, &swapped), small);
}
