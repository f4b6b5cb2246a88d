use smush_lut::{create_default_lut, image_size};

#[test]
fn default_lut_corners() {
    let data = create_default_lut();
    assert_eq!(16384, data.len());
    assert_eq!(&[0u8, 0, 0, 255], &data[0..4]);
    // (15, 0, 0) is red.
    assert_eq!(&[255u8, 0, 0, 255], &data[60..64]);
    // (0, 15, 0) is green.
    assert_eq!(&[0u8, 255, 0, 255], &data[960..964]);
    // (0, 0, 15) is blue.
    assert_eq!(&[0u8, 0, 255, 255], &data[15360..15364]);
    assert_eq!(&[255u8, 255, 255, 255], &data[16380..16384]);
}

#[test]
fn image_size_of_default_volume() {
    assert_eq!(16384, image_size(16, 16, 16, 4));
    assert_eq!(1024, image_size(256, 1, 1, 4));
    assert_eq!(0, image_size(0, 16, 16, 4));
}
