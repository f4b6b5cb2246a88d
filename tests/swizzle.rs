use smush_lut::swizzle::swizzle;
use smush_lut::{create_default_lut, image_size};

#[test]
fn swizzle_primaries() {
    let data = create_default_lut();
    let mut swizzled = vec![0u8; image_size(16, 16, 16, 4)];
    swizzle(&data, &mut swizzled, false);

    // Black swizzled address: 0 (0000 0000 0000 0000)
    assert_eq!(&[0u8, 0u8, 0u8, 255u8], &swizzled[0..4]);

    // Red swizzled address: 300 (0000 0001 0010 1100)
    assert_eq!(&[255u8, 0u8, 0u8, 255u8], &swizzled[300..304]);

    // Green swizzled address: 8400 (0010 0000 1101 0000)
    assert_eq!(&[0u8, 255u8, 0u8, 255u8], &swizzled[8400..8404]);

    // Blue swizzled address: 7680 (0001 1110 0000 0000)
    assert_eq!(&[0u8, 0u8, 255u8, 255u8], &swizzled[7680..7684]);
}

#[test]
fn swizzle_first_row() {
    let data = create_default_lut();
    let mut swizzled = [0u8; 16384];
    swizzle(&data, &mut swizzled, false);

    // The increasing red values of the first row.
    assert_eq!(&[0u8, 0u8, 0u8, 255u8], &swizzled[0..4]);
    assert_eq!(&[15u8, 0u8, 0u8, 255u8], &swizzled[4..8]);
    assert_eq!(&[30u8, 0u8, 0u8, 255u8], &swizzled[8..12]);
    assert_eq!(&[46u8, 0u8, 0u8, 255u8], &swizzled[12..16]);

    assert_eq!(&[64u8, 0u8, 0u8, 255u8], &swizzled[32..36]);
    assert_eq!(&[82u8, 0u8, 0u8, 255u8], &swizzled[36..40]);
    assert_eq!(&[101u8, 0u8, 0u8, 255u8], &swizzled[40..44]);
    assert_eq!(&[121u8, 0u8, 0u8, 255u8], &swizzled[44..48]);

    assert_eq!(&[140u8, 0u8, 0u8, 255u8], &swizzled[256..260]);
    assert_eq!(&[158u8, 0u8, 0u8, 255u8], &swizzled[260..264]);
    assert_eq!(&[176u8, 0u8, 0u8, 255u8], &swizzled[264..268]);
    assert_eq!(&[193u8, 0u8, 0u8, 255u8], &swizzled[268..272]);

    assert_eq!(&[209u8, 0u8, 0u8, 255u8], &swizzled[288..292]);
    assert_eq!(&[224u8, 0u8, 0u8, 255u8], &swizzled[292..296]);
    assert_eq!(&[240u8, 0u8, 0u8, 255u8], &swizzled[296..300]);
    assert_eq!(&[255u8, 0u8, 0u8, 255u8], &swizzled[300..304]);
}

#[test]
fn swizzle_black_white() {
    let data = create_default_lut();
    let mut swizzled = vec![0u8; image_size(16, 16, 16, 4)];
    swizzle(&data, &mut swizzled, false);

    // Black swizzled address: 0 (0000 0000 0000 0000)
    assert_eq!(&[0u8, 0u8, 0u8, 255u8], &swizzled[0..4]);

    // White swizzled address: 16380 (0011 1111 1111 1100)
    assert_eq!(&[255u8, 255u8, 255u8, 255u8], &swizzled[16380..16384]);
}

#[test]
fn test_swizzle_deswizzle() {
    // Deswizzling and then swizzling again is 1:1.
    let source = create_default_lut();
    let mut deswizzled = vec![0u8; image_size(16, 16, 16, 4)];
    swizzle(&source, &mut deswizzled, true);

    let mut reswizzled = vec![0u8; image_size(16, 16, 16, 4)];
    swizzle(&deswizzled, &mut reswizzled, false);

    let matching = source
        .iter()
        .zip(reswizzled.iter())
        .filter(|&(a, b)| a == b)
        .count();
    assert_eq!(matching, image_size(16, 16, 16, 4));
}

#[test]
fn swizzle_then_deswizzle_restores_linear() {
    let source = create_default_lut();
    let mut swizzled = vec![0u8; 16384];
    swizzle(&source, &mut swizzled, false);
    assert_ne!(source, swizzled);
    let mut restored = vec![0u8; 16384];
    swizzle(&swizzled, &mut restored, true);
    assert_eq!(source, restored);
}

#[test]
fn swizzle_permutes_distinct_bytes() {
    // Tag each sample with its linear index so that every sample is distinct.
    let mut linear = vec![0u8; 16384];
    for i in 0..4096usize {
        linear[i * 4] = (i & 0xff) as u8;
        linear[i * 4 + 1] = (i >> 8) as u8;
        linear[i * 4 + 2] = 7;
        linear[i * 4 + 3] = 9;
    }
    let mut swizzled = vec![0u8; 16384];
    swizzle(&linear, &mut swizzled, false);
    // Sample (1, 0, 0) lies at tiled offset 4, sample (0, 1, 0) at 16, sample (0, 0, 1) at 512.
    assert_eq!(&[1u8, 0, 7, 9], &swizzled[4..8]);
    assert_eq!(&[16u8, 0, 7, 9], &swizzled[16..20]);
    assert_eq!(&[0u8, 1, 7, 9], &swizzled[512..516]);
    let mut back = vec![0u8; 16384];
    swizzle(&swizzled, &mut back, true);
    assert_eq!(linear, back);
}
