use smush_lut::cube::{CubeError, CubeLut3d};

type Floats = (String, u8, (f32, f32, f32), (f32, f32, f32), Vec<(f32, f32, f32)>);

fn num(s: &str) -> f32 {
    s.parse::<f32>().unwrap()
}

fn triple(t: &(String, String, String)) -> (f32, f32, f32) {
    (num(&t.0), num(&t.1), num(&t.2))
}

fn floats(c: &CubeLut3d) -> Floats {
    (
        c.title.clone(),
        c.size,
        triple(&c.domain_min),
        triple(&c.domain_max),
        c.data.iter().map(triple).collect(),
    )
}

fn text_triple(t: (f32, f32, f32)) -> (String, String, String) {
    (format!("{}", t.0), format!("{}", t.1), format!("{}", t.2))
}

fn error_message(r: Result<CubeLut3d, CubeError>) -> Option<&'static str> {
    r.err().map(|e| e.message())
}

const SIZE2_DATA: &str = "0 0 0\n1 0 0\n0 .75 0\n1 .75 0\n0 .25 1\n1 .25 1\n0 1 1\n1 1 1\n";

fn size2_values() -> Vec<(f32, f32, f32)> {
    vec![
        (0f32, 0f32, 0f32),
        (1f32, 0f32, 0f32),
        (0f32, 0.75f32, 0f32),
        (1f32, 0.75f32, 0f32),
        (0f32, 0.25f32, 1f32),
        (1f32, 0.25f32, 1f32),
        (0f32, 1f32, 1f32),
        (1f32, 1f32, 1f32),
    ]
}

#[test]
fn create_from_text_size2() {
    let text = format!("# comment\n\nLUT_3D_SIZE 2\n\n# comment\n{}", SIZE2_DATA);
    let cube = floats(&CubeLut3d::from_text(&text).unwrap());
    assert_eq!(cube.0, "");
    assert_eq!(cube.1, 2);
    assert_eq!(cube.2, (0f32, 0f32, 0f32));
    assert_eq!(cube.3, (1f32, 1f32, 1f32));
    assert_eq!(cube.4, size2_values());
}

#[test]
fn create_from_text_missing_size() {
    let text = "bad cube file";
    let cube = CubeLut3d::from_text(text);
    assert_eq!(error_message(cube), Some("Failed to parse LUT_3D_SIZE."));
}

#[test]
fn create_from_text_no_data() {
    let text = "TITLE \"no data\"\nLUT_3D_SIZE 2\n";
    let cube = CubeLut3d::from_text(text);
    assert_eq!(error_message(cube), Some("Failed to find data points."));
}

#[test]
fn create_from_text_missing_size_value() {
    let text = format!("# comment\nLUT_3D_SIZE  \n{}", SIZE2_DATA);
    let cube = CubeLut3d::from_text(&text);
    assert_eq!(error_message(cube), Some("Failed to parse LUT_3D_SIZE."));
}

#[test]
fn create_from_text_invalid_rgb_triple() {
    let text = "# comment\nLUT_3D_SIZE 2 \n0 0 0\n1 0 0\n0 .75 0\n1 .75 0\n0 .25 1\n1 1\n0 1 1\n1\n";
    let cube = CubeLut3d::from_text(text);
    assert_eq!(
        error_message(cube),
        Some("Data point count does not agree with LUT_3D_SIZE.")
    );
}

#[test]
fn create_from_text_missing_title_value() {
    let text = format!("# comment\nLUT_3D_SIZE 2\nTITLE  \n{}", SIZE2_DATA);
    let cube = CubeLut3d::from_text(&text);
    assert_eq!(error_message(cube), Some("Missing value for TITLE."));
}

#[test]
fn create_from_text_domain_title() {
    let text = format!(
        "# comment\nDOMAIN_MIN -1 -1 -1\n\n\nLUT_3D_SIZE 2\n\nDOMAIN_MAX 1 2 3\n\nTITLE \"lut1\"\n\n# comment\n{}",
        SIZE2_DATA
    );
    let cube = floats(&CubeLut3d::from_text(&text).unwrap());
    assert_eq!(cube.0, "lut1");
    assert_eq!(cube.1, 2);
    assert_eq!(cube.2, (-1f32, -1f32, -1f32));
    assert_eq!(cube.3, (1f32, 2f32, 3f32));
    assert_eq!(cube.4, size2_values());
}

#[test]
fn create_from_text_title_spaces() {
    let text = format!("LUT_3D_SIZE 2\nTITLE \" a  b    c \"\n{}", SIZE2_DATA);
    let cube = floats(&CubeLut3d::from_text(&text).unwrap());
    assert_eq!(cube.0, " a  b    c ");
    assert_eq!(cube.1, 2);
    assert_eq!(cube.2, (0f32, 0f32, 0f32));
    assert_eq!(cube.3, (1f32, 1f32, 1f32));
    assert_eq!(cube.4, size2_values());
}

#[test]
fn create_from_name_size_data() {
    let cube = CubeLut3d::new(
        "cube".into(),
        2,
        text_triple((0f32, 0f32, 0f32)),
        text_triple((1f32, 1f32, 1f32)),
        vec![text_triple((1f32, 1f32, 1f32)); 8],
    );
    let cube = floats(&cube);
    assert_eq!(cube.0, "cube");
    assert_eq!(cube.1, 2);
    assert_eq!(cube.2, (0f32, 0f32, 0f32));
    assert_eq!(cube.3, (1f32, 1f32, 1f32));
    assert_eq!(cube.4, vec![(1f32, 1f32, 1f32); 8]);
}

#[test]
fn read_write() {
    // The parser and the writer are compatible.
    let cube = CubeLut3d::new(
        "cube".into(),
        2,
        text_triple((0f32, 0f32, 0f32)),
        text_triple((1f32, 1f32, 1f32)),
        vec![text_triple((0.5f32, 0.5f32, 0.5f32)); 8],
    );
    let text = cube.write();
    let new_cube = CubeLut3d::from_text(&text).unwrap();
    assert_eq!(floats(&cube), floats(&new_cube));
}

#[test]
fn write_new() {
    let cube = CubeLut3d::new(
        "cube".into(),
        2,
        text_triple((0f32, 0f32, 0f32)),
        text_triple((1f32, 1f32, 1f32)),
        vec![text_triple((1f32, 1f32, 1f32)); 8],
    );
    let actual = cube.write();
    let expected = "#Created by: smush_lut.exe\nTITLE \"cube\"\n\n#LUT Size\nLUT_3D_SIZE 2\n\n#data domain\nDOMAIN_MIN 0.0 0.0 0.0\nDOMAIN_MAX 1.0 1.0 1.0\n\n#LUT data points\n1 1 1\n1 1 1\n1 1 1\n1 1 1\n1 1 1\n1 1 1\n1 1 1\n1 1 1\n";
    assert_eq!(expected, actual);
}

#[test]
fn write_then_read_keeps_the_document_text() {
    let data: Vec<(String, String, String)> = (0..27)
        .map(|i| (format!("{}", i), format!("0.{}", i), format!("-{}e-2", i)))
        .collect();
    let cube = CubeLut3d::new(
        " graded ".into(),
        3,
        ("0.0".into(), "0.0".into(), "0.0".into()),
        ("1.0".into(), "1.0".into(), "1.0".into()),
        data.clone(),
    );
    let parsed = CubeLut3d::from_text(&cube.write()).unwrap();
    assert_eq!(parsed.title, " graded ");
    assert_eq!(parsed.size, 3);
    assert_eq!(parsed.domain_min, cube.domain_min);
    assert_eq!(parsed.domain_max, cube.domain_max);
    assert_eq!(parsed.data, data);
}

#[test]
fn size_two_with_seven_points_is_a_count_mismatch() {
    let text = "LUT_3D_SIZE 2\n0 0 0\n1 0 0\n0 1 0\n1 1 0\n0 0 1\n1 0 1\n0 1 1\n";
    assert_eq!(
        CubeLut3d::from_text(text).err(),
        Some(CubeError::DataCountMismatch)
    );
}

#[test]
fn size_out_of_range_is_rejected() {
    let text = format!("LUT_3D_SIZE 256\n{}", SIZE2_DATA);
    assert_eq!(
        CubeLut3d::from_text(&text).err(),
        Some(CubeError::InvalidSize)
    );
    let text = format!("LUT_3D_SIZE +2\n{}", SIZE2_DATA);
    assert_eq!(CubeLut3d::from_text(&text).unwrap().size, 2);
}

#[test]
fn malformed_domains_are_rejected() {
    let text = format!("LUT_3D_SIZE 2\nDOMAIN_MIN 0 0\n{}", SIZE2_DATA);
    assert_eq!(
        CubeLut3d::from_text(&text).err(),
        Some(CubeError::InvalidDomainMin)
    );
    let text = format!("LUT_3D_SIZE 2\nDOMAIN_MAX 1 x 1\n{}", SIZE2_DATA);
    assert_eq!(
        CubeLut3d::from_text(&text).err(),
        Some(CubeError::InvalidDomainMax)
    );
}

#[test]
fn unterminated_title_is_rejected() {
    let text = format!("LUT_3D_SIZE 2\nTITLE \"open\n{}", SIZE2_DATA);
    assert_eq!(
        CubeLut3d::from_text(&text).err(),
        Some(CubeError::MissingTitleValue)
    );
}

#[test]
fn later_keywords_overwrite_earlier_ones() {
    let text = format!(
        "LUT_3D_SIZE 3\nTITLE \"a\"\nLUT_3D_SIZE 2\nTITLE \"b\"\n{}\n# trailing comment\n",
        SIZE2_DATA
    );
    let cube = CubeLut3d::from_text(&text).unwrap();
    assert_eq!(cube.size, 2);
    assert_eq!(cube.title, "b");
    assert_eq!(cube.data.len(), 8);
}

#[test]
fn error_messages() {
    assert_eq!(CubeError::MissingData.message(), "Failed to find data points.");
    assert_eq!(CubeError::InvalidDomainMin.message(), "Failed to parse DOMAIN_MIN.");
}

#[test]
fn sizes_below_two_are_rejected() {
    assert_eq!(
        CubeLut3d::from_text("LUT_3D_SIZE 1\n0 0 0\n").err(),
        Some(CubeError::InvalidSize)
    );
    assert_eq!(
        CubeLut3d::from_text("LUT_3D_SIZE 0\n0 0 0\n").err(),
        Some(CubeError::InvalidSize)
    );
}

#[test]
fn crlf_line_endings_and_unicode_spaces() {
    let text = "LUT_3D_SIZE 2\r\nTITLE \"crlf\"\r\n\u{3000}0 0 0\u{a0}\r\n1 0 0\r\n0 1 0\r\n1 1 0\r\n0 0 1\r\n1 0 1\r\n0 1 1\r\n1 1 1";
    let cube = CubeLut3d::from_text(text).unwrap();
    assert_eq!(cube.title, "crlf");
    assert_eq!(cube.data.len(), 8);
    assert_eq!(cube.data[0], ("0".to_string(), "0".to_string(), "0".to_string()));
    assert_eq!(cube.data[7], ("1".to_string(), "1".to_string(), "1".to_string()));
}
