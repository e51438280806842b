use cube_solver::classification::ColorPoint;
use cube_solver::cube::Cube;
use cube_solver::scan_text::ScanError;

fn sample_cube() -> Cube {
    let mut cube = Cube::init();
    for i in 0..54usize {
        let v = (i as u32) * 4_567 + 3;
        cube.facelet_rgb_values[i] = ColorPoint { r: v, g: v * 2 + 1, b: 254_999 - v, index: i };
    }
    cube
}

#[test]
fn export_writes_one_line_per_facelet() {
    let cube = sample_cube();
    let text = cube.export();
    let lines: Vec<&str> = text.split('\n').collect();
    assert_eq!(lines.len(), 55);
    assert_eq!(lines[0], "0.003, 0.007, 254.996");
    assert_eq!(lines[1], "4.570, 9.141, 250.429");
    assert_eq!(lines[54], "");
}

#[test]
fn export_then_import_round_trip() {
    let cube = sample_cube();
    let text = cube.export();
    let mut other = Cube::init();
    other.facelet_rgb_values[3] = ColorPoint { r: 9, g: 9, b: 9, index: 3 };
    assert_eq!(other.import(&text), Ok(()));
    for i in 0..54 {
        let a = cube.facelet_rgb_values[i];
        let b = other.facelet_rgb_values[i];
        assert_eq!((a.r, a.g, a.b, a.index), (b.r, b.g, b.b, b.index));
    }
    assert_eq!(other.to_notation(), cube.to_notation());
}

/// Fifty-four sample lines: `first` for facelet 0, `1, 2, 3` for the others.
fn full_text(first: &str) -> String {
    let mut text = String::new();
    text.push_str(first);
    text.push('\n');
    for _ in 1..54 {
        text.push_str("1, 2, 3\n");
    }
    text
}

#[test]
fn import_reads_decimal_fields() {
    let mut cube = Cube::init();
    let mut text = String::from("63.75, 100, 12.3456\n1.5, 0.25, 7\n");
    for _ in 2..54 {
        text.push_str("0, 0, 0\n");
    }
    text.push_str("   \n\n");
    assert_eq!(cube.import(&text), Ok(()));
    let p = cube.facelet_rgb_values[0];
    assert_eq!((p.r, p.g, p.b, p.index), (63_750, 100_000, 12_345, 0));
    let q = cube.facelet_rgb_values[1];
    assert_eq!((q.r, q.g, q.b, q.index), (1_500, 250, 7_000, 1));
}

#[test]
fn import_rejects_wrong_sample_count() {
    let mut cube = Cube::init();
    cube.facelet_rgb_values[0].r = 42;
    assert_eq!(cube.import(""), Err(ScanError::TooFewSamples(0)));
    assert_eq!(cube.import("1, 2, 3\n1, 2, 3"), Err(ScanError::TooFewSamples(2)));
    assert_eq!(cube.import("1, 2, 3\n\n1, 2, 3\n"), Err(ScanError::TooFewSamples(1)));
    let mut fifty_three = String::new();
    for _ in 0..53 {
        fifty_three.push_str("1, 2, 3\n");
    }
    assert_eq!(cube.import(&fifty_three), Err(ScanError::TooFewSamples(53)));
    assert_eq!(cube.facelet_rgb_values[0].r, 42);
}

#[test]
fn import_rejects_malformed_lines() {
    let mut cube = Cube::init();
    assert_eq!(cube.import(&full_text("1, x, 3")), Err(ScanError::MalformedLine(0)));
    assert_eq!(cube.facelet_rgb_values[0].r, 0);
    assert_eq!(cube.import(&full_text("1,2,3")), Err(ScanError::MalformedLine(0)));
    assert_eq!(cube.import(&full_text("1, 2")), Err(ScanError::MalformedLine(0)));
    assert_eq!(cube.import(&full_text("1., 2, 3")), Err(ScanError::MalformedLine(0)));
    assert_eq!(cube.import(&full_text("-1, 2, 3")), Err(ScanError::MalformedLine(0)));
    assert_eq!(cube.import(&full_text("4294968, 2, 3")), Err(ScanError::MalformedLine(0)));
    assert_eq!(cube.import(&full_text("4294967.295, 0, 0")), Ok(()));
    assert_eq!(cube.facelet_rgb_values[0].r, u32::MAX);
}

#[test]
fn import_rejects_extra_lines() {
    let mut text = String::new();
    for _ in 0..55 {
        text.push_str("1, 2, 3\n");
    }
    let mut cube = Cube::init();
    assert_eq!(cube.import(&text), Err(ScanError::TooManyLines(54)));
}
