use cube_solver::classification::ColorPoint;
use cube_solver::cube::{scaled_mean, BaseTurn, Cube};

const SOLVED: &str = "UUUUUUUUURRRRRRRRRFFFFFFFFFDDDDDDDDDLLLLLLLLLBBBBBBBBB";

fn face_color(face: char) -> (u32, u32, u32) {
    match face {
        'U' => (250_000, 250_000, 250_000),
        'R' => (0, 0, 250_000),
        'F' => (250_000, 0, 0),
        'D' => (250_000, 250_000, 0),
        'L' => (0, 250_000, 0),
        _ => (250_000, 160_000, 0),
    }
}

#[test]
fn new_cube_is_blank() {
    let cube = Cube::init();
    assert_eq!(cube.curr_idx, 0);
    assert_eq!(cube.facelet_rgb_values.len(), 54);
    assert_eq!(cube.facelet_rgb_values[17].index, 17);
    assert_eq!(cube.next_faces, ['R', 'D', 'L', 'U']);
    assert_eq!(cube.right_face, 'B');
    assert_eq!(cube.left_face, 'F');
}

#[test]
fn samples_follow_scan_order() {
    let mut cube = Cube::init();
    cube.record_sample(1, 2, 3);
    cube.record_sample(4, 5, 6);
    assert_eq!(cube.curr_idx, 2);
    let first = cube.facelet_rgb_values[4];
    assert_eq!((first.r, first.g, first.b, first.index), (1, 2, 3, 4));
    let second = cube.facelet_rgb_values[7];
    assert_eq!((second.r, second.g, second.b, second.index), (4, 5, 6, 7));
}

#[test]
fn notation_of_clean_scan() {
    let mut cube = Cube::init();
    for (i, c) in SOLVED.chars().enumerate() {
        let (r, g, b) = face_color(c);
        let noise = ((i * 53) % 2000) as u32;
        cube.facelet_rgb_values[i] = ColorPoint { r: r + noise, g: g + noise, b: b, index: i };
    }
    assert_eq!(cube.to_notation(), SOLVED);
}

#[test]
fn notation_of_blank_scan_fills_every_class() {
    let cube = Cube::init();
    let nota = cube.to_notation();
    assert_eq!(nota.chars().count(), 54);
    for face in ['U', 'R', 'F', 'D', 'L', 'B'] {
        assert_eq!(nota.chars().filter(|c| *c == face).count(), 9);
    }
}

#[test]
fn mean_of_sensor_readings() {
    assert_eq!(scaled_mean(&vec![1020]), 255_000);
    assert_eq!(scaled_mean(&vec![100, 101, 102]), 25_250);
    assert_eq!(scaled_mean(&vec![1, 2]), 375);
}

#[test]
fn planning_faces_tracks_orientation() {
    let mut cube = Cube::init();
    // next faces R, D, L, U; right B; left F
    assert_eq!(cube.plan_face('D'), (BaseTurn::Stay, 1));
    assert_eq!(cube.next_faces, ['D', 'L', 'U', 'R']);
    assert_eq!(cube.plan_face('F'), (BaseTurn::Clockwise, 1));
    assert_eq!(cube.next_faces, ['F', 'U', 'B', 'D']);
    assert_eq!((cube.left_face, cube.right_face), ('R', 'L'));
    assert_eq!(cube.plan_face('L'), (BaseTurn::CounterClockwise, 1));
    assert_eq!(cube.next_faces, ['L', 'B', 'R', 'F']);
    assert_eq!((cube.left_face, cube.right_face), ('U', 'D'));
    assert_eq!(cube.plan_face('L'), (BaseTurn::Stay, 0));
}
