use cube_solver::constants::{get_corner_colors, get_edge_colors, Facelet};
use cube_solver::validator::{validate, ViolationKind};

const SOLVED: &str = "UUUUUUUUURRRRRRRRRFFFFFFFFFDDDDDDDDDLLLLLLLLLBBBBBBBBB";

fn with(s: &str, pos: usize, c: char) -> Vec<char> {
    let mut chars: Vec<char> = s.chars().collect();
    chars[pos] = c;
    chars
}

#[test]
fn solved_notation_is_valid() {
    let chars: Vec<char> = SOLVED.chars().collect();
    let report = validate(&chars);
    assert!(report.corner_violations.is_empty());
    assert!(report.edge_violations.is_empty());
    assert!(report.missing_corner_sets.is_empty());
    assert!(report.missing_edge_sets.is_empty());
}

#[test]
fn duplicated_corner_and_missing_set() {
    // The UBL corner reads U, R, B: the set of the UBR corner, while UBL's own set is gone.
    let chars = with(SOLVED, Facelet::L1.position(), 'R');
    let report = validate(&chars);
    assert_eq!(report.corner_violations.len(), 1);
    let v = &report.corner_violations[0];
    assert_eq!(v.kind, ViolationKind::Duplicate);
    assert_eq!(v.group, 1);
    assert_eq!(v.facelets, vec![2, 45, 11]);
    assert_eq!(v.symbols, vec!['U', 'B', 'R']);
    assert_eq!(report.missing_corner_sets, vec![0]);
    assert!(report.edge_violations.is_empty());
    assert!(report.missing_edge_sets.is_empty());
}

#[test]
fn illegal_corner_set() {
    let chars = with(SOLVED, Facelet::L1.position(), 'U');
    let report = validate(&chars);
    assert_eq!(report.corner_violations.len(), 1);
    let v = &report.corner_violations[0];
    assert_eq!(v.kind, ViolationKind::Illegal);
    assert_eq!(v.group, 0);
    assert_eq!(v.symbols, vec!['U', 'U', 'B']);
    assert_eq!(report.missing_corner_sets, vec![0]);
}

#[test]
fn illegal_edge_set() {
    // U2 and B2 form the UB edge; reading U, D there is no legal edge.
    let chars = with(SOLVED, Facelet::B2.position(), 'D');
    let report = validate(&chars);
    assert!(report.corner_violations.is_empty());
    assert_eq!(report.edge_violations.len(), 1);
    assert_eq!(report.edge_violations[0].kind, ViolationKind::Illegal);
    assert_eq!(report.edge_violations[0].facelets, vec![1, 46]);
    assert_eq!(report.missing_edge_sets, vec![4]);
}

#[test]
fn legal_color_tables() {
    let corners = get_corner_colors();
    let edges = get_edge_colors();
    assert_eq!(corners.len(), 8);
    assert_eq!(edges.len(), 12);
    assert_eq!(corners[0], vec!['U', 'L', 'B']);
    assert_eq!(edges[11], vec!['D', 'L']);
    assert_eq!(Facelet::B9.position(), 53);
    assert_eq!(Facelet::_F5.position(), 22);
}

#[test]
fn duplicated_edge_and_missing_set() {
    // The UB edge reads U, R: the set of the UR edge, while UB's own set is gone.
    let chars = with(SOLVED, Facelet::B2.position(), 'R');
    let report = validate(&chars);
    assert!(report.corner_violations.is_empty());
    assert_eq!(report.edge_violations.len(), 1);
    assert_eq!(report.edge_violations[0].kind, ViolationKind::Duplicate);
    assert_eq!(report.edge_violations[0].group, 5);
    assert_eq!(report.missing_edge_sets, vec![4]);
}
