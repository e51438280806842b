use cube_solver::classification::ColorPoint;
use cube_solver::cube::Cube;
use cube_solver::fixer::{
    apply_swaps, best_solvable, calculate_score, find_fix_with, find_optimal_fix,
    generate_swap_options, local_optimum, prune_swaps,
};
use cube_solver::validator::validate;

const SOLVED: &str = "UUUUUUUUURRRRRRRRRFFFFFFFFFDDDDDDDDDLLLLLLLLLBBBBBBBBB";

fn face_color(face: char) -> (u32, u32, u32) {
    match face {
        'U' => (250_000, 250_000, 250_000),
        'R' => (0, 0, 250_000),
        'F' => (250_000, 0, 0),
        'D' => (250_000, 250_000, 0),
        'L' => (0, 250_000, 0),
        _ => (250_000, 160_000, 0),
    }
}

/// Six tight clusters of nine samples, one per face, laid out as a solved cube.
fn solved_samples() -> Vec<ColorPoint> {
    SOLVED
        .chars()
        .enumerate()
        .map(|(i, c)| {
            let (r, g, b) = face_color(c);
            let noise = ((i * 37) % 1000) as u32;
            ColorPoint { r: r + noise, g: g + noise / 2, b: b + noise / 3, index: i }
        })
        .collect()
}

fn swapped(s: &str, i: usize, j: usize) -> String {
    let mut chars: Vec<char> = s.chars().collect();
    chars.swap(i, j);
    chars.into_iter().collect()
}

#[test]
fn score_of_small_groups() {
    let pts = vec![
        ColorPoint { r: 0, g: 0, b: 0, index: 0 },
        ColorPoint { r: 2_000, g: 0, b: 0, index: 1 },
        ColorPoint { r: 5_000, g: 5_000, b: 5_000, index: 2 },
    ];
    assert_eq!(calculate_score(&pts, &vec!['A', 'A', 'B']), 1414);
    assert_eq!(calculate_score(&pts, &vec!['A', 'B', 'C']), 0);
}

#[test]
fn solved_scores_lower_than_mislabelled() {
    let pts = solved_samples();
    let good: Vec<char> = SOLVED.chars().collect();
    let bad: Vec<char> = swapped(SOLVED, 0, 9).chars().collect();
    assert!(calculate_score(&pts, &good) < calculate_score(&pts, &bad));
}

#[test]
fn swaps_apply_in_order() {
    let chars = vec!['A', 'B', 'C', 'D'];
    let first = vec![0usize, 1];
    let second = vec![1usize, 2];
    assert_eq!(apply_swaps(&chars, &vec![&first, &second]), "BCAD");
    assert_eq!(apply_swaps(&chars, &vec![]), "ABCD");
}

#[test]
fn swap_options_of_solved_cube() {
    let chars: Vec<char> = SOLVED.chars().collect();
    let options = generate_swap_options(&chars);
    assert_eq!(options.len(), 480);
    assert_eq!(options[0], vec![0, 9]);
    for o in &options {
        assert!(o[0] < o[1]);
        assert_ne!(chars[o[0]], chars[o[1]]);
        assert_ne!(o[0] % 9, 4);
        assert_ne!(o[1] % 9, 4);
        assert_eq!((o[0] % 9) % 2, (o[1] % 9) % 2);
    }
}

#[test]
fn repair_keeps_a_solved_cube() {
    let pts = solved_samples();
    let input_score = calculate_score(&pts, &SOLVED.chars().collect());
    let (score, notation) = find_optimal_fix(&pts, SOLVED.to_string());
    let score = score.expect("a solved cube is solvable");
    assert!(score <= input_score);
    assert_eq!(notation, SOLVED);
}

#[test]
fn repair_fixes_one_swapped_corner() {
    let pts = solved_samples();
    let broken = swapped(SOLVED, 0, 9);
    let broken_chars: Vec<char> = broken.chars().collect();
    let report = validate(&broken_chars);
    assert!(!report.corner_violations.is_empty());
    let broken_score = calculate_score(&pts, &broken_chars);
    let (score, notation) = find_fix_with(&pts, broken, 2, 32);
    let score = score.expect("repair succeeds");
    assert!(score < broken_score);
    let fixed: Vec<char> = notation.chars().collect();
    let report = validate(&fixed);
    assert!(report.corner_violations.is_empty());
    assert!(report.edge_violations.is_empty());
    assert_eq!(notation, SOLVED);
}

#[test]
fn repair_reports_failure_with_input_unchanged() {
    let pts = solved_samples();
    let unknown: String = std::iter::repeat('X').take(54).collect();
    let (score, notation) = find_optimal_fix(&pts, unknown.clone());
    assert_eq!(score, None);
    assert_eq!(notation, unknown);
}

#[test]
fn best_solvable_prefers_low_score_among_accepted() {
    let pts = solved_samples();
    let good: Vec<char> = SOLVED.chars().collect();
    let bad: Vec<char> = swapped(SOLVED, 0, 9).chars().collect();
    let cands = vec![bad.clone(), good.clone(), good.clone()];
    let best = best_solvable(&pts, &cands, &vec![true, true, true]).unwrap();
    assert_eq!(best.0, calculate_score(&pts, &good));
    assert_eq!(best.1, good);
    let only_bad = best_solvable(&pts, &cands, &vec![true, false, false]).unwrap();
    assert_eq!(only_bad.1, bad);
    assert!(best_solvable(&pts, &cands, &vec![false, false, false]).is_none());
}

#[test]
fn centre_objective_and_earlier_fixer() {
    let mut cube = Cube::init();
    cube.facelet_rgb_values = solved_samples();
    let objective = cube.objective(SOLVED.to_string());
    assert!(objective > 0);
    let broken = swapped(SOLVED, 0, 9);
    assert!(cube.objective(broken) > objective);
    assert_eq!(cube.fixer(SOLVED.to_string()), (Some(objective), SOLVED.to_string()));
    let unknown: String = std::iter::repeat('X').take(54).collect();
    assert_eq!(cube.fixer(unknown.clone()), (None, unknown));
}

#[test]
fn centre_objective_exact_value() {
    let mut cube = Cube::init();
    // Only facelet 0 differs from the zero samples: it carries U like centre 4.
    cube.facelet_rgb_values[0].r = 2_000;
    let mut nota: Vec<char> = std::iter::repeat('R').take(54).collect();
    nota[0] = 'U';
    nota[4] = 'U';
    let nota: String = nota.into_iter().collect();
    // distance from (0, 0, 0) to (2000, 0, 0) with the first channel at half weight
    assert_eq!(cube.objective(nota), 1414);
}

#[test]
fn pruning_keeps_the_closest_swaps() {
    let pts: Vec<ColorPoint> = (0..6u32)
        .map(|i| ColorPoint { r: i * i * 1_000, g: 0, b: 0, index: i as usize })
        .collect();
    // distances (first channel at half weight): 707, 5656, 17677, 2828, 3535
    let swaps = vec![vec![0, 1], vec![1, 3], vec![0, 5], vec![0, 2], vec![2, 3]];
    // threshold: the third smallest distance (5 / 2 = 2), kept strictly below it
    let kept = prune_swaps(&pts, &swaps, 2);
    assert_eq!(kept, vec![vec![0, 1], vec![0, 2]]);
    let all_but_last = prune_swaps(&pts, &swaps, 5);
    assert_eq!(all_but_last, vec![vec![0, 1]]);
    assert!(prune_swaps(&pts, &vec![], 32).is_empty());
}

#[test]
fn hill_climbing_undoes_a_swap() {
    let pts = solved_samples();
    let broken: Vec<char> = swapped(SOLVED, 0, 9).chars().collect();
    let options = generate_swap_options(&broken);
    let climbed = local_optimum(&pts, broken, &options);
    assert_eq!(climbed.into_iter().collect::<String>(), SOLVED);
}
