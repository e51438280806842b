use cube_solver::classification::{isqrt, Classification, ColorPoint};

struct Lcg(u64);

impl Lcg {
    fn next(&mut self) -> u64 {
        self.0 = self.0.wrapping_mul(6364136223846793005).wrapping_add(1442695040888963407);
        self.0 >> 33
    }
}

/// `k` points with channels below `bound` (thousandths), indices 0..k.
fn rand_cloud(k: usize, bound: u32, seed: u64) -> Vec<ColorPoint> {
    let mut rng = Lcg(seed);
    let mut res = vec![];
    for i in 0..k {
        res.push(ColorPoint {
            r: (rng.next() % bound as u64) as u32,
            g: (rng.next() % bound as u64) as u32,
            b: (rng.next() % bound as u64) as u32,
            index: i,
        });
    }
    res
}

#[test]
fn test_classify() {
    let cloud = rand_cloud(54, 100_000, 7);
    let (rp, bp) = cloud.split_at(6);
    let mut clas = Classification::init(Vec::from(rp), Vec::from(bp));
    let res = clas.classify();
    for result in res {
        assert_eq!(result.len(), 8)
    }
}

#[test]
fn classify_bounds_on_random_clouds() {
    for seed in 0..20u64 {
        for k in [1usize, 3, 4, 8] {
            let cloud = rand_cloud(6 + 6 * k, 255_000, seed);
            let (rp, bp) = cloud.split_at(6);
            let mut clas = Classification::init(Vec::from(rp), Vec::from(bp));
            let res = clas.classify();
            assert_eq!(res.len(), 6);
            let mut seen = vec![];
            let mut total = 0;
            for class in &res {
                assert!(class.len() <= k);
                total += class.len();
                for (_, p) in class {
                    assert!(!seen.contains(&p.index));
                    seen.push(p.index);
                }
            }
            assert!(total <= 6 * k);
        }
    }
}

#[test]
fn classify_is_deterministic() {
    let cloud = rand_cloud(30, 50_000, 11);
    let (rp, bp) = cloud.split_at(6);
    let mut clas = Classification::init(Vec::from(rp), Vec::from(bp));
    let first = clas.classify();
    let second = clas.classify();
    assert_eq!(first, second);
}

#[test]
fn classify_takes_nearest_first_under_capacity() {
    let reds = vec![
        ColorPoint { r: 0, g: 0, b: 0, index: 100 },
        ColorPoint { r: 10_000, g: 0, b: 0, index: 101 },
    ];
    // Three points near the first centroid, one near the second; capacity 2.
    let blacks = vec![
        ColorPoint { r: 100, g: 0, b: 0, index: 0 },
        ColorPoint { r: 200, g: 0, b: 0, index: 1 },
        ColorPoint { r: 300, g: 0, b: 0, index: 2 },
        ColorPoint { r: 9_900, g: 0, b: 0, index: 3 },
    ];
    let mut clas = Classification::init(reds, blacks);
    let res = clas.classify();
    let first: Vec<usize> = res[0].iter().map(|m| m.1.index).collect();
    let second: Vec<usize> = res[1].iter().map(|m| m.1.index).collect();
    assert_eq!(first, vec![0, 1]);
    assert_eq!(second, vec![3, 2]);
    // distance of (100, 0, 0) to the origin, the first channel at half weight
    assert_eq!(res[0][0].0, 70);
    assert_eq!(res[1][0].0, 70);
    assert_eq!(res[1][1].0, 6858);
}

#[test]
fn classify_leaves_remainder_unassigned() {
    let cloud = rand_cloud(6 + 8, 10_000, 3);
    let (rp, bp) = cloud.split_at(6);
    let mut clas = Classification::init(Vec::from(rp), Vec::from(bp));
    assert_eq!(clas.k, 1);
    let res = clas.classify();
    let total: usize = res.iter().map(|c| c.len()).sum();
    assert_eq!(total, 6);
}

#[test]
fn distance_weights_first_channel_half() {
    let p = ColorPoint { r: 0, g: 0, b: 0, index: 0 };
    let q = ColorPoint { r: 2_000, g: 3_000, b: 4_000, index: 1 };
    assert_eq!(p.sq_distance_to(&q), 54_000_000);
    assert_eq!(p.distance_to(&q), 5196);
    let only_r = ColorPoint { r: 2_000, g: 0, b: 0, index: 2 };
    assert_eq!(p.distance_to(&only_r), 1414);
    assert_eq!(q.to_array(), [2_000, 3_000, 4_000]);
}

#[test]
fn points_equal_by_index() {
    let p = ColorPoint { r: 1, g: 2, b: 3, index: 5 };
    let q = ColorPoint { r: 9, g: 9, b: 9, index: 5 };
    let o = ColorPoint { r: 1, g: 2, b: 3, index: 6 };
    assert!(p == q);
    assert!(p != o);
}

#[test]
fn integer_square_root() {
    assert_eq!(isqrt(0), 0);
    assert_eq!(isqrt(1), 1);
    assert_eq!(isqrt(15), 3);
    assert_eq!(isqrt(16), 4);
    assert_eq!(isqrt(u128::MAX), u64::MAX);
}
