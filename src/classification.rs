use vstd::prelude::*;

verus! {

/// A scanned color sample of one facelet.
///
/// The three channels are fixed-point values (thousandths of a sensor unit).
/// `index` is the facelet position the sample belongs to, and is the point's identity:
/// two points are equal exactly when their indices are.
#[derive(Clone, Copy, Debug)]
pub struct ColorPoint {
    pub r: u32,
    pub g: u32,
    pub b: u32,
    pub index: usize,
}

impl PartialEq for ColorPoint {
    fn eq(&self, other: &ColorPoint) -> (res: bool)
        ensures
            res == (self.index == other.index),
    {
        self.index == other.index
    }
}

impl vstd::std_specs::cmp::PartialEqSpecImpl for ColorPoint {
    open spec fn obeys_eq_spec() -> bool {
        true
    }

    open spec fn eq_spec(&self, other: &ColorPoint) -> bool {
        self.index == other.index
    }
}

pub open spec fn sq_diff(a: u32, b: u32) -> int {
    (a - b) * (a - b)
}

/// Twice the squared distance between two samples under the weighted metric, in which
/// the first channel's squared difference counts half: `2 * (dr^2 / 2 + dg^2 + db^2)`.
pub open spec fn weighted_sq(p: ColorPoint, q: ColorPoint) -> int {
    sq_diff(p.r, q.r) + 2 * sq_diff(p.g, q.g) + 2 * sq_diff(p.b, q.b)
}

/// The integer square root: the largest `r` with `r * r <= n`.
pub open spec fn floor_sqrt(n: int) -> nat {
    choose|r: nat| is_floor_sqrt(n, r)
}

pub open spec fn is_floor_sqrt(n: int, r: nat) -> bool {
    r * r <= n && n < (r + 1) * (r + 1)
}

/// The weighted distance between two samples, rounded down.
pub open spec fn distance(p: ColorPoint, q: ColorPoint) -> nat {
    floor_sqrt(weighted_sq(p, q) / 2)
}

pub proof fn lemma_floor_sqrt_unique(n: int, r: nat)
    requires
        r * r <= n,
        n < (r + 1) * (r + 1),
    ensures
        floor_sqrt(n) == r,
{
    assert(is_floor_sqrt(n, r));
    let s = floor_sqrt(n);
    assert(0 <= s && s * s <= n && n < (s + 1) * (s + 1));
    if s < r {
        assert((s + 1) * (s + 1) <= r * r) by (nonlinear_arith)
            requires
                0 <= s,
                s < r,
        ;
    } else if r < s {
        assert((r + 1) * (r + 1) <= s * s) by (nonlinear_arith)
            requires
                0 <= r,
                r < s,
        ;
    }
}

pub proof fn lemma_sq_bound(d: int)
    requires
        -0x1_0000_0000 < d < 0x1_0000_0000,
    ensures
        0 <= d * d < 0x1_0000_0000_0000_0000,
{
    assert(0 <= d * d < 0x1_0000_0000_0000_0000) by (nonlinear_arith)
        requires
            -0x1_0000_0000 < d < 0x1_0000_0000,
    ;
}

/// Integer square root by bisection.
pub fn isqrt(n: u128) -> (r: u64)
    ensures
        r == floor_sqrt(n as int),
        (r as int) * (r as int) <= n,
{
    let mut lo: u128 = 0;
    let mut hi: u128 = 0x1_0000_0000_0000_0000;
    proof {
        assert(n < hi * hi) by (nonlinear_arith)
            requires
                hi == 0x1_0000_0000_0000_0000u128,
                n < 0x1_0000_0000_0000_0000_0000_0000_0000_0000,
        ;
    }
    while lo + 1 < hi
        invariant
            lo < hi <= 0x1_0000_0000_0000_0000u128,
            lo * lo <= n,
            n < hi * hi,
        decreases hi - lo,
    {
        let mid: u128 = lo + (hi - lo) / 2;
        assert(mid < 0x1_0000_0000_0000_0000u128);
        proof {
            assert(mid * mid < 0x1_0000_0000_0000_0000_0000_0000_0000_0000) by (nonlinear_arith)
                requires
                    mid < 0x1_0000_0000_0000_0000u128,
            ;
        }
        if mid * mid <= n {
            lo = mid;
        } else {
            hi = mid;
        }
    }
    proof {
        assert(hi == lo + 1);
        lemma_floor_sqrt_unique(n as int, lo as nat);
    }
    lo as u64
}

impl ColorPoint {
    /// Twice the squared weighted distance to `other` (see `weighted_sq`); orders pairs of
    /// points exactly as the distance does.
    pub fn sq_distance_to(&self, other: &Self) -> (d: u128)
        ensures
            d == weighted_sq(*self, *other),
    {
        let dr: i64 = self.r as i64 - other.r as i64;
        let dg: i64 = self.g as i64 - other.g as i64;
        let db: i64 = self.b as i64 - other.b as i64;
        proof {
            lemma_sq_bound(dr as int);
            lemma_sq_bound(dg as int);
            lemma_sq_bound(db as int);
        }
        let sr: u128 = (dr as i128 * dr as i128) as u128;
        let sg: u128 = (dg as i128 * dg as i128) as u128;
        let sb: u128 = (db as i128 * db as i128) as u128;
        sr + 2 * sg + 2 * sb
    }

    /// The weighted distance to `other`, rounded down: the first channel's squared difference
    /// counts half.
    pub fn distance_to(&self, other: &Self) -> (d: u64)
        ensures
            d == distance(*self, *other),
            d < 0x4_0000_0000,
    {
        let d = isqrt(self.sq_distance_to(other) / 2);
        proof {
            let w = weighted_sq(*self, *other) / 2;
            lemma_sq_bound(self.r - other.r);
            lemma_sq_bound(self.g - other.g);
            lemma_sq_bound(self.b - other.b);
            assert(w < 0x10_0000_0000_0000_0000);
            if d >= 0x4_0000_0000 {
                assert((d as int) * (d as int) >= 0x10_0000_0000_0000_0000) by (nonlinear_arith)
                    requires
                        d >= 0x4_0000_0000,
                ;
            }
        }
        d
    }

    /// The three channels, in order.
    pub fn to_array(&self) -> (a: [u32; 3])
        ensures
            a@ == seq![self.r, self.g, self.b],
    {
        let a = [self.r, self.g, self.b];
        assert(a@ =~= seq![self.r, self.g, self.b]);
        a
    }
}

/// A candidate assignment: (twice the squared distance, position of the black point,
/// position of the red point).
pub type Pair = (u128, usize, usize);

/// One class member: the distance from the assigned point to its red point (see
/// `distance`), and the point.
pub type Member = (u64, ColorPoint);

/// The member that pair `(i, j)` adds to class `j`.
pub open spec fn member_of(reds: Seq<ColorPoint>, blacks: Seq<ColorPoint>, i: usize, j: usize) -> Member {
    (distance(blacks[i as int], reds[j as int]) as u64, blacks[i as int])
}

/// The pairs of black point `i` with every red point, in red-point order.
pub open spec fn pair_row(reds: Seq<ColorPoint>, blacks: Seq<ColorPoint>, i: int) -> Seq<Pair> {
    Seq::new(reds.len(), |j: int| (weighted_sq(blacks[i], reds[j]) as u128, i as usize, j as usize))
}

/// The pairs of the first `n` black points with every red point, black-point major.
pub open spec fn pairs_upto(reds: Seq<ColorPoint>, blacks: Seq<ColorPoint>, n: int) -> Seq<Pair>
    decreases n,
{
    if n <= 0 {
        seq![]
    } else {
        pairs_upto(reds, blacks, n - 1) + pair_row(reds, blacks, n - 1)
    }
}

/// Every (black point, red point) pair, in input order.
pub open spec fn all_pairs(reds: Seq<ColorPoint>, blacks: Seq<ColorPoint>) -> Seq<Pair> {
    pairs_upto(reds, blacks, blacks.len() as int)
}

/// The first position at or after `i` whose key is not below `key`.
pub open spec fn first_not_below(s: Seq<Pair>, key: u128, i: int) -> int
    decreases s.len() - i,
{
    if i >= s.len() || i < 0 {
        s.len() as int
    } else if s[i].0 >= key {
        i
    } else {
        first_not_below(s, key, i + 1)
    }
}

/// Inserts `x` before the first element whose key is not below its own.
pub open spec fn insert_sorted(s: Seq<Pair>, x: Pair) -> Seq<Pair> {
    s.insert(first_not_below(s, x.0, 0), x)
}

/// The pairs in ascending order of key; pairs with equal keys keep their input order.
pub open spec fn sort_pairs(s: Seq<Pair>) -> Seq<Pair>
    decreases s.len(),
{
    if s.len() == 0 {
        s
    } else {
        insert_sorted(sort_pairs(s.drop_first()), s[0])
    }
}

/// No class at all: one empty member list per red point.
pub open spec fn empty_classes(m: int) -> Seq<Seq<Member>> {
    Seq::new(m as nat, |j: int| Seq::<Member>::empty())
}

/// The greedy scan over the first `n` pairs of `order`: a pair is taken when its black
/// point (by index) is not assigned yet and its red point's class holds fewer than `k`
/// members. Returns the classes and the set of assigned indices.
pub open spec fn greedy(
    order: Seq<Pair>,
    reds: Seq<ColorPoint>,
    blacks: Seq<ColorPoint>,
    k: int,
    n: int,
) -> (Seq<Seq<Member>>, Set<usize>)
    decreases n,
{
    if n <= 0 {
        (empty_classes(reds.len() as int), Set::empty())
    } else {
        let (classes, taken) = greedy(order, reds, blacks, k, n - 1);
        let (key, i, j) = order[n - 1];
        let p = blacks[i as int];
        if taken.contains(p.index) || classes[j as int].len() >= k {
            (classes, taken)
        } else {
            (
                classes.update(j as int, classes[j as int].push(member_of(reds, blacks, i, j))),
                taken.insert(p.index),
            )
        }
    }
}

/// The classification of `blacks` onto `reds` with capacity `k`: class `j` belongs to
/// `reds[j]` and lists its members in the order they were taken.
pub open spec fn classes_of(reds: Seq<ColorPoint>, blacks: Seq<ColorPoint>, k: int) -> Seq<
    Seq<Member>,
> {
    let order = sort_pairs(all_pairs(reds, blacks));
    greedy(order, reds, blacks, k, order.len() as int).0
}

/// The number of members over all classes.
pub open spec fn total_members(c: Seq<Seq<Member>>) -> int
    decreases c.len(),
{
    if c.len() == 0 {
        0
    } else {
        total_members(c.drop_last()) + c.last().len()
    }
}

pub open spec fn greedy_inv(c: Seq<Seq<Member>>, taken: Set<usize>, m: int, k: int) -> bool {
    &&& c.len() == m
    &&& forall|j: int| 0 <= j < m ==> (#[trigger] c[j]).len() <= k
    &&& forall|j: int, a: int|
        0 <= j < m && 0 <= a < c[j].len() ==> taken.contains((#[trigger] c[j][a]).1.index)
    &&& forall|j1: int, a: int, j2: int, b: int|
        0 <= j1 < m && 0 <= a < c[j1].len() && 0 <= j2 < m && 0 <= b < c[j2].len() && (j1 != j2
            || a != b) ==> (#[trigger] c[j1][a]).1.index != (#[trigger] c[j2][b]).1.index
}

proof fn lemma_greedy_inv(
    order: Seq<Pair>,
    reds: Seq<ColorPoint>,
    blacks: Seq<ColorPoint>,
    k: int,
    n: int,
)
    requires
        0 <= n <= order.len(),
        0 <= k,
        forall|t: int|
            0 <= t < order.len() ==> (#[trigger] order[t]).1 < blacks.len() && order[t].2
                < reds.len(),
    ensures
        greedy_inv(
            greedy(order, reds, blacks, k, n).0,
            greedy(order, reds, blacks, k, n).1,
            reds.len() as int,
            k,
        ),
    decreases n,
{
    if n > 0 {
        lemma_greedy_inv(order, reds, blacks, k, n - 1);
        let (classes, taken) = greedy(order, reds, blacks, k, n - 1);
        let (key, i, j) = order[n - 1];
        let p = blacks[i as int];
        if !(taken.contains(p.index) || classes[j as int].len() >= k) {
            let c2 = classes.update(j as int, classes[j as int].push(member_of(reds, blacks, i, j)));
            let t2 = taken.insert(p.index);
            let m = reds.len() as int;
            assert forall|j1: int, a: int|
                0 <= j1 < m && 0 <= a < c2[j1].len() implies t2.contains(
                (#[trigger] c2[j1][a]).1.index,
            ) by {
                if j1 != j || a < classes[j1].len() {
                    assert(c2[j1][a] == classes[j1][a]);
                }
            }
            assert forall|j1: int, a: int, j2: int, b: int|
                0 <= j1 < m && 0 <= a < c2[j1].len() && 0 <= j2 < m && 0 <= b < c2[j2].len() && (
                j1 != j2 || a != b) implies (#[trigger] c2[j1][a]).1.index != (
            #[trigger] c2[j2][b]).1.index by {
                let new1 = j1 == j && a == classes[j1].len();
                let new2 = j2 == j && b == classes[j2].len();
                if !new1 {
                    assert(c2[j1][a] == classes[j1][a]);
                }
                if !new2 {
                    assert(c2[j2][b] == classes[j2][b]);
                }
            }
        }
    }
}

proof fn lemma_total_members(c: Seq<Seq<Member>>, k: int)
    requires
        0 <= k,
        forall|j: int| 0 <= j < c.len() ==> (#[trigger] c[j]).len() <= k,
    ensures
        total_members(c) <= c.len() * k,
    decreases c.len(),
{
    if c.len() > 0 {
        let d = c.drop_last();
        assert forall|j: int| 0 <= j < d.len() implies (#[trigger] d[j]).len() <= k by {
            assert(d[j] == c[j]);
        }
        lemma_total_members(d, k);
        assert(c.len() * k == d.len() * k + k) by (nonlinear_arith)
            requires
                d.len() == c.len() - 1,
        ;
    }
}

proof fn lemma_all_pairs_in_range(reds: Seq<ColorPoint>, blacks: Seq<ColorPoint>, n: int)
    requires
        0 <= n <= blacks.len(),
    ensures
        pairs_upto(reds, blacks, n).len() == n * reds.len(),
        forall|t: int|
            0 <= t < pairs_upto(reds, blacks, n).len() ==> (#[trigger] pairs_upto(
                reds,
                blacks,
                n,
            )[t]).1 < n && pairs_upto(reds, blacks, n)[t].2 < reds.len(),
    decreases n,
{
    if n == 0 {
        assert(n * reds.len() == 0);
    } else {
        lemma_all_pairs_in_range(reds, blacks, n - 1);
        assert(n * reds.len() == (n - 1) * reds.len() + reds.len()) by (nonlinear_arith);
        let prev = pairs_upto(reds, blacks, n - 1);
        let s = pairs_upto(reds, blacks, n);
        assert forall|t: int| 0 <= t < s.len() implies (#[trigger] s[t]).1 < n && s[t].2
            < reds.len() by {
            if t < prev.len() {
                assert(s[t] == prev[t]);
            }
        }
    }
}

proof fn lemma_insert_sorted_members(s: Seq<Pair>, x: Pair)
    ensures
        insert_sorted(s, x).len() == s.len() + 1,
        forall|p: Pair| #[trigger] insert_sorted(s, x).contains(p) <==> (s.contains(p) || p == x),
{
    lemma_first_not_below_range(s, x.0, 0);
    let r = insert_sorted(s, x);
    let q = first_not_below(s, x.0, 0);
    assert forall|p: Pair| #[trigger] r.contains(p) implies (s.contains(p) || p == x) by {
        let t = choose|t: int| 0 <= t < r.len() && r[t] == p;
        if t < q {
            assert(r[t] == s[t]);
        } else if t > q {
            assert(r[t] == s[t - 1]);
        }
    }
    assert forall|p: Pair| (s.contains(p) || p == x) implies #[trigger] r.contains(p) by {
        if p == x {
            assert(r[q] == x);
        } else {
            let t = choose|t: int| 0 <= t < s.len() && s[t] == p;
            if t < q {
                assert(r[t] == p);
            } else {
                assert(r[t + 1] == p);
            }
        }
    }
}

proof fn lemma_first_not_below_range(s: Seq<Pair>, key: u128, i: int)
    requires
        0 <= i <= s.len(),
    ensures
        i <= first_not_below(s, key, i) <= s.len(),
    decreases s.len() - i,
{
    if i < s.len() && s[i].0 < key {
        lemma_first_not_below_range(s, key, i + 1);
    }
}

proof fn lemma_sort_pairs_members(s: Seq<Pair>)
    ensures
        sort_pairs(s).len() == s.len(),
        forall|p: Pair| #[trigger] sort_pairs(s).contains(p) <==> s.contains(p),
    decreases s.len(),
{
    if s.len() > 0 {
        lemma_sort_pairs_members(s.drop_first());
        lemma_insert_sorted_members(sort_pairs(s.drop_first()), s[0]);
        assert forall|p: Pair| #[trigger] s.contains(p) <==> (s.drop_first().contains(p) || p
            == s[0]) by {
            if s.contains(p) && p != s[0] {
                let t = choose|t: int| 0 <= t < s.len() && s[t] == p;
                assert(s.drop_first()[t - 1] == p);
            }
            if s.drop_first().contains(p) {
                let t = choose|t: int| 0 <= t < s.drop_first().len() && s.drop_first()[t] == p;
                assert(s[t + 1] == p);
            }
            if p == s[0] {
                assert(s[0] == p);
            }
        }
    }
}

proof fn lemma_greedy_member_bound(
    order: Seq<Pair>,
    reds: Seq<ColorPoint>,
    blacks: Seq<ColorPoint>,
    k: int,
    n: int,
    bound: int,
)
    requires
        0 <= n <= order.len(),
        forall|t: int|
            0 <= t < order.len() ==> (#[trigger] order[t]).1 < blacks.len() && order[t].2
                < reds.len(),
        forall|t: int| 0 <= t < blacks.len() ==> (#[trigger] blacks[t]).index < bound,
    ensures
        greedy(order, reds, blacks, k, n).0.len() == reds.len(),
        forall|j: int, a: int|
            0 <= j < reds.len() && 0 <= a < greedy(order, reds, blacks, k, n).0[j].len() ==> (
            #[trigger] greedy(order, reds, blacks, k, n).0[j][a]).1.index < bound,
    decreases n,
{
    if n > 0 {
        lemma_greedy_member_bound(order, reds, blacks, k, n - 1, bound);
        let (classes, taken) = greedy(order, reds, blacks, k, n - 1);
        let (key, i, j0) = order[n - 1];
        let p = blacks[i as int];
        let c2 = greedy(order, reds, blacks, k, n).0;
        assert forall|j: int, a: int| 0 <= j < reds.len() && 0 <= a < c2[j].len() implies (
        #[trigger] c2[j][a]).1.index < bound by {
            if j != j0 || a < classes[j].len() {
                assert(c2[j][a] == classes[j][a]);
            } else {
                assert(c2[j][a] == member_of(reds, blacks, i, j0));
            }
        }
    }
}

/// Every assigned point is one of the black points, so it keeps any bound on their indices.
pub proof fn lemma_classes_member_indices(
    reds: Seq<ColorPoint>,
    blacks: Seq<ColorPoint>,
    k: int,
    bound: int,
)
    requires
        forall|t: int| 0 <= t < blacks.len() ==> (#[trigger] blacks[t]).index < bound,
    ensures
        classes_of(reds, blacks, k).len() == reds.len(),
        forall|j: int, a: int|
            0 <= j < reds.len() && 0 <= a < classes_of(reds, blacks, k)[j].len() ==> (
            #[trigger] classes_of(reds, blacks, k)[j][a]).1.index < bound,
{
    let pairs = all_pairs(reds, blacks);
    let order = sort_pairs(pairs);
    lemma_all_pairs_in_range(reds, blacks, blacks.len() as int);
    lemma_sort_pairs_members(pairs);
    assert forall|t: int| 0 <= t < order.len() implies (#[trigger] order[t]).1 < blacks.len()
        && order[t].2 < reds.len() by {
        assert(order.contains(order[t]));
        let u = choose|u: int| 0 <= u < pairs.len() && pairs[u] == order[t];
        assert(pairs[u] == order[t]);
    }
    lemma_greedy_member_bound(order, reds, blacks, k, order.len() as int, bound);
}

proof fn lemma_first_not_below_bounds(s: Seq<Pair>, key: u128, i: int)
    requires
        0 <= i <= s.len(),
    ensures
        forall|t: int| i <= t < first_not_below(s, key, i) ==> (#[trigger] s[t]).0 < key,
        first_not_below(s, key, i) < s.len() ==> s[first_not_below(s, key, i)].0 >= key,
    decreases s.len() - i,
{
    if i < s.len() && s[i].0 < key {
        lemma_first_not_below_bounds(s, key, i + 1);
    }
}

pub open spec fn sorted_by_key(s: Seq<Pair>) -> bool {
    forall|i: int, j: int| 0 <= i < j < s.len() ==> (#[trigger] s[i]).0 <= (#[trigger] s[j]).0
}

/// The order in which classification scans the pairs is ascending in distance.
pub proof fn lemma_sort_pairs_sorted(s: Seq<Pair>)
    ensures
        sorted_by_key(sort_pairs(s)),
    decreases s.len(),
{
    if s.len() > 0 {
        lemma_sort_pairs_sorted(s.drop_first());
        let r = sort_pairs(s.drop_first());
        let x = s[0];
        lemma_first_not_below_range(r, x.0, 0);
        lemma_first_not_below_bounds(r, x.0, 0);
        let q = first_not_below(r, x.0, 0);
        let out = insert_sorted(r, x);
        assert forall|i: int, j: int| 0 <= i < j < out.len() implies (#[trigger] out[i]).0 <= (
        #[trigger] out[j]).0 by {
            if j < q {
                assert(out[i] == r[i] && out[j] == r[j]);
            } else if j == q {
                assert(out[i] == r[i]);
            } else if i < q {
                assert(out[i] == r[i] && out[j] == r[j - 1]);
                assert(r[q].0 >= x.0);
                assert(r[q].0 <= r[j - 1].0);
            } else if i == q {
                assert(out[j] == r[j - 1]);
                assert(r[q].0 <= r[j - 1].0);
            } else {
                assert(out[i] == r[i - 1] && out[j] == r[j - 1]);
            }
        }
    }
}

/// Whatever the points, the classification has one class per red point, no class holds more
/// than `k` members, all classes together hold at most `reds.len() * k` points, and no
/// point index is assigned twice.
pub proof fn lemma_classes_well_formed(reds: Seq<ColorPoint>, blacks: Seq<ColorPoint>, k: int)
    requires
        0 <= k,
    ensures
        ({
            let c = classes_of(reds, blacks, k);
            &&& c.len() == reds.len()
            &&& forall|j: int| 0 <= j < c.len() ==> (#[trigger] c[j]).len() <= k
            &&& total_members(c) <= reds.len() * k
            &&& forall|j1: int, a: int, j2: int, b: int|
                0 <= j1 < c.len() && 0 <= a < c[j1].len() && 0 <= j2 < c.len() && 0 <= b
                    < c[j2].len() && (j1 != j2 || a != b) ==> (#[trigger] c[j1][a]).1.index != (
                #[trigger] c[j2][b]).1.index
        }),
{
    let pairs = all_pairs(reds, blacks);
    let order = sort_pairs(pairs);
    lemma_all_pairs_in_range(reds, blacks, blacks.len() as int);
    lemma_sort_pairs_members(pairs);
    assert forall|t: int| 0 <= t < order.len() implies (#[trigger] order[t]).1 < blacks.len()
        && order[t].2 < reds.len() by {
        assert(order.contains(order[t]));
        let u = choose|u: int| 0 <= u < pairs.len() && pairs[u] == order[t];
        assert(pairs[u] == order[t]);
    }
    lemma_greedy_inv(order, reds, blacks, k, order.len() as int);
    lemma_total_members(classes_of(reds, blacks, k), k);
}

/// Classification is a function of its inputs: two runs over the same red points, black
/// points and capacity give the same classes.
pub proof fn lemma_classify_deterministic(c1: Classification, c2: Classification)
    requires
        c1.red_points@ == c2.red_points@,
        c1.black_points@ == c2.black_points@,
        c1.k == c2.k,
    ensures
        c1.classes() == c2.classes(),
{
}

/// Capacity-bounded nearest-centroid assignment of black points onto red points (centroids).
///
/// Every (black, red) pair is ranked by distance, ties kept in input order; the pairs are
/// then scanned in that order, and a pair is taken when its black point is not assigned yet
/// and its red point holds fewer than `k` points. This is a greedy heuristic, not an optimal
/// assignment.
pub struct Classification {
    /// Centroids.
    pub red_points: Vec<ColorPoint>,
    /// Points to classify.
    pub black_points: Vec<ColorPoint>,
    /// Capacity of each class.
    pub k: usize,
}

impl Classification {
    /// The classes that `classify` returns for this classification.
    pub open spec fn classes(&self) -> Seq<Seq<Member>> {
        classes_of(self.red_points@, self.black_points@, self.k as int)
    }

    /// Sets up a classification with capacity `black_points.len() / red_points.len()`.
    pub fn init(red_points: Vec<ColorPoint>, black_points: Vec<ColorPoint>) -> (c: Self)
        requires
            red_points.len() > 0,
        ensures
            c.red_points@ == red_points@,
            c.black_points@ == black_points@,
            c.k == black_points.len() / red_points.len(),
    {
        Classification { k: black_points.len() / red_points.len(), red_points, black_points }
    }

    fn calc_distances(&mut self) -> (res: Vec<Pair>)
        ensures
            *final(self) == *old(self),
            res@ == all_pairs(old(self).red_points@, old(self).black_points@),
    {
        let mut res: Vec<Pair> = Vec::new();
        let n = self.black_points.len();
        let m = self.red_points.len();
        let mut i: usize = 0;
        while i < n
            invariant
                n == self.black_points.len(),
                m == self.red_points.len(),
                i <= n,
                res@ == pairs_upto(self.red_points@, self.black_points@, i as int),
            decreases n - i,
        {
            let mut j: usize = 0;
            let ghost before = res@;
            while j < m
                invariant
                    n == self.black_points.len(),
                    m == self.red_points.len(),
                    i < n,
                    j <= m,
                    before == pairs_upto(self.red_points@, self.black_points@, i as int),
                    res@ == before + pair_row(self.red_points@, self.black_points@, i as int).take(
                        j as int,
                    ),
                decreases m - j,
            {
                let d = self.black_points[i].sq_distance_to(&self.red_points[j]);
                res.push((d, i, j));
                proof {
                    let row = pair_row(self.red_points@, self.black_points@, i as int);
                    assert(row.take(j + 1) =~= row.take(j as int).push(row[j as int]));
                }
                j = j + 1;
            }
            proof {
                let row = pair_row(self.red_points@, self.black_points@, i as int);
                assert(row.take(m as int) =~= row);
            }
            i = i + 1;
        }
        res
    }

    /// Assigns each black point to at most one red point (see the type's documentation).
    /// Class `j` belongs to `red_points[j]` and lists (squared distance, point) in the order
    /// the points were taken.
    pub fn classify(&mut self) -> (res: Vec<Vec<Member>>)
        ensures
            *final(self) == *old(self),
            res@.len() == old(self).red_points.len(),
            forall|j: int| 0 <= j < res@.len() ==> (#[trigger] res@[j])@ == old(self).classes()[j],
    {
        let pairs = self.calc_distances();
        let order = sort_by_distance(&pairs);
        let ghost reds = self.red_points@;
        let ghost blacks = self.black_points@;
        let ghost k = self.k as int;
        proof {
            lemma_all_pairs_in_range(reds, blacks, blacks.len() as int);
            lemma_sort_pairs_members(pairs@);
            assert forall|t: int| 0 <= t < order@.len() implies (#[trigger] order@[t]).1
                < blacks.len() && order@[t].2 < reds.len() by {
                assert(order@.contains(order@[t]));
                let u = choose|u: int| 0 <= u < pairs@.len() && pairs@[u] == order@[t];
                assert(pairs@[u] == order@[t]);
            }
        }
        let m = self.red_points.len();
        let mut classes: Vec<Vec<Member>> = Vec::new();
        let mut j: usize = 0;
        while j < m
            invariant
                m == reds.len(),
                j <= m,
                classes@.len() == j,
                forall|a: int| 0 <= a < j ==> (#[trigger] classes@[a])@ == Seq::<Member>::empty(),
            decreases m - j,
        {
            classes.push(Vec::new());
            j = j + 1;
        }
        let mut added: Vec<usize> = Vec::new();
        let mut t: usize = 0;
        while t < order.len()
            invariant
                reds == self.red_points@,
                blacks == self.black_points@,
                k == self.k,
                m == reds.len(),
                order@ == sort_pairs(all_pairs(reds, blacks)),
                forall|u: int|
                    0 <= u < order@.len() ==> (#[trigger] order@[u]).1 < blacks.len()
                        && order@[u].2 < reds.len(),
                t <= order.len(),
                classes@.len() == m,
                forall|a: int|
                    0 <= a < m ==> (#[trigger] classes@[a])@ == greedy(
                        order@,
                        reds,
                        blacks,
                        k,
                        t as int,
                    ).0[a],
                forall|x: usize|
                    added@.contains(x) <==> greedy(order@, reds, blacks, k, t as int).1.contains(x),
            decreases order.len() - t,
        {
            proof {
                lemma_greedy_inv(order@, reds, blacks, k, t as int);
            }
            let (key, i, jj) = order[t];
            let p = self.black_points[i];
            if !contains_index(&added, p.index) && classes[jj].len() < self.k {
                let ghost before = classes@;
                let ghost added_before = added@;
                let d = p.distance_to(&self.red_points[jj]);
                let mut cl = classes.remove(jj);
                cl.push((d, p));
                classes.insert(jj, cl);
                added.push(p.index);
                proof {
                    let g = greedy(order@, reds, blacks, k, t as int);
                    let g2 = greedy(order@, reds, blacks, k, t + 1);
                    assert forall|x: usize| added@.contains(x) <==> g2.1.contains(x) by {
                        if added@.contains(x) && x != p.index {
                            let u = choose|u: int| 0 <= u < added@.len() && added@[u] == x;
                            assert(added_before[u] == x);
                        }
                        if added_before.contains(x) {
                            let u = choose|u: int| 0 <= u < added_before.len() && added_before[u] == x;
                            assert(added@[u] == x);
                        }
                        if x == p.index {
                            assert(added@[added@.len() - 1] == x);
                        }
                    }
                    assert forall|a: int| 0 <= a < m implies (#[trigger] classes@[a])@ == g2.0[a] by {
                        if a < jj {
                            assert(classes@[a] == before[a]);
                        } else if a > jj {
                            assert(classes@[a] == before[a]);
                        }
                    }
                }
            } else {
                proof {
                    let g = greedy(order@, reds, blacks, k, t as int);
                    let g2 = greedy(order@, reds, blacks, k, t + 1);
                    assert(g2 == g);
                }
            }
            t = t + 1;
        }
        proof {
            assert(order@.len() == all_pairs(reds, blacks).len()) by {
                lemma_sort_pairs_members(all_pairs(reds, blacks));
            }
        }
        classes
    }
}

fn contains_index(v: &Vec<usize>, x: usize) -> (r: bool)
    ensures
        r == v@.contains(x),
{
    let mut i: usize = 0;
    while i < v.len()
        invariant
            i <= v.len(),
            forall|a: int| 0 <= a < i ==> v@[a] != x,
        decreases v.len() - i,
    {
        if v[i] == x {
            assert(v@[i as int] == x);
            return true;
        }
        i = i + 1;
    }
    false
}

fn insert_sorted_exec(s: &mut Vec<Pair>, x: Pair)
    ensures
        final(s)@ == insert_sorted(old(s)@, x),
{
    let mut p: usize = 0;
    while p < s.len() && s[p].0 < x.0
        invariant
            p <= s.len(),
            s@ == old(s)@,
            first_not_below(s@, x.0, 0) == first_not_below(s@, x.0, p as int),
        decreases s.len() - p,
    {
        p = p + 1;
    }
    s.insert(p, x);
}

/// The pairs in ascending order of key, equal keys in input order (see `sort_pairs`).
fn sort_by_distance(pairs: &Vec<Pair>) -> (res: Vec<Pair>)
    ensures
        res@ == sort_pairs(pairs@),
{
    let mut res: Vec<Pair> = Vec::new();
    let n = pairs.len();
    let mut i: usize = n;
    while i > 0
        invariant
            n == pairs.len(),
            i <= n,
            res@ == sort_pairs(pairs@.subrange(i as int, n as int)),
        decreases i,
    {
        proof {
            let s = pairs@.subrange(i - 1, n as int);
            assert(s.drop_first() =~= pairs@.subrange(i as int, n as int));
            assert(s[0] == pairs@[i - 1]);
        }
        insert_sorted_exec(&mut res, pairs[i - 1]);
        i = i - 1;
    }
    assert(pairs@.subrange(0, n as int) =~= pairs@);
    res
}

} // verus!
