use vstd::prelude::*;
use vstd::relations::total_ordering;
use vstd::seq_lib::lemma_sorted_unique;

use crate::bindings::{
    ascending, chars_of, combinations, index_combinations, kewb_accepts, kewb_solvable,
    sorted_ascending, string_from_chars,
};
use crate::classification::{distance, ColorPoint};
use crate::constants::{centre_facelet, is_centre, is_side, side_facelet, NUM_FACELETS};

verus! {

/// Channel `ch` (0, 1 or 2) of a sample.
pub open spec fn channel(p: ColorPoint, ch: int) -> int {
    if ch == 0 {
        p.r as int
    } else if ch == 1 {
        p.g as int
    } else {
        p.b as int
    }
}

/// How many of the first `n` facelets carry symbol `c`.
pub open spec fn group_count(chars: Seq<char>, c: char, n: int) -> int
    decreases n,
{
    if n <= 0 {
        0
    } else {
        group_count(chars, c, n - 1) + if chars[n - 1] == c {
            1int
        } else {
            0int
        }
    }
}

/// The sum of channel `ch` over those of the first `n` facelets that carry symbol `c`.
pub open spec fn group_sum(pts: Seq<ColorPoint>, chars: Seq<char>, c: char, ch: int, n: int) -> int
    decreases n,
{
    if n <= 0 {
        0
    } else {
        group_sum(pts, chars, c, ch, n - 1) + if chars[n - 1] == c {
            channel(pts[n - 1], ch)
        } else {
            0int
        }
    }
}

/// The mean sample of the facelets labelled `c`, channel by channel, rounded down.
pub open spec fn group_mean(pts: Seq<ColorPoint>, chars: Seq<char>, c: char) -> ColorPoint {
    let n = pts.len() as int;
    let count = group_count(chars, c, n);
    ColorPoint {
        r: (group_sum(pts, chars, c, 0, n) / count) as u32,
        g: (group_sum(pts, chars, c, 1, n) / count) as u32,
        b: (group_sum(pts, chars, c, 2, n) / count) as u32,
        index: 0,
    }
}

/// Distance of facelet `i`'s sample to the mean of its symbol's group.
pub open spec fn facelet_score(pts: Seq<ColorPoint>, chars: Seq<char>, i: int) -> nat {
    distance(pts[i], group_mean(pts, chars, chars[i]))
}

pub open spec fn score_upto(pts: Seq<ColorPoint>, chars: Seq<char>, n: int) -> nat
    decreases n,
{
    if n <= 0 {
        0
    } else {
        score_upto(pts, chars, n - 1) + facelet_score(pts, chars, n - 1)
    }
}

/// How chromatically consistent a labelling is: the sum over all facelets of the distance
/// from the facelet's sample to the mean sample of its symbol's group. Lower is better.
pub open spec fn score(pts: Seq<ColorPoint>, chars: Seq<char>) -> nat {
    score_upto(pts, chars, pts.len() as int)
}

proof fn lemma_group_bounds(pts: Seq<ColorPoint>, chars: Seq<char>, c: char, ch: int, n: int)
    requires
        0 <= n <= pts.len(),
        n <= chars.len(),
    ensures
        0 <= group_count(chars, c, n) <= n,
        0 <= group_sum(pts, chars, c, ch, n) <= group_count(chars, c, n) * 0xFFFF_FFFF,
    decreases n,
{
    if n > 0 {
        lemma_group_bounds(pts, chars, c, ch, n - 1);
        let k = group_count(chars, c, n - 1);
        assert((k + 1) * 0xFFFF_FFFF == k * 0xFFFF_FFFF + 0xFFFF_FFFF) by (nonlinear_arith);
    }
}

proof fn lemma_group_nonempty(chars: Seq<char>, i: int, n: int)
    requires
        0 <= i < n <= chars.len(),
    ensures
        group_count(chars, chars[i], n) >= 1,
    decreases n,
{
    if n - 1 > i {
        lemma_group_nonempty(chars, i, n - 1);
    } else {
        assert(group_count(chars, chars[i], n - 1) >= 0) by {
            if n - 1 > 0 {
                lemma_count_nonneg(chars, chars[i], n - 1);
            }
        }
    }
}

proof fn lemma_count_nonneg(chars: Seq<char>, c: char, n: int)
    ensures
        group_count(chars, c, n) >= 0,
    decreases n,
{
    if n > 0 {
        lemma_count_nonneg(chars, c, n - 1);
    }
}

/// The mean of channel `ch` over the facelets labelled `chars[i]`.
fn group_channel_mean(rgb_values: &Vec<ColorPoint>, chars: &Vec<char>, i: usize, ch: u8) -> (m: u32)
    requires
        rgb_values.len() == chars.len() <= NUM_FACELETS,
        i < chars.len(),
        ch < 3,
    ensures
        m == group_sum(rgb_values@, chars@, chars@[i as int], ch as int, chars.len() as int)
            / group_count(chars@, chars@[i as int], chars.len() as int),
{
    let c = chars[i];
    let n = chars.len();
    let mut sum: u64 = 0;
    let mut count: u64 = 0;
    let mut j: usize = 0;
    while j < n
        invariant
            n == chars.len(),
            rgb_values.len() == n <= NUM_FACELETS,
            c == chars@[i as int],
            j <= n,
            sum == group_sum(rgb_values@, chars@, c, ch as int, j as int),
            count == group_count(chars@, c, j as int),
        decreases n - j,
    {
        proof {
            lemma_group_bounds(rgb_values@, chars@, c, ch as int, j as int);
        }
        if chars[j] == c {
            let p = rgb_values[j];
            let v: u32 = if ch == 0 {
                p.r
            } else if ch == 1 {
                p.g
            } else {
                p.b
            };
            sum = sum + v as u64;
            count = count + 1;
        }
        j = j + 1;
    }
    proof {
        lemma_group_bounds(rgb_values@, chars@, c, ch as int, n as int);
        lemma_group_nonempty(chars@, i as int, n as int);
        assert(sum / count <= 0xFFFF_FFFF) by (nonlinear_arith)
            requires
                count >= 1,
                sum <= count * 0xFFFF_FFFF,
        ;
    }
    (sum / count) as u32
}

/// The score of a labelling (see `score`): lower means more chromatically consistent groups.
pub fn calculate_score(rgb_values: &Vec<ColorPoint>, chars: &Vec<char>) -> (s: u64)
    requires
        rgb_values.len() == chars.len() <= NUM_FACELETS,
    ensures
        s == score(rgb_values@, chars@),
{
    let n = chars.len();
    let mut total: u64 = 0;
    let mut i: usize = 0;
    while i < n
        invariant
            n == chars.len(),
            rgb_values.len() == n <= NUM_FACELETS,
            i <= n,
            total == score_upto(rgb_values@, chars@, i as int),
            total <= i * 0x4_0000_0000,
        decreases n - i,
    {
        let mean = ColorPoint {
            r: group_channel_mean(rgb_values, chars, i, 0),
            g: group_channel_mean(rgb_values, chars, i, 1),
            b: group_channel_mean(rgb_values, chars, i, 2),
            index: 0,
        };
        let d = rgb_values[i].distance_to(&mean);
        assert(mean == group_mean(rgb_values@, chars@, chars@[i as int]));
        total = total + d;
        i = i + 1;
    }
    total
}

/// `s` with the symbols at `i` and `j` exchanged.
pub open spec fn swap_at(s: Seq<char>, i: int, j: int) -> Seq<char> {
    s.update(i, s[j]).update(j, s[i])
}

/// `s` after applying each swap (a pair of positions) in turn.
pub open spec fn apply_swap_seq(s: Seq<char>, swaps: Seq<Seq<usize>>) -> Seq<char>
    decreases swaps.len(),
{
    if swaps.len() == 0 {
        s
    } else {
        let sw = swaps.last();
        swap_at(apply_swap_seq(s, swaps.drop_last()), sw[0] as int, sw[1] as int)
    }
}

/// Every swap names two positions below `n`.
pub open spec fn swaps_within(swaps: Seq<Seq<usize>>, n: int) -> bool {
    forall|t: int|
        0 <= t < swaps.len() ==> (#[trigger] swaps[t]).len() >= 2 && swaps[t][0] < n && swaps[t][1]
            < n
}

/// The swaps `pick` selects from `swaps`, in the order of `pick`.
pub open spec fn picked(swaps: Seq<Seq<usize>>, pick: Seq<usize>) -> Seq<Seq<usize>> {
    pick.map_values(|t: usize| swaps[t as int])
}

pub open spec fn views_of(v: Seq<Vec<usize>>) -> Seq<Seq<usize>> {
    v.map_values(|x: Vec<usize>| x@)
}

pub open spec fn ref_views_of(v: Seq<&Vec<usize>>) -> Seq<Seq<usize>> {
    v.map_values(|x: &Vec<usize>| x@)
}

/// Applies the swaps `swaps[pick[0]]`, `swaps[pick[1]]`, ... to `chars`.
pub(crate) fn apply_picked(chars: &Vec<char>, swaps: &Vec<Vec<usize>>, pick: &Vec<usize>) -> (r: Vec<char>)
    requires
        swaps_within(views_of(swaps@), chars.len() as int),
        forall|t: int| 0 <= t < pick.len() ==> #[trigger] pick@[t] < swaps.len(),
    ensures
        r@ == apply_swap_seq(chars@, picked(views_of(swaps@), pick@)),
        r@.len() == chars.len(),
{
    let mut r = chars.clone();
    let mut t: usize = 0;
    while t < pick.len()
        invariant
            swaps_within(views_of(swaps@), chars.len() as int),
            forall|u: int| 0 <= u < pick.len() ==> #[trigger] pick@[u] < swaps.len(),
            t <= pick.len(),
            r@ == apply_swap_seq(chars@, picked(views_of(swaps@), pick@.take(t as int))),
            r@.len() == chars.len(),
        decreases pick.len() - t,
    {
        let sw = &swaps[pick[t]];
        assert(views_of(swaps@)[pick@[t as int] as int] == sw@);
        let i = sw[0];
        let j = sw[1];
        let ci = r[i];
        let cj = r[j];
        r.set(i, cj);
        r.set(j, ci);
        proof {
            let p1 = picked(views_of(swaps@), pick@.take(t + 1));
            assert(p1.drop_last() =~= picked(views_of(swaps@), pick@.take(t as int)));
            assert(p1.last() == sw@);
        }
        t = t + 1;
    }
    assert(pick@.take(pick.len() as int) =~= pick@);
    r
}

/// Applies the given swaps (pairs of positions) in order to the characters and returns the
/// resulting string.
pub fn apply_swaps(chars: &Vec<char>, swaps: &Vec<&Vec<usize>>) -> (r: String)
    requires
        swaps_within(ref_views_of(swaps@), chars.len() as int),
    ensures
        r@ == apply_swap_seq(chars@, ref_views_of(swaps@)),
{
    let mut r = chars.clone();
    let mut t: usize = 0;
    while t < swaps.len()
        invariant
            swaps_within(ref_views_of(swaps@), chars.len() as int),
            t <= swaps.len(),
            r@ == apply_swap_seq(chars@, ref_views_of(swaps@).take(t as int)),
            r@.len() == chars.len(),
        decreases swaps.len() - t,
    {
        let sw: &Vec<usize> = swaps[t];
        assert(ref_views_of(swaps@)[t as int] == sw@);
        let i = sw[0];
        let j = sw[1];
        let ci = r[i];
        let cj = r[j];
        r.set(i, cj);
        r.set(j, ci);
        proof {
            let p1 = ref_views_of(swaps@).take(t + 1);
            assert(p1.drop_last() =~= ref_views_of(swaps@).take(t as int));
        }
        t = t + 1;
    }
    assert(ref_views_of(swaps@).take(swaps.len() as int) =~= ref_views_of(swaps@));
    string_from_chars(&r)
}

/// Whether exchanging the symbols at `i` and `j` is a meaningful repair move: the symbols
/// differ, neither position is a centre, and both are edge facelets or both are corner
/// facelets.
pub open spec fn swappable(chars: Seq<char>, i: int, j: int) -> bool {
    &&& chars[i] != chars[j]
    &&& !is_centre(i)
    &&& !is_centre(j)
    &&& is_side(i) == is_side(j)
}

/// The swappable candidates among the first `n` of `cands`, in order.
pub open spec fn swappable_upto(chars: Seq<char>, cands: Seq<Seq<usize>>, n: int) -> Seq<
    Seq<usize>,
>
    decreases n,
{
    if n <= 0 {
        seq![]
    } else {
        let prev = swappable_upto(chars, cands, n - 1);
        let c = cands[n - 1];
        if swappable(chars, c[0] as int, c[1] as int) {
            prev.push(c)
        } else {
            prev
        }
    }
}

/// Every swappable position pair `[i, j]` with `i < j`, in lexicographic order.
pub open spec fn swap_options(chars: Seq<char>) -> Seq<Seq<usize>> {
    let all = combinations(0, NUM_FACELETS as int, 2);
    swappable_upto(chars, all, all.len() as int)
}

/// Shape of a combination: `k` ascending values in `lo..n`.
pub open spec fn combination_shape(c: Seq<usize>, lo: int, n: int, k: int) -> bool {
    &&& c.len() == k
    &&& forall|t: int| 0 <= t < c.len() ==> lo <= #[trigger] c[t] < n
    &&& forall|t1: int, t2: int| 0 <= t1 < t2 < c.len() ==> #[trigger] c[t1] < #[trigger] c[t2]
}

pub proof fn lemma_combinations_shape(lo: int, n: int, k: int)
    requires
        0 <= lo,
        0 <= k,
        n <= usize::MAX,
    ensures
        forall|x: int|
            0 <= x < combinations(lo, n, k).len() ==> combination_shape(
                #[trigger] combinations(lo, n, k)[x],
                lo,
                n,
                k,
            ),
    decreases n - lo, k,
{
    if k == 0 {
    } else if lo >= n {
    } else {
        lemma_combinations_shape(lo + 1, n, k - 1);
        lemma_combinations_shape(lo + 1, n, k);
        let first = combinations(lo + 1, n, k - 1);
        let a = first.map_values(|c: Seq<usize>| seq![lo as usize] + c);
        let b = combinations(lo + 1, n, k);
        let all = combinations(lo, n, k);
        assert(all == a + b);
        assert forall|x: int| 0 <= x < all.len() implies combination_shape(
            #[trigger] all[x],
            lo,
            n,
            k,
        ) by {
            if x < a.len() {
                let c = first[x];
                assert(combination_shape(c, lo + 1, n, k - 1));
                let d = seq![lo as usize] + c;
                assert(all[x] == d);
                assert forall|t: int| 0 <= t < d.len() implies lo <= #[trigger] d[t] < n by {
                    if t == 0 {
                        assert(d[0] == lo as usize);
                    } else {
                        assert(d[t] == c[t - 1]);
                    }
                }
                assert forall|t1: int, t2: int| 0 <= t1 < t2 < d.len() implies #[trigger] d[t1]
                    < #[trigger] d[t2] by {
                    assert(d[t2] == c[t2 - 1]);
                    if t1 > 0 {
                        assert(d[t1] == c[t1 - 1]);
                    }
                }
            } else {
                assert(all[x] == b[x - a.len()]);
            }
        }
    }
}

proof fn lemma_swappable_upto_within(chars: Seq<char>, cands: Seq<Seq<usize>>, n: int)
    requires
        0 <= n <= cands.len(),
        forall|x: int|
            0 <= x < cands.len() ==> combination_shape(
                #[trigger] cands[x],
                0,
                NUM_FACELETS as int,
                2,
            ),
    ensures
        swaps_within(swappable_upto(chars, cands, n), NUM_FACELETS as int),
        forall|t: int|
            0 <= t < swappable_upto(chars, cands, n).len() ==> swappable(
                chars,
                (#[trigger] swappable_upto(chars, cands, n)[t])[0] as int,
                swappable_upto(chars, cands, n)[t][1] as int,
            ),
    decreases n,
{
    if n > 0 {
        lemma_swappable_upto_within(chars, cands, n - 1);
        assert(combination_shape(cands[n - 1], 0, NUM_FACELETS as int, 2));
        assert(cands[n - 1][0] < NUM_FACELETS);
        assert(cands[n - 1][1] < NUM_FACELETS);
    }
}

/// The swaps worth trying on `chars`: every pair of positions `[i, j]`, `i < j`, in
/// lexicographic order, whose symbols differ, neither of which is a centre, and which are
/// both edge facelets or both corner facelets.
pub fn generate_swap_options(chars: &Vec<char>) -> (r: Vec<Vec<usize>>)
    requires
        chars.len() == NUM_FACELETS,
    ensures
        views_of(r@) == swap_options(chars@),
        swaps_within(views_of(r@), NUM_FACELETS as int),
{
    let all = index_combinations(NUM_FACELETS, 2);
    let ghost all_v = combinations(0, NUM_FACELETS as int, 2);
    proof {
        lemma_combinations_shape(0, NUM_FACELETS as int, 2);
    }
    let mut r: Vec<Vec<usize>> = Vec::new();
    let mut t: usize = 0;
    while t < all.len()
        invariant
            chars.len() == NUM_FACELETS,
            all@.len() == all_v.len(),
            all_v == combinations(0, NUM_FACELETS as int, 2),
            forall|i: int| 0 <= i < all@.len() ==> (#[trigger] all@[i])@ == all_v[i],
            forall|x: int|
                0 <= x < all_v.len() ==> combination_shape(
                    #[trigger] all_v[x],
                    0,
                    NUM_FACELETS as int,
                    2,
                ),
            t <= all.len(),
            views_of(r@) == swappable_upto(chars@, all_v, t as int),
        decreases all.len() - t,
    {
        let c = &all[t];
        assert(c@ == all_v[t as int]);
        assert(combination_shape(all_v[t as int], 0, NUM_FACELETS as int, 2));
        let i = c[0];
        let j = c[1];
        if chars[i] != chars[j] && !centre_facelet(i) && !centre_facelet(j) && side_facelet(i)
            == side_facelet(j) {
            let ghost before = r@;
            r.push(c.clone());
            assert(views_of(r@) =~= views_of(before).push(c@));
        }
        t = t + 1;
    }
    proof {
        lemma_swappable_upto_within(chars@, all_v, all_v.len() as int);
    }
    r
}

/// `s` with the two positions of `sw` exchanged.
pub open spec fn neighbor(s: Seq<char>, sw: Seq<usize>) -> Seq<char> {
    swap_at(s, sw[0] as int, sw[1] as int)
}

fn swap_one(chars: &Vec<char>, sw: &Vec<usize>) -> (r: Vec<char>)
    requires
        sw.len() >= 2,
        sw@[0] < chars.len(),
        sw@[1] < chars.len(),
    ensures
        r@ == neighbor(chars@, sw@),
{
    let mut r = chars.clone();
    let i = sw[0];
    let j = sw[1];
    let ci = r[i];
    let cj = r[j];
    r.set(i, cj);
    r.set(j, ci);
    r
}

/// The best-scoring of the neighbors of `s` by the first `n` swaps; the earliest wins a tie.
pub open spec fn best_neighbor(
    pts: Seq<ColorPoint>,
    s: Seq<char>,
    swaps: Seq<Seq<usize>>,
    n: int,
) -> Option<Seq<char>>
    decreases n,
{
    if n <= 0 {
        None
    } else {
        let prev = best_neighbor(pts, s, swaps, n - 1);
        let t = neighbor(s, swaps[n - 1]);
        match prev {
            Some(b) => if score(pts, t) < score(pts, b) {
                Some(t)
            } else {
                prev
            },
            None => Some(t),
        }
    }
}

/// Hill climbing over single swaps: while the best neighbor of the current labelling scores
/// strictly lower than it, move there.
pub open spec fn local_search(pts: Seq<ColorPoint>, s: Seq<char>, swaps: Seq<Seq<usize>>) -> Seq<
    char,
>
    decreases score(pts, s),
{
    match best_neighbor(pts, s, swaps, swaps.len() as int) {
        Some(t) => if score(pts, t) < score(pts, s) {
            local_search(pts, t, swaps)
        } else {
            s
        },
        None => s,
    }
}

/// The labelling that hill climbing over single swaps reaches from `chars`.
pub fn local_optimum(rgb_values: &Vec<ColorPoint>, chars: Vec<char>, swaps: &Vec<Vec<usize>>) -> (r: Vec<
    char,
>)
    requires
        rgb_values.len() == NUM_FACELETS,
        chars.len() == NUM_FACELETS,
        swaps_within(views_of(swaps@), NUM_FACELETS as int),
    ensures
        r@ == local_search(rgb_values@, chars@, views_of(swaps@)),
        r.len() == NUM_FACELETS,
{
    let ghost sw = views_of(swaps@);
    let ghost target = local_search(rgb_values@, chars@, sw);
    let mut cur = chars;
    let mut cur_score = calculate_score(rgb_values, &cur);
    let mut done = false;
    while !done
        invariant
            rgb_values.len() == NUM_FACELETS,
            cur.len() == NUM_FACELETS,
            sw == views_of(swaps@),
            swaps_within(sw, NUM_FACELETS as int),
            cur_score == score(rgb_values@, cur@),
            local_search(rgb_values@, cur@, sw) == target,
            done ==> cur@ == target,
        decreases cur_score + if done {
            0int
        } else {
            1int
        },
    {
        let mut best: Option<(u64, Vec<char>)> = None;
        let mut t: usize = 0;
        while t < swaps.len()
            invariant
                rgb_values.len() == NUM_FACELETS,
                cur.len() == NUM_FACELETS,
                sw == views_of(swaps@),
                swaps_within(sw, NUM_FACELETS as int),
                t <= swaps.len(),
                match (best, best_neighbor(rgb_values@, cur@, sw, t as int)) {
                    (Some(b), Some(spec_b)) => b.0 == score(rgb_values@, spec_b) && b.1@ == spec_b
                        && b.1.len() == NUM_FACELETS,
                    (None, None) => true,
                    _ => false,
                },
            decreases swaps.len() - t,
        {
            assert(sw[t as int] == swaps@[t as int]@);
            let nb = swap_one(&cur, &swaps[t]);
            let sc = calculate_score(rgb_values, &nb);
            let better = match &best {
                Some(b) => sc < b.0,
                None => true,
            };
            if better {
                best = Some((sc, nb));
            }
            t = t + 1;
        }
        assert(sw.len() == swaps@.len());
        match best {
            Some(b) => {
                if b.0 < cur_score {
                    cur = b.1;
                    cur_score = b.0;
                } else {
                    done = true;
                }
            },
            None => {
                done = true;
            },
        }
    }
    cur
}

/// The distance between the samples of the two facelets a swap exchanges.
pub open spec fn swap_distance(pts: Seq<ColorPoint>, sw: Seq<usize>) -> nat {
    distance(pts[sw[0] as int], pts[sw[1] as int])
}

pub open spec fn swap_distances(pts: Seq<ColorPoint>, swaps: Seq<Seq<usize>>) -> Seq<u64> {
    swaps.map_values(|sw: Seq<usize>| swap_distance(pts, sw) as u64)
}

/// The `swaps.len() / divisor`-th smallest swap distance (counting from zero).
pub open spec fn prune_threshold(pts: Seq<ColorPoint>, swaps: Seq<Seq<usize>>, divisor: int) -> u64 {
    swap_distances(pts, swaps).sort_by(ascending())[(swaps.len() as int) / divisor]
}

/// Those of the first `n` swaps whose distance is below `eps`, in order.
pub open spec fn closer_than(pts: Seq<ColorPoint>, swaps: Seq<Seq<usize>>, eps: u64, n: int) -> Seq<
    Seq<usize>,
>
    decreases n,
{
    if n <= 0 {
        seq![]
    } else {
        let prev = closer_than(pts, swaps, eps, n - 1);
        if swap_distance(pts, swaps[n - 1]) < eps {
            prev.push(swaps[n - 1])
        } else {
            prev
        }
    }
}

/// The ambiguous swaps: those whose distance is strictly below the `1 / divisor` quantile
/// of all swap distances (none when there is no swap).
pub open spec fn prune(pts: Seq<ColorPoint>, swaps: Seq<Seq<usize>>, divisor: int) -> Seq<Seq<usize>> {
    if swaps.len() == 0 {
        seq![]
    } else {
        closer_than(pts, swaps, prune_threshold(pts, swaps, divisor), swaps.len() as int)
    }
}

proof fn lemma_closer_than_within(pts: Seq<ColorPoint>, swaps: Seq<Seq<usize>>, eps: u64, n: int, m: int)
    requires
        0 <= n <= swaps.len(),
        swaps_within(swaps, m),
    ensures
        swaps_within(closer_than(pts, swaps, eps, n), m),
    decreases n,
{
    if n > 0 {
        lemma_closer_than_within(pts, swaps, eps, n - 1, m);
    }
}

fn swap_distance_exec(rgb_values: &Vec<ColorPoint>, sw: &Vec<usize>) -> (d: u64)
    requires
        sw.len() >= 2,
        sw@[0] < rgb_values.len(),
        sw@[1] < rgb_values.len(),
    ensures
        d == swap_distance(rgb_values@, sw@),
{
    rgb_values[sw[0]].distance_to(&rgb_values[sw[1]])
}

/// Keeps the swaps whose distance lies strictly below the `1 / divisor` quantile (see
/// `prune`).
pub fn prune_swaps(rgb_values: &Vec<ColorPoint>, swaps: &Vec<Vec<usize>>, divisor: usize) -> (r: Vec<
    Vec<usize>,
>)
    requires
        divisor >= 2,
        swaps_within(views_of(swaps@), rgb_values.len() as int),
    ensures
        views_of(r@) == prune(rgb_values@, views_of(swaps@), divisor as int),
        swaps_within(views_of(r@), rgb_values.len() as int),
{
    let ghost sw = views_of(swaps@);
    let mut r: Vec<Vec<usize>> = Vec::new();
    if swaps.len() == 0 {
        assert(views_of(r@) =~= seq![]);
        return r;
    }
    let mut ds: Vec<u64> = Vec::new();
    let mut t: usize = 0;
    while t < swaps.len()
        invariant
            sw == views_of(swaps@),
            swaps_within(sw, rgb_values.len() as int),
            t <= swaps.len(),
            ds@ == swap_distances(rgb_values@, sw).take(t as int),
        decreases swaps.len() - t,
    {
        assert(sw[t as int] == swaps@[t as int]@);
        let d = swap_distance_exec(rgb_values, &swaps[t]);
        ds.push(d);
        assert(swap_distances(rgb_values@, sw).take(t + 1) =~= swap_distances(rgb_values@, sw).take(
            t as int,
        ).push(d));
        t = t + 1;
    }
    assert(swap_distances(rgb_values@, sw).take(swaps.len() as int) =~= swap_distances(
        rgb_values@,
        sw,
    ));
    let ghost all_ds = ds@;
    let sorted = sorted_ascending(ds);
    proof {
        let asc = ascending();
        assert(total_ordering(asc));
        all_ds.lemma_sort_by_ensures(asc);
        lemma_sorted_unique(sorted@, all_ds.sort_by(asc), asc);
        vstd::seq_lib::to_multiset_len(sorted@);
        vstd::seq_lib::to_multiset_len(all_ds);
        assert(swaps.len() / divisor < swaps.len()) by (nonlinear_arith)
            requires
                divisor >= 2,
                swaps.len() > 0,
        ;
    }
    let eps = sorted[swaps.len() / divisor];
    let mut t: usize = 0;
    while t < swaps.len()
        invariant
            sw == views_of(swaps@),
            swaps_within(sw, rgb_values.len() as int),
            t <= swaps.len(),
            eps == prune_threshold(rgb_values@, sw, divisor as int),
            views_of(r@) == closer_than(rgb_values@, sw, eps, t as int),
        decreases swaps.len() - t,
    {
        assert(sw[t as int] == swaps@[t as int]@);
        if swap_distance_exec(rgb_values, &swaps[t]) < eps {
            let ghost before = r@;
            r.push(swaps[t].clone());
            assert(views_of(r@) =~= views_of(before).push(swaps@[t as int]@));
        }
        t = t + 1;
    }
    proof {
        lemma_closer_than_within(rgb_values@, sw, eps, swaps.len() as int, rgb_values.len() as int);
    }
    r
}

/// Default depth ceiling of the combinatorial search.
pub const MAX_DEPTH: usize = 5;

/// Default pruning divisor: the search keeps the swaps below the `1 / 32` distance quantile.
pub const PRUNE_DIVISOR: usize = 32;

/// The labellings obtained from `s` by applying each `k`-element combination of `pruned`,
/// in lexicographic order of the combinations.
pub open spec fn candidates_at(s: Seq<char>, pruned: Seq<Seq<usize>>, k: int) -> Seq<Seq<char>> {
    combinations(0, pruned.len() as int, k).map_values(
        |c: Seq<usize>| apply_swap_seq(s, picked(pruned, c)),
    )
}

/// The candidates of every depth below `d`, shallowest first.
pub open spec fn candidates_upto(s: Seq<char>, pruned: Seq<Seq<usize>>, d: int) -> Seq<Seq<char>>
    decreases d,
{
    if d <= 0 {
        seq![]
    } else {
        candidates_upto(s, pruned, d - 1) + candidates_at(s, pruned, d - 1)
    }
}

/// Among the first `n` candidates that `ok` marks, the one with the lowest score together
/// with that score; the earliest wins a tie.
pub open spec fn best_of(pts: Seq<ColorPoint>, cands: Seq<Seq<char>>, ok: Seq<bool>, n: int) -> Option<
    (nat, Seq<char>),
>
    decreases n,
{
    if n <= 0 {
        None
    } else {
        let prev = best_of(pts, cands, ok, n - 1);
        let c = cands[n - 1];
        let sc = score(pts, c);
        if !ok[n - 1] {
            prev
        } else {
            match prev {
                Some(b) => if sc < b.0 {
                    Some((sc, c))
                } else {
                    prev
                },
                None => Some((sc, c)),
            }
        }
    }
}

pub open spec fn best_view(r: Option<(u64, Vec<char>)>) -> Option<(nat, Seq<char>)> {
    match r {
        Some(b) => Some((b.0 as nat, b.1@)),
        None => None,
    }
}

pub open spec fn score_view(r: Option<u64>) -> Option<nat> {
    match r {
        Some(x) => Some(x as nat),
        None => None,
    }
}

/// What the repairer returns for `s` (see `find_fix_with`): among `s` itself and the
/// candidates of the bounded search, the best-scoring one that kewb accepts, with its
/// score; or no score and `s` itself when kewb accepts none.
pub open spec fn repair(pts: Seq<ColorPoint>, s: Seq<char>, max_depth: int, divisor: int) -> (
    Option<nat>,
    Seq<char>,
) {
    let options = swap_options(s);
    let local = local_search(pts, s, options);
    let cands = seq![s] + candidates_upto(local, prune(pts, options, divisor), max_depth + 1);
    let ok = cands.map_values(|c: Seq<char>| kewb_solvable(c));
    match best_of(pts, cands, ok, cands.len() as int) {
        Some(b) => (Some(b.0), b.1),
        None => (None, s),
    }
}

/// Picks, among the candidates whose verdict is true, the one with the lowest score (the
/// earliest on a tie), with that score; `None` when no verdict is true.
pub fn best_solvable(
    rgb_values: &Vec<ColorPoint>,
    candidates: &Vec<Vec<char>>,
    verdicts: &Vec<bool>,
) -> (r: Option<(u64, Vec<char>)>)
    requires
        rgb_values.len() <= NUM_FACELETS,
        candidates.len() == verdicts.len(),
        forall|t: int| 0 <= t < candidates.len() ==> (#[trigger] candidates@[t]).len() == rgb_values.len(),
    ensures
        best_view(r) == best_of(
            rgb_values@,
            candidates@.map_values(|c: Vec<char>| c@),
            verdicts@,
            candidates.len() as int,
        ),
{
    let ghost cands = candidates@.map_values(|c: Vec<char>| c@);
    let mut best: Option<(u64, Vec<char>)> = None;
    let mut t: usize = 0;
    while t < candidates.len()
        invariant
            rgb_values.len() <= NUM_FACELETS,
            candidates.len() == verdicts.len(),
            forall|u: int| 0 <= u < candidates.len() ==> (#[trigger] candidates@[u]).len() == rgb_values.len(),
            cands == candidates@.map_values(|c: Vec<char>| c@),
            t <= candidates.len(),
            best_view(best) == best_of(rgb_values@, cands, verdicts@, t as int),
        decreases candidates.len() - t,
    {
        assert(cands[t as int] == candidates@[t as int]@);
        if verdicts[t] {
            let sc = calculate_score(rgb_values, &candidates[t]);
            let better = match &best {
                Some(b) => sc < b.0,
                None => true,
            };
            if better {
                best = Some((sc, candidates[t].clone()));
            }
        }
        t = t + 1;
    }
    best
}

/// The candidates of depth `k` (see `candidates_at`).
pub(crate) fn depth_candidates(chars: &Vec<char>, pruned: &Vec<Vec<usize>>, k: usize) -> (r: Vec<
    Vec<char>,
>)
    requires
        swaps_within(views_of(pruned@), chars.len() as int),
    ensures
        r@.map_values(|c: Vec<char>| c@) == candidates_at(chars@, views_of(pruned@), k as int),
        forall|t: int| 0 <= t < r@.len() ==> (#[trigger] r@[t]).len() == chars.len(),
{
    let ghost pr = views_of(pruned@);
    let combos = index_combinations(pruned.len(), k);
    let ghost cs = combinations(0, pruned.len() as int, k as int);
    proof {
        lemma_combinations_shape(0, pruned.len() as int, k as int);
    }
    let mut r: Vec<Vec<char>> = Vec::new();
    let mut u: usize = 0;
    while u < combos.len()
        invariant
            pr == views_of(pruned@),
            swaps_within(pr, chars.len() as int),
            cs == combinations(0, pruned.len() as int, k as int),
            combos@.len() == cs.len(),
            forall|i: int| 0 <= i < combos@.len() ==> (#[trigger] combos@[i])@ == cs[i],
            forall|x: int|
                0 <= x < cs.len() ==> combination_shape(
                    #[trigger] cs[x],
                    0,
                    pruned.len() as int,
                    k as int,
                ),
            u <= combos.len(),
            r@.map_values(|c: Vec<char>| c@) == candidates_at(chars@, pr, k as int).take(u as int),
            forall|t: int| 0 <= t < r@.len() ==> (#[trigger] r@[t]).len() == chars.len(),
        decreases combos.len() - u,
    {
        let pick = &combos[u];
        assert(pick@ == cs[u as int]);
        assert(combination_shape(cs[u as int], 0, pruned.len() as int, k as int));
        let c = apply_picked(chars, pruned, pick);
        let ghost before = r@;
        r.push(c);
        proof {
            let all = candidates_at(chars@, pr, k as int);
            assert(all.take(u + 1) =~= all.take(u as int).push(all[u as int]));
            assert(r@.map_values(|c: Vec<char>| c@) =~= before.map_values(|c: Vec<char>| c@).push(
                c@,
            ));
            assert forall|t: int| 0 <= t < r@.len() implies (#[trigger] r@[t]).len()
                == chars.len() by {
                if t < before.len() {
                    assert(r@[t] == before[t]);
                }
            }
        }
        u = u + 1;
    }
    proof {
        let all = candidates_at(chars@, pr, k as int);
        assert(all.take(combos.len() as int) =~= all);
    }
    r
}

/// Every candidate up to depth `max_depth`, shallowest first (see `candidates_upto`).
fn candidate_notations(chars: &Vec<char>, pruned: &Vec<Vec<usize>>, max_depth: usize) -> (r: Vec<
    Vec<char>,
>)
    requires
        max_depth < usize::MAX,
        swaps_within(views_of(pruned@), chars.len() as int),
    ensures
        r@.map_values(|c: Vec<char>| c@) == candidates_upto(
            chars@,
            views_of(pruned@),
            max_depth + 1,
        ),
        forall|t: int| 0 <= t < r@.len() ==> (#[trigger] r@[t]).len() == chars.len(),
{
    let ghost pr = views_of(pruned@);
    let mut r: Vec<Vec<char>> = Vec::new();
    let mut k: usize = 0;
    while k <= max_depth
        invariant
            max_depth < usize::MAX,
            pr == views_of(pruned@),
            swaps_within(pr, chars.len() as int),
            k <= max_depth + 1,
            r@.map_values(|c: Vec<char>| c@) == candidates_upto(chars@, pr, k as int),
            forall|t: int| 0 <= t < r@.len() ==> (#[trigger] r@[t]).len() == chars.len(),
        decreases max_depth + 1 - k,
    {
        let mut more = depth_candidates(chars, pruned, k);
        let ghost before = r@;
        let ghost added = more@;
        r.append(&mut more);
        proof {
            assert(r@ == before + added);
            assert(r@.map_values(|c: Vec<char>| c@) =~= before.map_values(|c: Vec<char>| c@)
                + added.map_values(|c: Vec<char>| c@));
            assert forall|t: int| 0 <= t < r@.len() implies (#[trigger] r@[t]).len()
                == chars.len() by {
                if t < before.len() {
                    assert(r@[t] == before[t]);
                } else {
                    assert(r@[t] == added[t - before.len()]);
                }
            }
        }
        k = k + 1;
    }
    r
}

/// Kewb's verdict on each candidate, in order.
pub(crate) fn kewb_verdicts(candidates: &Vec<Vec<char>>) -> (verdicts: Vec<bool>)
    ensures
        verdicts@ == candidates@.map_values(|c: Vec<char>| c@).map_values(
            |c: Seq<char>| kewb_solvable(c),
        ),
{
    let ghost cands = candidates@.map_values(|c: Vec<char>| c@);
    let mut verdicts: Vec<bool> = Vec::new();
    let mut t: usize = 0;
    while t < candidates.len()
        invariant
            t <= candidates.len(),
            cands == candidates@.map_values(|c: Vec<char>| c@),
            verdicts@ == cands.map_values(|c: Seq<char>| kewb_solvable(c)).take(t as int),
        decreases candidates.len() - t,
    {
        let text = string_from_chars(&candidates[t]);
        let ok = kewb_accepts(text.as_str());
        verdicts.push(ok);
        proof {
            let all = cands.map_values(|c: Seq<char>| kewb_solvable(c));
            assert(all.take(t + 1) =~= all.take(t as int).push(all[t as int]));
        }
        t = t + 1;
    }
    proof {
        let all = cands.map_values(|c: Seq<char>| kewb_solvable(c));
        assert(all.take(candidates.len() as int) =~= all);
    }
    verdicts
}

/// Repairs a labelling (see `repair`) with a configurable depth ceiling and pruning divisor.
///
/// The input itself is the first candidate. Then hill-climbs over single swaps
/// (`local_search`), tries every combination of at most `max_depth` of the ambiguous swaps
/// (`prune`) on the result, asks kewb whether each candidate is a solvable cube, and keeps
/// the lowest-scoring accepted one. When kewb accepts none, the score is `None` and the input notation comes back unchanged.
pub fn find_fix_with(
    rgb_values: &Vec<ColorPoint>,
    nota: String,
    max_depth: usize,
    divisor: usize,
) -> (r: (Option<u64>, String))
    requires
        rgb_values.len() == NUM_FACELETS,
        nota@.len() == NUM_FACELETS,
        max_depth < usize::MAX,
        divisor >= 2,
    ensures
        score_view(r.0) == repair(rgb_values@, nota@, max_depth as int, divisor as int).0,
        r.1@ == repair(rgb_values@, nota@, max_depth as int, divisor as int).1,
{
    let chars = chars_of(nota.as_str());
    let input = chars.clone();
    assert(input@ =~= chars@);
    let swap_options = generate_swap_options(&chars);
    let local = local_optimum(rgb_values, chars, &swap_options);
    let pruned = prune_swaps(rgb_values, &swap_options, divisor);
    let mut deeper = candidate_notations(&local, &pruned, max_depth);
    let ghost deeper_v = deeper@;
    let mut candidates: Vec<Vec<char>> = Vec::new();
    candidates.push(input);
    candidates.append(&mut deeper);
    proof {
        assert(candidates@ == seq![input] + deeper_v);
        assert(candidates@.map_values(|c: Vec<char>| c@) =~= seq![nota@] + deeper_v.map_values(
            |c: Vec<char>| c@,
        ));
        assert forall|t: int| 0 <= t < candidates@.len() implies (#[trigger] candidates@[t]).len()
            == rgb_values.len() by {
            if t > 0 {
                assert(candidates@[t] == deeper_v[t - 1]);
            }
        }
    }
    let verdicts = kewb_verdicts(&candidates);
    match best_solvable(rgb_values, &candidates, &verdicts) {
        Some(b) => (Some(b.0), string_from_chars(&b.1)),
        None => (None, nota),
    }
}

/// Finds the best valid notation near the given (possibly invalid) one, with the default
/// depth ceiling and pruning divisor. Returns the score of the repaired notation (lower is
/// better) and the notation, or no score and the input when the search found nothing.
pub fn find_optimal_fix(rgb_values: &Vec<ColorPoint>, nota: String) -> (r: (Option<u64>, String))
    requires
        rgb_values.len() == NUM_FACELETS,
        nota@.len() == NUM_FACELETS,
    ensures
        score_view(r.0) == repair(rgb_values@, nota@, MAX_DEPTH as int, PRUNE_DIVISOR as int).0,
        r.1@ == repair(rgb_values@, nota@, MAX_DEPTH as int, PRUNE_DIVISOR as int).1,
{
    find_fix_with(rgb_values, nota, MAX_DEPTH, PRUNE_DIVISOR)
}

proof fn lemma_best_of_scores(pts: Seq<ColorPoint>, cands: Seq<Seq<char>>, ok: Seq<bool>, n: int)
    requires
        n <= cands.len(),
    ensures
        best_of(pts, cands, ok, n) matches Some(b) ==> b.0 == score(pts, b.1),
    decreases n,
{
    if n > 0 {
        lemma_best_of_scores(pts, cands, ok, n - 1);
    }
}

proof fn lemma_best_of_bound(pts: Seq<ColorPoint>, cands: Seq<Seq<char>>, ok: Seq<bool>, n: int, i: int)
    requires
        0 <= i < n <= cands.len(),
        n <= ok.len(),
        ok[i],
    ensures
        best_of(pts, cands, ok, n) is Some,
        best_of(pts, cands, ok, n).unwrap().0 <= score(pts, cands[i]),
    decreases n,
{
    if i < n - 1 {
        lemma_best_of_bound(pts, cands, ok, n - 1, i);
    }
}

/// Repair never makes a sound labelling worse: when kewb accepts `s`, the repairer reports
/// a score, that score is at most the score of `s`, and the notation it returns has that
/// score.
pub proof fn lemma_repair_no_worse(pts: Seq<ColorPoint>, s: Seq<char>, max_depth: int, divisor: int)
    requires
        kewb_solvable(s),
    ensures
        repair(pts, s, max_depth, divisor).0 is Some,
        repair(pts, s, max_depth, divisor).0.unwrap() <= score(pts, s),
        repair(pts, s, max_depth, divisor).0.unwrap() == score(
            pts,
            repair(pts, s, max_depth, divisor).1,
        ),
{
    let options = swap_options(s);
    let local = local_search(pts, s, options);
    let cands = seq![s] + candidates_upto(local, prune(pts, options, divisor), max_depth + 1);
    let ok = cands.map_values(|c: Seq<char>| kewb_solvable(c));
    assert(cands[0] == s);
    assert(ok[0]);
    lemma_best_of_bound(pts, cands, ok, cands.len() as int, 0);
    lemma_best_of_scores(pts, cands, ok, cands.len() as int);
}

} // verus!
