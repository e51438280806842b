use vstd::prelude::*;

use crate::bindings::{chars_of, combinations, index_combinations, kewb_solvable, string_from_chars};
use crate::classification::{distance, ColorPoint};
use crate::constants::{centre_facelet, centre_positions, centre_table, is_centre, NUM_FACELETS};
use crate::cube::Cube;
use crate::fixer::{
    best_view, candidates_at, combination_shape, depth_candidates, kewb_verdicts, lemma_combinations_shape,
    score_view, swaps_within, views_of,
};

verus! {

/// The distances from the sample of centre `c` to the samples of the other facelets, among
/// the first `n`, that carry the centre's symbol.
pub open spec fn centre_group_score(vals: Seq<ColorPoint>, chars: Seq<char>, c: int, n: int) -> nat
    decreases n,
{
    if n <= 0 {
        0
    } else {
        centre_group_score(vals, chars, c, n - 1) + if n - 1 != c && chars[n - 1] == chars[c] {
            distance(vals[c], vals[n - 1])
        } else {
            0nat
        }
    }
}

pub open spec fn objective_upto(vals: Seq<ColorPoint>, chars: Seq<char>, m: int) -> nat
    decreases m,
{
    if m <= 0 {
        0
    } else {
        objective_upto(vals, chars, m - 1) + centre_group_score(
            vals,
            chars,
            centre_positions()[m - 1] as int,
            vals.len() as int,
        )
    }
}

/// Sum over the six centres of the distances from the centre's sample to the samples of
/// the facelets labelled like the centre. Lower is better.
pub open spec fn objective(vals: Seq<ColorPoint>, chars: Seq<char>) -> nat {
    objective_upto(vals, chars, 6)
}

fn objective_of(vals: &Vec<ColorPoint>, chars: &Vec<char>) -> (s: u64)
    requires
        vals.len() == NUM_FACELETS,
        chars.len() == NUM_FACELETS,
    ensures
        s == objective(vals@, chars@),
{
    let (positions, _faces) = centre_table();
    let mut score: u64 = 0;
    let mut m: usize = 0;
    while m < 6
        invariant
            vals.len() == NUM_FACELETS,
            chars.len() == NUM_FACELETS,
            positions@ == centre_positions(),
            m <= 6,
            score == objective_upto(vals@, chars@, m as int),
            score <= m * 54 * 0x4_0000_0000,
        decreases 6 - m,
    {
        let c = positions[m];
        let mut group: u64 = 0;
        let mut i: usize = 0;
        while i < NUM_FACELETS
            invariant
                vals.len() == NUM_FACELETS,
                chars.len() == NUM_FACELETS,
                c < NUM_FACELETS,
                i <= NUM_FACELETS,
                group == centre_group_score(vals@, chars@, c as int, i as int),
                group <= i * 0x4_0000_0000,
            decreases NUM_FACELETS - i,
        {
            if i != c && chars[i] == chars[c] {
                group = group + vals[c].distance_to(&vals[i]);
            }
            i = i + 1;
        }
        score = score + group;
        m = m + 1;
    }
    score
}

/// Swaps of the earlier repair: every pair `[i, j]`, `i < j`, of non-centre positions whose
/// symbols differ.
pub open spec fn plain_swappable(chars: Seq<char>, i: int, j: int) -> bool {
    chars[i] != chars[j] && !is_centre(i) && !is_centre(j)
}

pub open spec fn plain_options_upto(chars: Seq<char>, cands: Seq<Seq<usize>>, n: int) -> Seq<
    Seq<usize>,
>
    decreases n,
{
    if n <= 0 {
        seq![]
    } else {
        let prev = plain_options_upto(chars, cands, n - 1);
        let c = cands[n - 1];
        if plain_swappable(chars, c[0] as int, c[1] as int) {
            prev.push(c)
        } else {
            prev
        }
    }
}

pub open spec fn plain_options(chars: Seq<char>) -> Seq<Seq<usize>> {
    let all = combinations(0, NUM_FACELETS as int, 2);
    plain_options_upto(chars, all, all.len() as int)
}

proof fn lemma_plain_options_within(chars: Seq<char>, cands: Seq<Seq<usize>>, n: int)
    requires
        0 <= n <= cands.len(),
        forall|x: int|
            0 <= x < cands.len() ==> combination_shape(
                #[trigger] cands[x],
                0,
                NUM_FACELETS as int,
                2,
            ),
    ensures
        swaps_within(plain_options_upto(chars, cands, n), NUM_FACELETS as int),
    decreases n,
{
    if n > 0 {
        lemma_plain_options_within(chars, cands, n - 1);
        assert(combination_shape(cands[n - 1], 0, NUM_FACELETS as int, 2));
    }
}

fn plain_swap_options(chars: &Vec<char>) -> (r: Vec<Vec<usize>>)
    requires
        chars.len() == NUM_FACELETS,
    ensures
        views_of(r@) == plain_options(chars@),
        swaps_within(views_of(r@), NUM_FACELETS as int),
{
    let all = index_combinations(NUM_FACELETS, 2);
    let ghost all_v = combinations(0, NUM_FACELETS as int, 2);
    proof {
        lemma_combinations_shape(0, NUM_FACELETS as int, 2);
    }
    let mut r: Vec<Vec<usize>> = Vec::new();
    let mut t: usize = 0;
    while t < all.len()
        invariant
            chars.len() == NUM_FACELETS,
            all@.len() == all_v.len(),
            all_v == combinations(0, NUM_FACELETS as int, 2),
            forall|i: int| 0 <= i < all@.len() ==> (#[trigger] all@[i])@ == all_v[i],
            forall|x: int|
                0 <= x < all_v.len() ==> combination_shape(
                    #[trigger] all_v[x],
                    0,
                    NUM_FACELETS as int,
                    2,
                ),
            t <= all.len(),
            views_of(r@) == plain_options_upto(chars@, all_v, t as int),
        decreases all.len() - t,
    {
        let c = &all[t];
        assert(c@ == all_v[t as int]);
        assert(combination_shape(all_v[t as int], 0, NUM_FACELETS as int, 2));
        let i = c[0];
        let j = c[1];
        if chars[i] != chars[j] && !centre_facelet(i) && !centre_facelet(j) {
            let ghost before = r@;
            r.push(c.clone());
            assert(views_of(r@) =~= views_of(before).push(c@));
        }
        t = t + 1;
    }
    proof {
        lemma_plain_options_within(chars@, all_v, all_v.len() as int);
    }
    r
}

/// Among the first `n` candidates that `ok` marks, the one with the lowest objective and
/// that objective; the earliest wins a tie.
pub open spec fn best_by_objective(
    vals: Seq<ColorPoint>,
    cands: Seq<Seq<char>>,
    ok: Seq<bool>,
    n: int,
) -> Option<(nat, Seq<char>)>
    decreases n,
{
    if n <= 0 {
        None
    } else {
        let prev = best_by_objective(vals, cands, ok, n - 1);
        let c = cands[n - 1];
        let sc = objective(vals, c);
        if !ok[n - 1] {
            prev
        } else {
            match prev {
                Some(b) => if sc < b.0 {
                    Some((sc, c))
                } else {
                    prev
                },
                None => Some((sc, c)),
            }
        }
    }
}

/// The shallowest depth from `d` on, below four, at which kewb accepts a candidate: its
/// best candidate by objective.
pub open spec fn first_fix_from(vals: Seq<ColorPoint>, s: Seq<char>, options: Seq<Seq<usize>>, d: int) -> Option<
    (nat, Seq<char>),
>
    decreases 4 - d,
{
    if d < 0 || d >= 4 {
        None
    } else {
        let cands = candidates_at(s, options, d);
        let ok = cands.map_values(|c: Seq<char>| kewb_solvable(c));
        match best_by_objective(vals, cands, ok, cands.len() as int) {
            Some(b) => Some(b),
            None => first_fix_from(vals, s, options, d + 1),
        }
    }
}

/// What `Cube::fixer` returns for `s`.
pub open spec fn centre_fix(vals: Seq<ColorPoint>, s: Seq<char>) -> (Option<nat>, Seq<char>) {
    match first_fix_from(vals, s, plain_options(s), 0) {
        Some(b) => (Some(b.0), b.1),
        None => (None, s),
    }
}

/// Picks, among the candidates whose verdict is true, the one with the lowest objective
/// (the earliest on a tie), with that objective; `None` when no verdict is true.
pub fn best_by_objective_of(
    vals: &Vec<ColorPoint>,
    candidates: &Vec<Vec<char>>,
    verdicts: &Vec<bool>,
) -> (r: Option<(u64, Vec<char>)>)
    requires
        vals.len() == NUM_FACELETS,
        candidates.len() == verdicts.len(),
        forall|t: int| 0 <= t < candidates.len() ==> (#[trigger] candidates@[t]).len() == NUM_FACELETS,
    ensures
        best_view(r) == best_by_objective(
            vals@,
            candidates@.map_values(|c: Vec<char>| c@),
            verdicts@,
            candidates.len() as int,
        ),
{
    let ghost cands = candidates@.map_values(|c: Vec<char>| c@);
    let mut best: Option<(u64, Vec<char>)> = None;
    let mut t: usize = 0;
    while t < candidates.len()
        invariant
            vals.len() == NUM_FACELETS,
            candidates.len() == verdicts.len(),
            forall|u: int| 0 <= u < candidates.len() ==> (#[trigger] candidates@[u]).len() == NUM_FACELETS,
            cands == candidates@.map_values(|c: Vec<char>| c@),
            t <= candidates.len(),
            best_view(best) == best_by_objective(vals@, cands, verdicts@, t as int),
        decreases candidates.len() - t,
    {
        assert(cands[t as int] == candidates@[t as int]@);
        if verdicts[t] {
            let sc = objective_of(vals, &candidates[t]);
            let better = match &best {
                Some(b) => sc < b.0,
                None => true,
            };
            if better {
                best = Some((sc, candidates[t].clone()));
            }
        }
        t = t + 1;
    }
    best
}

impl Cube {
    /// The objective of a notation (see `objective`): how far the facelets lie from the
    /// centre that carries their symbol.
    pub fn objective(&self, notation: String) -> (s: u64)
        requires
            self.facelet_rgb_values.len() == NUM_FACELETS,
            notation@.len() == NUM_FACELETS,
        ensures
            s == objective(self.facelet_rgb_values@, notation@),
    {
        let chars = chars_of(notation.as_str());
        objective_of(&self.facelet_rgb_values, &chars)
    }

    /// The earlier repairer (see `centre_fix`): tries every combination of up to three swaps
    /// of differing non-centre facelets, depth by depth, and stops at the first depth where
    /// kewb accepts a candidate, returning the accepted candidate with the lowest objective
    /// and that objective. When none is accepted, returns no score and the input.
    pub fn fixer(&self, nota: String) -> (r: (Option<u64>, String))
        requires
            self.facelet_rgb_values.len() == NUM_FACELETS,
            nota@.len() == NUM_FACELETS,
        ensures
            score_view(r.0) == centre_fix(self.facelet_rgb_values@, nota@).0,
            r.1@ == centre_fix(self.facelet_rgb_values@, nota@).1,
    {
        let vals = &self.facelet_rgb_values;
        let chars = chars_of(nota.as_str());
        let options = plain_swap_options(&chars);
        let ghost s = chars@;
        let ghost opts = views_of(options@);
        let mut found: Option<(u64, Vec<char>)> = None;
        let mut k: usize = 0;
        while k < 4 && found.is_none()
            invariant
                vals.len() == NUM_FACELETS,
                chars.len() == NUM_FACELETS,
                s == chars@,
                opts == views_of(options@),
                swaps_within(opts, NUM_FACELETS as int),
                k <= 4,
                found is None ==> first_fix_from(vals@, s, opts, 0) == first_fix_from(
                    vals@,
                    s,
                    opts,
                    k as int,
                ),
                found is Some ==> first_fix_from(vals@, s, opts, 0) == best_view(found),
            decreases 4 - k + if found is None {
                1int
            } else {
                0int
            },
        {
            let candidates = depth_candidates(&chars, &options, k);
            let verdicts = kewb_verdicts(&candidates);
            found = best_by_objective_of(vals, &candidates, &verdicts);
            k = k + 1;
        }
        match found {
            Some(b) => (Some(b.0), string_from_chars(&b.1)),
            None => (None, nota),
        }
    }
}

} // verus!
