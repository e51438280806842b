use vstd::prelude::*;

use crate::constants::{
    corner_color_sets, corner_facelets, corner_groups, edge_color_sets, edge_facelets,
    edge_groups, get_corner_colors, get_edge_colors, NUM_FACELETS,
};

verus! {

/// Why a corner or edge group is rejected.
#[derive(Clone, Copy, Debug, PartialEq, Eq, Structural)]
pub enum ViolationKind {
    /// Its symbol set is not one of the legal sets.
    Illegal,
    /// Its symbol set is legal but an earlier group already produced it.
    Duplicate,
}

/// A rejected corner or edge group.
pub struct GroupViolation {
    /// Position of the group in the corner (or edge) table.
    pub group: usize,
    /// The facelets of the group.
    pub facelets: Vec<usize>,
    /// The symbols the notation holds at those facelets.
    pub symbols: Vec<char>,
    pub kind: ViolationKind,
}

/// What the validator finds in a notation.
pub struct ValidationReport {
    pub corner_violations: Vec<GroupViolation>,
    pub edge_violations: Vec<GroupViolation>,
    /// Positions in the legal corner table of the sets no corner produces.
    pub missing_corner_sets: Vec<usize>,
    /// Positions in the legal edge table of the sets no edge produces.
    pub missing_edge_sets: Vec<usize>,
}

pub type ViolationView = (usize, Seq<usize>, Seq<char>, ViolationKind);

impl GroupViolation {
    pub open spec fn view(&self) -> ViolationView {
        (self.group, self.facelets@, self.symbols@, self.kind)
    }
}

pub open spec fn views_of_violations(v: Seq<GroupViolation>) -> Seq<ViolationView> {
    v.map_values(|x: GroupViolation| x.view())
}

/// `a` and `b` hold the same symbols, as sets.
pub open spec fn same_set(a: Seq<char>, b: Seq<char>) -> bool {
    &&& forall|i: int| 0 <= i < a.len() ==> b.contains(#[trigger] a[i])
    &&& forall|j: int| 0 <= j < b.len() ==> a.contains(#[trigger] b[j])
}

/// One of the first `n` of `sets` holds the same symbols as `x`.
pub open spec fn any_same(x: Seq<char>, sets: Seq<Seq<char>>, n: int) -> bool
    decreases n,
{
    if n <= 0 {
        false
    } else {
        any_same(x, sets, n - 1) || same_set(sets[n - 1], x)
    }
}

/// The symbols of notation `s` at the facelets of group `g`.
pub open spec fn symbols_at(s: Seq<char>, g: Seq<usize>) -> Seq<char> {
    g.map_values(|f: usize| s[f as int])
}

pub open spec fn all_symbols(s: Seq<char>, groups: Seq<Seq<usize>>) -> Seq<Seq<char>> {
    groups.map_values(|g: Seq<usize>| symbols_at(s, g))
}

/// Whether group `g` is illegal, a duplicate, or fine (`None`).
pub open spec fn group_violation(
    s: Seq<char>,
    groups: Seq<Seq<usize>>,
    legal: Seq<Seq<char>>,
    g: int,
) -> Option<ViolationKind> {
    let syms = symbols_at(s, groups[g]);
    if !any_same(syms, legal, legal.len() as int) {
        Some(ViolationKind::Illegal)
    } else if any_same(syms, all_symbols(s, groups), g) {
        Some(ViolationKind::Duplicate)
    } else {
        None
    }
}

/// The violations among the first `n` groups, in group order.
pub open spec fn violations_upto(
    s: Seq<char>,
    groups: Seq<Seq<usize>>,
    legal: Seq<Seq<char>>,
    n: int,
) -> Seq<ViolationView>
    decreases n,
{
    if n <= 0 {
        seq![]
    } else {
        let prev = violations_upto(s, groups, legal, n - 1);
        match group_violation(s, groups, legal, n - 1) {
            Some(kind) => prev.push(
                ((n - 1) as usize, groups[n - 1], symbols_at(s, groups[n - 1]), kind),
            ),
            None => prev,
        }
    }
}

/// Those of the first `n` legal sets that no group produces, by position.
pub open spec fn missing_upto(
    s: Seq<char>,
    groups: Seq<Seq<usize>>,
    legal: Seq<Seq<char>>,
    n: int,
) -> Seq<usize>
    decreases n,
{
    if n <= 0 {
        seq![]
    } else {
        let prev = missing_upto(s, groups, legal, n - 1);
        if !any_same(legal[n - 1], all_symbols(s, groups), groups.len() as int) {
            prev.push((n - 1) as usize)
        } else {
            prev
        }
    }
}

fn contains_char(v: &Vec<char>, c: char) -> (r: bool)
    ensures
        r == v@.contains(c),
{
    let mut i: usize = 0;
    while i < v.len()
        invariant
            i <= v.len(),
            forall|a: int| 0 <= a < i ==> v@[a] != c,
        decreases v.len() - i,
    {
        if v[i] == c {
            assert(v@[i as int] == c);
            return true;
        }
        i = i + 1;
    }
    false
}

fn all_in(a: &Vec<char>, b: &Vec<char>) -> (r: bool)
    ensures
        r == forall|i: int| 0 <= i < a@.len() ==> b@.contains(#[trigger] a@[i]),
{
    let mut i: usize = 0;
    while i < a.len()
        invariant
            i <= a.len(),
            forall|x: int| 0 <= x < i ==> b@.contains(#[trigger] a@[x]),
        decreases a.len() - i,
    {
        if !contains_char(b, a[i]) {
            return false;
        }
        i = i + 1;
    }
    true
}

/// Whether two symbol lists hold the same symbols, as sets.
fn same_members(a: &Vec<char>, b: &Vec<char>) -> (r: bool)
    ensures
        r == same_set(a@, b@),
{
    all_in(a, b) && all_in(b, a)
}

fn any_same_exec(x: &Vec<char>, sets: &Vec<Vec<char>>, n: usize) -> (r: bool)
    requires
        n <= sets.len(),
    ensures
        r == any_same(x@, sets@.map_values(|v: Vec<char>| v@), n as int),
{
    let ghost sv = sets@.map_values(|v: Vec<char>| v@);
    let mut found = false;
    let mut t: usize = 0;
    while t < n
        invariant
            n <= sets.len(),
            sv == sets@.map_values(|v: Vec<char>| v@),
            t <= n,
            found == any_same(x@, sv, t as int),
        decreases n - t,
    {
        assert(sv[t as int] == sets@[t as int]@);
        found = found || same_members(&sets[t], x);
        t = t + 1;
    }
    found
}

fn symbols_of(s: &Vec<char>, g: &Vec<usize>) -> (r: Vec<char>)
    requires
        forall|t: int| 0 <= t < g@.len() ==> #[trigger] g@[t] < s@.len(),
    ensures
        r@ == symbols_at(s@, g@),
{
    let mut r: Vec<char> = Vec::new();
    let mut t: usize = 0;
    while t < g.len()
        invariant
            forall|t: int| 0 <= t < g@.len() ==> #[trigger] g@[t] < s@.len(),
            t <= g.len(),
            r@ == symbols_at(s@, g@).take(t as int),
        decreases g.len() - t,
    {
        r.push(s[g[t]]);
        assert(symbols_at(s@, g@).take(t + 1) =~= symbols_at(s@, g@).take(t as int).push(
            s@[g@[t as int] as int],
        ));
        t = t + 1;
    }
    assert(symbols_at(s@, g@).take(g.len() as int) =~= symbols_at(s@, g@));
    r
}

/// Checks each group against the legal sets and lists the legal sets no group produces.
fn check_groups(s: &Vec<char>, groups: &Vec<Vec<usize>>, legal: &Vec<Vec<char>>) -> (r: (
    Vec<GroupViolation>,
    Vec<usize>,
))
    requires
        forall|g: int, t: int|
            0 <= g < groups@.len() && 0 <= t < groups@[g]@.len() ==> #[trigger] groups@[g]@[t]
                < s@.len(),
    ensures
        views_of_violations(r.0@) == violations_upto(
            s@,
            groups@.map_values(|g: Vec<usize>| g@),
            legal@.map_values(|v: Vec<char>| v@),
            groups@.len() as int,
        ),
        r.1@ == missing_upto(
            s@,
            groups@.map_values(|g: Vec<usize>| g@),
            legal@.map_values(|v: Vec<char>| v@),
            legal@.len() as int,
        ),
{
    let ghost gv = groups@.map_values(|g: Vec<usize>| g@);
    let ghost lv = legal@.map_values(|v: Vec<char>| v@);
    let mut syms: Vec<Vec<char>> = Vec::new();
    let mut g: usize = 0;
    while g < groups.len()
        invariant
            forall|g: int, t: int|
                0 <= g < groups@.len() && 0 <= t < groups@[g]@.len() ==> #[trigger] groups@[g]@[t]
                    < s@.len(),
            gv == groups@.map_values(|g: Vec<usize>| g@),
            g <= groups.len(),
            syms@.len() == g,
            syms@.map_values(|v: Vec<char>| v@) == all_symbols(s@, gv).take(g as int),
        decreases groups.len() - g,
    {
        let ghost before = syms@;
        let sy = symbols_of(s, &groups[g]);
        syms.push(sy);
        proof {
            assert(gv[g as int] == groups@[g as int]@);
            assert(all_symbols(s@, gv).take(g + 1) =~= all_symbols(s@, gv).take(g as int).push(
                symbols_at(s@, gv[g as int]),
            ));
            assert(syms@.map_values(|v: Vec<char>| v@) =~= before.map_values(|v: Vec<char>| v@).push(
                sy@,
            ));
        }
        g = g + 1;
    }
    assert(all_symbols(s@, gv).take(groups.len() as int) =~= all_symbols(s@, gv));
    let mut violations: Vec<GroupViolation> = Vec::new();
    let mut g: usize = 0;
    while g < groups.len()
        invariant
            gv == groups@.map_values(|g: Vec<usize>| g@),
            lv == legal@.map_values(|v: Vec<char>| v@),
            syms@.map_values(|v: Vec<char>| v@) == all_symbols(s@, gv),
            syms@.len() == groups@.len(),
            g <= groups.len(),
            views_of_violations(violations@) == violations_upto(s@, gv, lv, g as int),
        decreases groups.len() - g,
    {
        assert(syms@.map_values(|v: Vec<char>| v@)[g as int] == syms@[g as int]@);
        assert(syms@[g as int]@ == symbols_at(s@, gv[g as int]));
        let legal_set = any_same_exec(&syms[g], legal, legal.len());
        let reused = any_same_exec(&syms[g], &syms, g);
        let ghost before = violations@;
        if !legal_set || reused {
            let kind = if !legal_set {
                ViolationKind::Illegal
            } else {
                ViolationKind::Duplicate
            };
            violations.push(
                GroupViolation {
                    group: g,
                    facelets: groups[g].clone(),
                    symbols: syms[g].clone(),
                    kind,
                },
            );
            assert(views_of_violations(violations@) =~= views_of_violations(before).push(
                violations@.last().view(),
            ));
        }
        g = g + 1;
    }
    let mut missing: Vec<usize> = Vec::new();
    let mut l: usize = 0;
    while l < legal.len()
        invariant
            gv == groups@.map_values(|g: Vec<usize>| g@),
            lv == legal@.map_values(|v: Vec<char>| v@),
            syms@.map_values(|v: Vec<char>| v@) == all_symbols(s@, gv),
            syms@.len() == groups@.len(),
            l <= legal.len(),
            missing@ == missing_upto(s@, gv, lv, l as int),
        decreases legal.len() - l,
    {
        assert(lv[l as int] == legal@[l as int]@);
        if !any_same_exec(&legal[l], &syms, syms.len()) {
            missing.push(l);
        }
        l = l + 1;
    }
    (violations, missing)
}

/// Checks a notation's corners and edges: each group's symbol set must be a legal set, and
/// no two groups may produce the same set. Reports the illegal and duplicate groups and the
/// legal sets that no group produces.
pub fn validate(notation: &Vec<char>) -> (r: ValidationReport)
    requires
        notation@.len() == NUM_FACELETS,
    ensures
        views_of_violations(r.corner_violations@) == violations_upto(
            notation@,
            corner_groups(),
            corner_color_sets(),
            8,
        ),
        views_of_violations(r.edge_violations@) == violations_upto(
            notation@,
            edge_groups(),
            edge_color_sets(),
            12,
        ),
        r.missing_corner_sets@ == missing_upto(notation@, corner_groups(), corner_color_sets(), 8),
        r.missing_edge_sets@ == missing_upto(notation@, edge_groups(), edge_color_sets(), 12),
{
    let corners = corner_facelets();
    let corner_colors = get_corner_colors();
    let edges = edge_facelets();
    let edge_colors = get_edge_colors();
    assert(corners@.map_values(|g: Vec<usize>| g@) =~= corner_groups());
    assert(corner_colors@.map_values(|v: Vec<char>| v@) =~= corner_color_sets());
    assert(edges@.map_values(|g: Vec<usize>| g@) =~= edge_groups());
    assert(edge_colors@.map_values(|v: Vec<char>| v@) =~= edge_color_sets());
    assert forall|g: int, t: int|
        0 <= g < corners@.len() && 0 <= t < corners@[g]@.len() implies #[trigger] corners@[g]@[t]
            < notation@.len() by {
        assert(corners@[g]@ == corner_groups()[g]);
    }
    assert forall|g: int, t: int|
        0 <= g < edges@.len() && 0 <= t < edges@[g]@.len() implies #[trigger] edges@[g]@[t]
            < notation@.len() by {
        assert(edges@[g]@ == edge_groups()[g]);
    }
    let (corner_violations, missing_corner_sets) = check_groups(notation, &corners, &corner_colors);
    let (edge_violations, missing_edge_sets) = check_groups(notation, &edges, &edge_colors);
    ValidationReport { corner_violations, edge_violations, missing_corner_sets, missing_edge_sets }
}

/// `x` is one of the legal sets.
pub open spec fn is_legal_set(legal: Seq<Seq<char>>, x: Seq<char>) -> bool {
    exists|l: int| 0 <= l < legal.len() && same_set(#[trigger] legal[l], x)
}

/// Some group of notation `s` reads the set `x`.
pub open spec fn read_by_some_group(s: Seq<char>, groups: Seq<Seq<usize>>, x: Seq<char>) -> bool {
    exists|g: int| 0 <= g < groups.len() && same_set(#[trigger] symbols_at(s, groups[g]), x)
}

proof fn lemma_any_same(x: Seq<char>, sets: Seq<Seq<char>>, n: int)
    requires
        0 <= n <= sets.len(),
    ensures
        any_same(x, sets, n) <==> exists|k: int| 0 <= k < n && same_set(#[trigger] sets[k], x),
    decreases n,
{
    if n > 0 {
        lemma_any_same(x, sets, n - 1);
        if any_same(x, sets, n - 1) {
            let k = choose|k: int| 0 <= k < n - 1 && same_set(#[trigger] sets[k], x);
            assert(0 <= k < n && same_set(sets[k], x));
        }
    }
}

/// Exactly one duplicated group and one missing set: when every group reads a legal set,
/// groups `a < b` are the only two that read the same set, and legal set `l_miss` is the
/// only one that no group reads, the validator reports a single violation, a duplicate at
/// group `b`, and `l_miss` as the single missing set.
pub proof fn lemma_one_duplicate(
    s: Seq<char>,
    groups: Seq<Seq<usize>>,
    legal: Seq<Seq<char>>,
    a: int,
    b: int,
    l_miss: int,
)
    requires
        0 <= a < b < groups.len(),
        0 <= l_miss < legal.len(),
        forall|g: int| 0 <= g < groups.len() ==> is_legal_set(legal, #[trigger] symbols_at(s, groups[g])),
        same_set(symbols_at(s, groups[a]), symbols_at(s, groups[b])),
        forall|g1: int, g2: int|
            0 <= g1 < g2 < groups.len() && (g1 != a || g2 != b) ==> !same_set(
                #[trigger] symbols_at(s, groups[g1]),
                #[trigger] symbols_at(s, groups[g2]),
            ),
        forall|g: int|
            0 <= g < groups.len() ==> !same_set(#[trigger] symbols_at(s, groups[g]), legal[l_miss]),
        forall|l: int|
            0 <= l < legal.len() && l != l_miss ==> read_by_some_group(s, groups, #[trigger] legal[l]),
    ensures
        violations_upto(s, groups, legal, groups.len() as int) == seq![
            (b as usize, groups[b], symbols_at(s, groups[b]), ViolationKind::Duplicate),
        ],
        missing_upto(s, groups, legal, legal.len() as int) == seq![l_miss as usize],
{
    lemma_one_duplicate_violations(s, groups, legal, a, b, groups.len() as int);
    lemma_one_duplicate_missing(s, groups, legal, l_miss, legal.len() as int);
}

proof fn lemma_one_duplicate_violations(
    s: Seq<char>,
    groups: Seq<Seq<usize>>,
    legal: Seq<Seq<char>>,
    a: int,
    b: int,
    n: int,
)
    requires
        0 <= a < b < groups.len(),
        0 <= n <= groups.len(),
        forall|g: int| 0 <= g < groups.len() ==> is_legal_set(legal, #[trigger] symbols_at(s, groups[g])),
        same_set(symbols_at(s, groups[a]), symbols_at(s, groups[b])),
        forall|g1: int, g2: int|
            0 <= g1 < g2 < groups.len() && (g1 != a || g2 != b) ==> !same_set(
                #[trigger] symbols_at(s, groups[g1]),
                #[trigger] symbols_at(s, groups[g2]),
            ),
    ensures
        violations_upto(s, groups, legal, n) == if n > b {
            seq![(b as usize, groups[b], symbols_at(s, groups[b]), ViolationKind::Duplicate)]
        } else {
            Seq::<ViolationView>::empty()
        },
    decreases n,
{
    if n > 0 {
        lemma_one_duplicate_violations(s, groups, legal, a, b, n - 1);
        let g = n - 1;
        let syms = symbols_at(s, groups[g]);
        let all = all_symbols(s, groups);
        lemma_any_same(syms, legal, legal.len() as int);
        assert(is_legal_set(legal, syms));
        let l = choose|l: int| 0 <= l < legal.len() && same_set(#[trigger] legal[l], syms);
        assert(same_set(legal[l], syms));
        lemma_any_same(syms, all, g);
        if g == b {
            assert(all[a] == symbols_at(s, groups[a]));
            assert(same_set(all[a], syms));
        } else {
            assert forall|k: int| 0 <= k < g implies !same_set(#[trigger] all[k], syms) by {
                assert(all[k] == symbols_at(s, groups[k]));
            }
        }
        if n - 1 > b {
            assert(n > b);
        }
    }
}

proof fn lemma_one_duplicate_missing(
    s: Seq<char>,
    groups: Seq<Seq<usize>>,
    legal: Seq<Seq<char>>,
    l_miss: int,
    n: int,
)
    requires
        0 <= l_miss < legal.len(),
        0 <= n <= legal.len(),
        forall|g: int|
            0 <= g < groups.len() ==> !same_set(#[trigger] symbols_at(s, groups[g]), legal[l_miss]),
        forall|l: int|
            0 <= l < legal.len() && l != l_miss ==> read_by_some_group(s, groups, #[trigger] legal[l]),
    ensures
        missing_upto(s, groups, legal, n) == if n > l_miss {
            seq![l_miss as usize]
        } else {
            Seq::<usize>::empty()
        },
    decreases n,
{
    if n > 0 {
        lemma_one_duplicate_missing(s, groups, legal, l_miss, n - 1);
        let l = n - 1;
        let all = all_symbols(s, groups);
        lemma_any_same(legal[l], all, groups.len() as int);
        if l == l_miss {
            assert forall|k: int| 0 <= k < groups.len() implies !same_set(
                #[trigger] all[k],
                legal[l],
            ) by {
                assert(all[k] == symbols_at(s, groups[k]));
            }
        } else {
            assert(read_by_some_group(s, groups, legal[l]));
            let g = choose|g: int|
                0 <= g < groups.len() && same_set(#[trigger] symbols_at(s, groups[g]), legal[l]);
            assert(all[g] == symbols_at(s, groups[g]));
            assert(same_set(all[g], legal[l]));
        }
    }
}

} // verus!
