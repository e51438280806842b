use itertools::Itertools;
use vstd::prelude::*;
use vstd::relations::sorted_by;

verus! {

/// One of the six face symbols.
pub open spec fn is_face_symbol(c: char) -> bool {
    c == 'U' || c == 'R' || c == 'F' || c == 'D' || c == 'L' || c == 'B'
}

/// Whether kewb reads `notation` as a cube state that it deems solvable.
pub uninterp spec fn kewb_solvable(notation: Seq<char>) -> bool;

/// Relies on kewb's `CubieCube::try_from(&FaceCube)`, once `FaceCube::try_from(&str)` has
/// read the notation: true when both conversions succeed. The second succeeds only when
/// kewb's `CubieCube::is_solvable` holds of the cube state it reads off the facelets; the
/// first accepts exactly 54 bytes, each one of the six face letters.
#[verifier::external_body]
pub(crate) fn kewb_accepts(notation: &str) -> (r: bool)
    ensures
        r == kewb_solvable(notation@),
        r ==> notation@.len() == 54,
        r ==> forall|i: int| 0 <= i < notation@.len() ==> is_face_symbol(#[trigger] notation@[i]),
{
    match kewb::FaceCube::try_from(notation) {
        Ok(face_cube) => kewb::CubieCube::try_from(&face_cube).is_ok(),
        Err(_) => false,
    }
}

/// The `k`-element combinations of `lo..n`, each ascending, in lexicographic order; a single
/// empty combination when `k` is 0.
pub open spec fn combinations(lo: int, n: int, k: int) -> Seq<Seq<usize>>
    decreases n - lo, k,
{
    if k <= 0 {
        seq![Seq::<usize>::empty()]
    } else if lo >= n {
        Seq::<Seq<usize>>::empty()
    } else {
        combinations(lo + 1, n, k - 1).map_values(|c: Seq<usize>| seq![lo as usize] + c)
            + combinations(lo + 1, n, k)
    }
}

/// Relies on itertools' `Itertools::combinations` over the range `0..n`: all `k`-element
/// combinations, each in ascending order, in lexicographic order.
#[verifier::external_body]
pub(crate) fn index_combinations(n: usize, k: usize) -> (r: Vec<Vec<usize>>)
    ensures
        r@.len() == combinations(0, n as int, k as int).len(),
        forall|i: int|
            0 <= i < r@.len() ==> (#[trigger] r@[i])@ == combinations(0, n as int, k as int)[i],
{
    (0..n).combinations(k).collect()
}

/// The ascending order on `u64`.
pub open spec fn ascending() -> spec_fn(u64, u64) -> bool {
    |x: u64, y: u64| x <= y
}

/// Relies on itertools' `Itertools::sorted`: the same values, in ascending order.
#[verifier::external_body]
pub(crate) fn sorted_ascending(v: Vec<u64>) -> (r: Vec<u64>)
    ensures
        sorted_by(r@, ascending()),
        r@.to_multiset() == v@.to_multiset(),
{
    v.into_iter().sorted().collect()
}

/// Relies on std's `String: FromIterator<&char>`: the characters, in order.
#[verifier::external_body]
pub(crate) fn string_from_chars(v: &Vec<char>) -> (r: String)
    ensures
        r@ == v@,
{
    v.iter().collect()
}

/// The characters of `s`, in order.
pub fn chars_of(s: &str) -> (r: Vec<char>)
    ensures
        r@ == s@,
{
    let n = s.unicode_len();
    let mut r: Vec<char> = Vec::new();
    let mut i: usize = 0;
    while i < n
        invariant
            n == s@.len(),
            i <= n,
            r@ == s@.take(i as int),
        decreases n - i,
    {
        r.push(s.get_char(i));
        assert(s@.take(i + 1) =~= s@.take(i as int).push(s@[i as int]));
        i = i + 1;
    }
    assert(s@.take(n as int) =~= s@);
    r
}

} // verus!
