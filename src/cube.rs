use vstd::prelude::*;

use crate::bindings::string_from_chars;
use crate::classification::{
    classes_of, lemma_classes_member_indices, Classification, ColorPoint, Member,
};
use crate::constants::{
    centre_faces, centre_positions, centre_table, is_centre, is_side, scan_order,
    scan_order_table, side_facelet, NUM_FACELETS,
};

verus! {

/// The cube under scan: one color sample per facelet in notation order, the scan cursor,
/// and the orientation the robot tracks while applying moves.
pub struct Cube {
    /// Number of samples recorded so far; the next one goes to `scan_order()[curr_idx]`.
    pub curr_idx: usize,
    /// Samples in the order of the standard notation.
    pub facelet_rgb_values: Vec<ColorPoint>,
    /// Faces reachable by flipping; the first one is the one currently down.
    pub next_faces: [char; 4],
    /// Right face from the sensor's point of view.
    pub right_face: char,
    /// Left face from the sensor's point of view.
    pub left_face: char,
}

/// Samples at their own positions: sample `i` carries index `i`.
pub open spec fn samples_in_place(vals: Seq<ColorPoint>) -> bool {
    &&& vals.len() == NUM_FACELETS
    &&& forall|i: int| 0 <= i < vals.len() ==> (#[trigger] vals[i]).index == i
}

/// The samples of the six centres, in the order of `centre_positions`.
pub open spec fn centre_points(vals: Seq<ColorPoint>) -> Seq<ColorPoint> {
    centre_positions().map_values(|p: usize| vals[p as int])
}

/// The non-centre samples among the first `n` positions whose index is an edge facelet
/// (`side`) or not (`!side`), in position order.
pub open spec fn others_upto(vals: Seq<ColorPoint>, side: bool, n: int) -> Seq<ColorPoint>
    decreases n,
{
    if n <= 0 {
        seq![]
    } else {
        let prev = others_upto(vals, side, n - 1);
        let p = vals[n - 1];
        if !is_centre(n - 1) && is_side(p.index as int) == side {
            prev.push(p)
        } else {
            prev
        }
    }
}

/// Writes `face` at the index of each of the first `n` members.
pub open spec fn paint_members(s: Seq<char>, members: Seq<Member>, face: char, n: int) -> Seq<char>
    decreases n,
{
    if n <= 0 {
        s
    } else {
        paint_members(s, members, face, n - 1).update(members[n - 1].1.index as int, face)
    }
}

/// For each of the first `n` classes: writes the face symbol at its centre, then at each of
/// its members.
pub open spec fn paint_classes(s: Seq<char>, classes: Seq<Seq<Member>>, n: int) -> Seq<char>
    decreases n,
{
    if n <= 0 {
        s
    } else {
        let before = paint_classes(s, classes, n - 1);
        let face = centre_faces()[n - 1];
        let c = classes[n - 1];
        paint_members(before.update(centre_positions()[n - 1] as int, face), c, face, c.len() as int)
    }
}

pub open spec fn blank_notation() -> Seq<char> {
    Seq::new(NUM_FACELETS as nat, |i: int| ' ')
}

/// The notation built from the samples: edge facelets and corner facelets are classified
/// separately onto the six centres, each class with capacity `count / 6`; every centre and
/// every assigned facelet gets its class's face symbol; unassigned facelets stay blank.
pub open spec fn notation_of(vals: Seq<ColorPoint>) -> Seq<char> {
    let centres = centre_points(vals);
    let sides = others_upto(vals, true, NUM_FACELETS as int);
    let corners = others_upto(vals, false, NUM_FACELETS as int);
    let side_classes = classes_of(centres, sides, (sides.len() / 6) as int);
    let corner_classes = classes_of(centres, corners, (corners.len() / 6) as int);
    paint_classes(paint_classes(blank_notation(), side_classes, 6), corner_classes, 6)
}

proof fn lemma_others_indices(vals: Seq<ColorPoint>, side: bool, n: int)
    requires
        0 <= n <= vals.len(),
        forall|i: int| 0 <= i < vals.len() ==> (#[trigger] vals[i]).index < NUM_FACELETS,
    ensures
        forall|t: int|
            0 <= t < others_upto(vals, side, n).len() ==> (#[trigger] others_upto(
                vals,
                side,
                n,
            )[t]).index < NUM_FACELETS,
    decreases n,
{
    if n > 0 {
        lemma_others_indices(vals, side, n - 1);
        let prev = others_upto(vals, side, n - 1);
        let cur = others_upto(vals, side, n);
        assert forall|t: int| 0 <= t < cur.len() implies (#[trigger] cur[t]).index < NUM_FACELETS by {
            if t < prev.len() {
                assert(cur[t] == prev[t]);
            }
        }
    }
}

/// Writes the face symbols of `classes` into `s` (see `paint_classes`).
fn paint(s: &mut Vec<char>, classes: &Vec<Vec<Member>>, positions: &Vec<usize>, faces: &Vec<char>)
    requires
        old(s)@.len() == NUM_FACELETS,
        classes@.len() == 6,
        positions@ == centre_positions(),
        faces@ == centre_faces(),
        forall|j: int, a: int|
            0 <= j < 6 && 0 <= a < classes@[j]@.len() ==> (#[trigger] classes@[j]@[a]).1.index
                < NUM_FACELETS,
    ensures
        final(s)@ == paint_classes(old(s)@, classes@.map_values(|c: Vec<Member>| c@), 6),
        final(s)@.len() == NUM_FACELETS,
{
    let ghost cl = classes@.map_values(|c: Vec<Member>| c@);
    let mut j: usize = 0;
    while j < 6
        invariant
            s@.len() == NUM_FACELETS,
            classes@.len() == 6,
            positions@ == centre_positions(),
            faces@ == centre_faces(),
            cl == classes@.map_values(|c: Vec<Member>| c@),
            forall|j: int, a: int|
                0 <= j < 6 && 0 <= a < classes@[j]@.len() ==> (#[trigger] classes@[j]@[a]).1.index
                    < NUM_FACELETS,
            j <= 6,
            s@ == paint_classes(old(s)@, cl, j as int),
        decreases 6 - j,
    {
        let face = faces[j];
        s.set(positions[j], face);
        let class = &classes[j];
        assert(cl[j as int] == class@);
        let ghost start = s@;
        let mut a: usize = 0;
        while a < class.len()
            invariant
                s@.len() == NUM_FACELETS,
                forall|a: int| 0 <= a < class@.len() ==> (#[trigger] class@[a]).1.index < NUM_FACELETS,
                a <= class.len(),
                s@ == paint_members(start, class@, face, a as int),
            decreases class.len() - a,
        {
            s.set(class[a].1.index, face);
            a = a + 1;
        }
        j = j + 1;
    }
}

/// The sum of the readings.
pub open spec fn sum_of(s: Seq<u32>) -> int
    decreases s.len(),
{
    if s.len() == 0 {
        0
    } else {
        sum_of(s.drop_last()) + s.last()
    }
}

/// The mean of raw color-sensor readings (full scale 1020), rescaled to thousandths of a
/// 0..255 scale: `sum * 250 / count`, rounded down.
pub fn scaled_mean(readings: &Vec<u32>) -> (m: u32)
    requires
        0 < readings.len() <= u32::MAX,
        forall|i: int| 0 <= i < readings.len() ==> #[trigger] readings@[i] <= 0xFFFF,
    ensures
        m == sum_of(readings@) * 250 / readings.len() as int,
{
    let n = readings.len();
    let mut sum: u64 = 0;
    let mut i: usize = 0;
    while i < n
        invariant
            n == readings.len() <= u32::MAX,
            forall|i: int| 0 <= i < readings.len() ==> #[trigger] readings@[i] <= 0xFFFF,
            i <= n,
            sum == sum_of(readings@.take(i as int)),
            sum <= i * 0xFFFF,
        decreases n - i,
    {
        assert(readings@.take(i + 1).drop_last() =~= readings@.take(i as int));
        sum = sum + readings[i] as u64;
        i = i + 1;
    }
    assert(readings@.take(n as int) =~= readings@);
    assert(sum * 250 <= n * 0xFFFF * 250) by (nonlinear_arith)
        requires
            sum <= n * 0xFFFF,
    ;
    assert(sum * 250 / (n as int) <= 0xFFFF * 250) by (nonlinear_arith)
        requires
            sum * 250 <= n * 0xFFFF * 250,
            n > 0,
    ;
    (sum * 250 / n as u64) as u32
}

/// How the robot brings a face down before turning it.
#[derive(Clone, Copy, Debug, PartialEq, Eq, Structural)]
pub enum BaseTurn {
    /// The face is already among the flippable faces.
    Stay,
    /// Turn the base a quarter clockwise: the face was on the left.
    Clockwise,
    /// Turn the base a quarter counterclockwise: the face was on the right.
    CounterClockwise,
}

/// The orientation reached by turning the base (see `Cube::plan_face`).
pub open spec fn turned(
    next: Seq<char>,
    left: char,
    right: char,
    face: char,
) -> (Seq<char>, char, char, BaseTurn) {
    if next.contains(face) {
        (next, left, right, BaseTurn::Stay)
    } else if face == left {
        (next.update(1, left).update(3, right), next[3], next[1], BaseTurn::Clockwise)
    } else {
        (next.update(1, right).update(3, left), next[1], next[3], BaseTurn::CounterClockwise)
    }
}

/// `s` rotated left by `k` places.
pub open spec fn rotated(s: Seq<char>, k: int) -> Seq<char> {
    Seq::new(s.len(), |i: int| s[(i + k) % (s.len() as int)])
}

/// The number of flips (left rotations of the flippable faces) that bring `face` down.
pub open spec fn flips_to(next: Seq<char>, face: char) -> int {
    if next[0] == face {
        0
    } else if next[1] == face {
        1
    } else if next[2] == face {
        2
    } else {
        3
    }
}

impl Cube {
    /// Plans bringing `face` down, ready to be turned, and updates the tracked orientation:
    /// first a base turn when the face is not among the flippable faces, then the number of
    /// flips returned.
    pub fn plan_face(&mut self, face: char) -> (r: (BaseTurn, usize))
        requires
            old(self).next_faces@.contains(face) || face == old(self).left_face || face == old(
                self,
            ).right_face,
        ensures
            ({
                let (next, left, right, turn) = turned(
                    old(self).next_faces@,
                    old(self).left_face,
                    old(self).right_face,
                    face,
                );
                &&& r.0 == turn
                &&& r.1 == flips_to(next, face)
                &&& final(self).next_faces@ == rotated(next, flips_to(next, face))
                &&& final(self).left_face == left
                &&& final(self).right_face == right
                &&& final(self).next_faces@[0] == face
            }),
            final(self).curr_idx == old(self).curr_idx,
            final(self).facelet_rgb_values == old(self).facelet_rgb_values,
    {
        let ghost goal = turned(self.next_faces@, self.left_face, self.right_face, face);
        let nf = self.next_faces;
        let present = nf[0] == face || nf[1] == face || nf[2] == face || nf[3] == face;
        proof {
            if self.next_faces@.contains(face) {
                let i = choose|i: int| 0 <= i < 4 && self.next_faces@[i] == face;
                assert(self.next_faces@[i] == face);
            }
            if present {
                assert(nf@[0] == face ==> self.next_faces@.contains(face));
                if nf@[1] == face {
                    assert(self.next_faces@[1] == face);
                }
                if nf@[2] == face {
                    assert(self.next_faces@[2] == face);
                }
                if nf@[3] == face {
                    assert(self.next_faces@[3] == face);
                }
            }
        }
        let turn = if present {
            BaseTurn::Stay
        } else if face == self.left_face {
            let left = self.left_face;
            let right = self.right_face;
            self.left_face = nf[3];
            self.right_face = nf[1];
            self.next_faces = [nf[0], left, nf[2], right];
            BaseTurn::Clockwise
        } else {
            let left = self.left_face;
            let right = self.right_face;
            self.right_face = nf[3];
            self.left_face = nf[1];
            self.next_faces = [nf[0], right, nf[2], left];
            BaseTurn::CounterClockwise
        };
        assert(self.next_faces@ =~= goal.0);
        let n = self.next_faces;
        let flips: usize = if n[0] == face {
            0
        } else if n[1] == face {
            1
        } else if n[2] == face {
            2
        } else {
            3
        };
        self.next_faces = [n[flips % 4], n[(flips + 1) % 4], n[(flips + 2) % 4], n[(flips + 3) % 4]];
        assert(self.next_faces@ =~= rotated(goal.0, flips as int));
        (turn, flips)
    }

    /// A cube with every sample at zero (sample `i` carrying index `i`), the scan cursor at
    /// the start, and the robot's initial orientation.
    pub fn init() -> (c: Self)
        ensures
            c.curr_idx == 0,
            c.facelet_rgb_values@.len() == NUM_FACELETS,
            forall|i: int|
                0 <= i < NUM_FACELETS ==> #[trigger] c.facelet_rgb_values@[i] == (ColorPoint {
                    r: 0,
                    g: 0,
                    b: 0,
                    index: i as usize,
                }),
            c.next_faces@ == seq!['R', 'D', 'L', 'U'],
            c.right_face == 'B',
            c.left_face == 'F',
    {
        let mut values: Vec<ColorPoint> = Vec::new();
        let mut i: usize = 0;
        while i < NUM_FACELETS
            invariant
                i <= NUM_FACELETS,
                values@.len() == i,
                forall|a: int|
                    0 <= a < i ==> #[trigger] values@[a] == (ColorPoint {
                        r: 0,
                        g: 0,
                        b: 0,
                        index: a as usize,
                    }),
            decreases NUM_FACELETS - i,
        {
            values.push(ColorPoint { r: 0, g: 0, b: 0, index: i });
            i = i + 1;
        }
        let next_faces = ['R', 'D', 'L', 'U'];
        assert(next_faces@ =~= seq!['R', 'D', 'L', 'U']);
        Cube { curr_idx: 0, facelet_rgb_values: values, next_faces, right_face: 'B', left_face: 'F' }
    }

    /// Stores the next sample of the scan at the facelet the scan order names for it, and
    /// advances the cursor.
    pub fn record_sample(&mut self, r: u32, g: u32, b: u32)
        requires
            old(self).curr_idx < NUM_FACELETS,
            old(self).facelet_rgb_values@.len() == NUM_FACELETS,
        ensures
            final(self).curr_idx == old(self).curr_idx + 1,
            final(self).facelet_rgb_values@ == old(self).facelet_rgb_values@.update(
                scan_order()[old(self).curr_idx as int] as int,
                ColorPoint { r, g, b, index: scan_order()[old(self).curr_idx as int] },
            ),
            final(self).next_faces == old(self).next_faces,
            final(self).right_face == old(self).right_face,
            final(self).left_face == old(self).left_face,
    {
        let order = scan_order_table();
        let idx = order[self.curr_idx];
        assert(idx < NUM_FACELETS);
        self.facelet_rgb_values.set(idx, ColorPoint { r, g, b, index: idx });
        self.curr_idx = self.curr_idx + 1;
    }

    /// Converts the samples into the standard notation (a solved cube reads
    /// `UUUUUUUUURRRRRRRRRFFFFFFFFFDDDDDDDDDLLLLLLLLLBBBBBBBBB`); see `notation_of`.
    pub fn to_notation(&self) -> (s: String)
        requires
            self.facelet_rgb_values@.len() == NUM_FACELETS,
            forall|i: int|
                0 <= i < NUM_FACELETS ==> (#[trigger] self.facelet_rgb_values@[i]).index
                    < NUM_FACELETS,
        ensures
            s@ == notation_of(self.facelet_rgb_values@),
    {
        let facelets = &self.facelet_rgb_values;
        let ghost vals = facelets@;
        let (positions, faces) = centre_table();
        let mut centres: Vec<ColorPoint> = Vec::new();
        let mut j: usize = 0;
        while j < 6
            invariant
                positions@ == centre_positions(),
                facelets@ == vals,
                vals.len() == NUM_FACELETS,
                j <= 6,
                centres@ == centre_points(vals).take(j as int),
            decreases 6 - j,
        {
            centres.push(facelets[positions[j]]);
            assert(centre_points(vals).take(j + 1) =~= centre_points(vals).take(j as int).push(
                vals[positions@[j as int] as int],
            ));
            j = j + 1;
        }
        assert(centre_points(vals).take(6) =~= centre_points(vals));
        let mut sides: Vec<ColorPoint> = Vec::new();
        let mut corners: Vec<ColorPoint> = Vec::new();
        let mut i: usize = 0;
        while i < NUM_FACELETS
            invariant
                facelets@ == vals,
                vals.len() == NUM_FACELETS,
                i <= NUM_FACELETS,
                sides@ == others_upto(vals, true, i as int),
                corners@ == others_upto(vals, false, i as int),
            decreases NUM_FACELETS - i,
        {
            if i % 9 != 4 {
                let p = facelets[i];
                if side_facelet(p.index) {
                    sides.push(p);
                } else {
                    corners.push(p);
                }
            }
            i = i + 1;
        }
        let centres_for_corners = centres.clone();
        assert(centres_for_corners@ =~= centres@);
        let mut side_classification = Classification::init(centres, sides);
        let side_classes = side_classification.classify();
        let mut corner_classification = Classification::init(centres_for_corners, corners);
        let corner_classes = corner_classification.classify();
        proof {
            lemma_others_indices(vals, true, NUM_FACELETS as int);
            lemma_others_indices(vals, false, NUM_FACELETS as int);
            lemma_classes_member_indices(
                centre_points(vals),
                others_upto(vals, true, NUM_FACELETS as int),
                side_classification.k as int,
                NUM_FACELETS as int,
            );
            lemma_classes_member_indices(
                centre_points(vals),
                others_upto(vals, false, NUM_FACELETS as int),
                corner_classification.k as int,
                NUM_FACELETS as int,
            );
            let sc = side_classes@.map_values(|c: Vec<Member>| c@);
            let cc = corner_classes@.map_values(|c: Vec<Member>| c@);
            assert(sc =~= side_classification.classes());
            assert(cc =~= corner_classification.classes());
        }
        let mut notation: Vec<char> = Vec::new();
        let mut i: usize = 0;
        while i < NUM_FACELETS
            invariant
                i <= NUM_FACELETS,
                notation@ == blank_notation().take(i as int),
            decreases NUM_FACELETS - i,
        {
            notation.push(' ');
            assert(blank_notation().take(i + 1) =~= blank_notation().take(i as int).push(' '));
            i = i + 1;
        }
        assert(blank_notation().take(NUM_FACELETS as int) =~= blank_notation());
        paint(&mut notation, &side_classes, &positions, &faces);
        paint(&mut notation, &corner_classes, &positions, &faces);
        string_from_chars(&notation)
    }
}

} // verus!
