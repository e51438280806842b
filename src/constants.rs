use vstd::prelude::*;

verus! {

/// Number of facelets on the cube surface.
pub const NUM_FACELETS: usize = 54;

/// The facelet positions in canonical notation order: U, R, F, D, L, B faces, nine each,
/// read row by row. The fifth facelet of each face is its centre.
#[derive(Clone, Copy, Debug, PartialEq, Eq)]
pub enum Facelet {
    U1, U2, U3, U4, _U5, U6, U7, U8, U9,
    R1, R2, R3, R4, _R5, R6, R7, R8, R9,
    F1, F2, F3, F4, _F5, F6, F7, F8, F9,
    D1, D2, D3, D4, _D5, D6, D7, D8, D9,
    L1, L2, L3, L4, _L5, L6, L7, L8, L9,
    B1, B2, B3, B4, _B5, B6, B7, B8, B9,
}

impl Facelet {
    /// The index of this facelet in a notation string.
    pub fn position(self) -> (r: usize)
        ensures
            r == self as usize,
            r < NUM_FACELETS,
    {
        self as usize
    }
}

/// Position of a facelet inside its face (0..9, row by row).
pub open spec fn slot(i: int) -> int {
    i % 9
}

/// Centre facelets: positions 4, 13, 22, 31, 40, 49.
pub open spec fn is_centre(i: int) -> bool {
    0 <= i < NUM_FACELETS && slot(i) == 4
}

/// Edge ("side") facelets: the middle of each border row or column.
pub open spec fn is_side(i: int) -> bool {
    0 <= i < NUM_FACELETS && (slot(i) == 1 || slot(i) == 3 || slot(i) == 5 || slot(i) == 7)
}

pub fn centre_facelet(i: usize) -> (r: bool)
    ensures
        r == is_centre(i as int),
{
    i < NUM_FACELETS && i % 9 == 4
}

pub fn side_facelet(i: usize) -> (r: bool)
    ensures
        r == is_side(i as int),
{
    let s = i % 9;
    i < NUM_FACELETS && (s == 1 || s == 3 || s == 5 || s == 7)
}

/// The face symbols, in the order of the centre positions of `centre_positions`.
pub open spec fn centre_faces() -> Seq<char> {
    seq!['U', 'F', 'D', 'B', 'R', 'L']
}

/// The centre facelets, one per face, in the order U, F, D, B, R, L.
pub open spec fn centre_positions() -> Seq<usize> {
    seq![4, 22, 31, 49, 13, 40]
}

pub fn centre_table() -> (r: (Vec<usize>, Vec<char>))
    ensures
        r.0@ == centre_positions(),
        r.1@ == centre_faces(),
{
    let positions = vec![
        Facelet::_U5.position(), Facelet::_F5.position(), Facelet::_D5.position(),
        Facelet::_B5.position(), Facelet::_R5.position(), Facelet::_L5.position(),
    ];
    let faces = vec!['U', 'F', 'D', 'B', 'R', 'L'];
    assert(positions@ =~= centre_positions());
    assert(faces@ =~= centre_faces());
    (positions, faces)
}

/// The order in which the scanning hardware visits the facelets: the n-th sample
/// belongs to facelet `scan_order()[n]`.
pub open spec fn scan_order() -> Seq<usize> {
    seq![
        4, 7, 8, 5, 2, 1, 0, 3, 6,
        22, 25, 26, 23, 20, 19, 18, 21, 24,
        31, 34, 35, 32, 29, 28, 27, 30, 33,
        49, 46, 45, 48, 51, 52, 53, 50, 47,
        13, 16, 17, 14, 11, 10, 9, 12, 15,
        40, 37, 36, 39, 42, 43, 44, 41, 38,
    ]
}

pub fn scan_order_table() -> (r: Vec<usize>)
    ensures
        r@ == scan_order(),
{
    let r = vec![
        4, 7, 8, 5, 2, 1, 0, 3, 6,
        22, 25, 26, 23, 20, 19, 18, 21, 24,
        31, 34, 35, 32, 29, 28, 27, 30, 33,
        49, 46, 45, 48, 51, 52, 53, 50, 47,
        13, 16, 17, 14, 11, 10, 9, 12, 15,
        40, 37, 36, 39, 42, 43, 44, 41, 38,
    ];
    assert(r@ =~= scan_order());
    r
}

/// The facelet index triples of the eight corners: UBL, UBR, UFR, UFL, DFL, DFR, DBR, DBL.
pub open spec fn corner_groups() -> Seq<Seq<usize>> {
    seq![
        seq![0, 36, 47], seq![2, 45, 11], seq![8, 9, 20], seq![6, 18, 38],
        seq![27, 44, 24], seq![29, 26, 15], seq![35, 17, 51], seq![33, 53, 42],
    ]
}

/// The facelet index pairs of the twelve edges: BL, BR, FR, FL, UB, UR, UF, UL, DF, DR, DB, DL.
pub open spec fn edge_groups() -> Seq<Seq<usize>> {
    seq![
        seq![50, 39], seq![48, 14], seq![23, 12], seq![21, 41],
        seq![1, 46], seq![5, 10], seq![7, 19], seq![3, 37],
        seq![28, 25], seq![32, 16], seq![34, 52], seq![30, 43],
    ]
}

/// The legal color sets of the corners, in the order of `corner_groups`.
pub open spec fn corner_color_sets() -> Seq<Seq<char>> {
    seq![
        seq!['U', 'L', 'B'], seq!['U', 'B', 'R'], seq!['U', 'R', 'F'], seq!['U', 'F', 'L'],
        seq!['D', 'L', 'F'], seq!['D', 'F', 'R'], seq!['D', 'R', 'B'], seq!['D', 'B', 'L'],
    ]
}

/// The legal color sets of the edges, in the order of `edge_groups`.
pub open spec fn edge_color_sets() -> Seq<Seq<char>> {
    seq![
        seq!['B', 'L'], seq!['B', 'R'], seq!['F', 'R'], seq!['F', 'L'],
        seq!['U', 'B'], seq!['U', 'R'], seq!['U', 'F'], seq!['U', 'L'],
        seq!['D', 'F'], seq!['D', 'R'], seq!['D', 'B'], seq!['D', 'L'],
    ]
}

pub fn corner_facelets() -> (r: Vec<Vec<usize>>)
    ensures
        r@.len() == 8,
        forall|i: int| 0 <= i < 8 ==> (#[trigger] r@[i])@ == corner_groups()[i],
{
    let r = vec![
        vec![Facelet::U1.position(), Facelet::L1.position(), Facelet::B3.position()],
        vec![Facelet::U3.position(), Facelet::B1.position(), Facelet::R3.position()],
        vec![Facelet::U9.position(), Facelet::R1.position(), Facelet::F3.position()],
        vec![Facelet::U7.position(), Facelet::F1.position(), Facelet::L3.position()],
        vec![Facelet::D1.position(), Facelet::L9.position(), Facelet::F7.position()],
        vec![Facelet::D3.position(), Facelet::F9.position(), Facelet::R7.position()],
        vec![Facelet::D9.position(), Facelet::R9.position(), Facelet::B7.position()],
        vec![Facelet::D7.position(), Facelet::B9.position(), Facelet::L7.position()],
    ];
    assert forall|i: int| 0 <= i < 8 implies (#[trigger] r@[i])@ == corner_groups()[i] by {
        assert(r@[i]@ =~= corner_groups()[i]);
    }
    r
}

pub fn edge_facelets() -> (r: Vec<Vec<usize>>)
    ensures
        r@.len() == 12,
        forall|i: int| 0 <= i < 12 ==> (#[trigger] r@[i])@ == edge_groups()[i],
{
    let r = vec![
        vec![Facelet::B6.position(), Facelet::L4.position()],
        vec![Facelet::B4.position(), Facelet::R6.position()],
        vec![Facelet::F6.position(), Facelet::R4.position()],
        vec![Facelet::F4.position(), Facelet::L6.position()],
        vec![Facelet::U2.position(), Facelet::B2.position()],
        vec![Facelet::U6.position(), Facelet::R2.position()],
        vec![Facelet::U8.position(), Facelet::F2.position()],
        vec![Facelet::U4.position(), Facelet::L2.position()],
        vec![Facelet::D2.position(), Facelet::F8.position()],
        vec![Facelet::D6.position(), Facelet::R8.position()],
        vec![Facelet::D8.position(), Facelet::B8.position()],
        vec![Facelet::D4.position(), Facelet::L8.position()],
    ];
    assert forall|i: int| 0 <= i < 12 implies (#[trigger] r@[i])@ == edge_groups()[i] by {
        assert(r@[i]@ =~= edge_groups()[i]);
    }
    r
}

/// The legal corner color sets, each given by its three members.
pub fn get_corner_colors() -> (r: Vec<Vec<char>>)
    ensures
        r@.len() == 8,
        forall|i: int| 0 <= i < 8 ==> (#[trigger] r@[i])@ == corner_color_sets()[i],
{
    let r = vec![
        vec!['U', 'L', 'B'], vec!['U', 'B', 'R'], vec!['U', 'R', 'F'], vec!['U', 'F', 'L'],
        vec!['D', 'L', 'F'], vec!['D', 'F', 'R'], vec!['D', 'R', 'B'], vec!['D', 'B', 'L'],
    ];
    assert forall|i: int| 0 <= i < 8 implies (#[trigger] r@[i])@ == corner_color_sets()[i] by {
        assert(r@[i]@ =~= corner_color_sets()[i]);
    }
    r
}

/// The legal edge color sets, each given by its two members.
pub fn get_edge_colors() -> (r: Vec<Vec<char>>)
    ensures
        r@.len() == 12,
        forall|i: int| 0 <= i < 12 ==> (#[trigger] r@[i])@ == edge_color_sets()[i],
{
    let r = vec![
        vec!['B', 'L'], vec!['B', 'R'], vec!['F', 'R'], vec!['F', 'L'],
        vec!['U', 'B'], vec!['U', 'R'], vec!['U', 'F'], vec!['U', 'L'],
        vec!['D', 'F'], vec!['D', 'R'], vec!['D', 'B'], vec!['D', 'L'],
    ];
    assert forall|i: int| 0 <= i < 12 implies (#[trigger] r@[i])@ == edge_color_sets()[i] by {
        assert(r@[i]@ =~= edge_color_sets()[i]);
    }
    r
}

} // verus!
