//! Finite element types and elements.
use vstd::prelude::*;

verus! {

/// Supported finite element types.
#[derive(Debug, Clone, Copy, PartialEq, Eq, Structural)]
pub enum ElementType {
    /// 2-node line
    Line2,
    /// 3-node triangle
    Triangle3,
    /// 4-node quadrilateral
    Quad4,
    /// 4-node tetrahedron
    Tetrahedron4,
    /// 8-node hexahedron
    Hexahedron8,
    /// 6-node prism (wedge)
    Prism6,
    /// 5-node pyramid
    Pyramid5,
    /// 1-node point
    Point1,
    /// Unknown / unsupported type
    Unknown(i32),
}

/// The element type that a Gmsh type number denotes.
pub open spec fn spec_from_gmsh_type_id(id: i32) -> ElementType {
    if id == 15 {
        ElementType::Point1
    } else if id == 1 {
        ElementType::Line2
    } else if id == 2 {
        ElementType::Triangle3
    } else if id == 3 {
        ElementType::Quad4
    } else if id == 4 {
        ElementType::Tetrahedron4
    } else if id == 5 {
        ElementType::Hexahedron8
    } else if id == 6 {
        ElementType::Prism6
    } else if id == 7 {
        ElementType::Pyramid5
    } else {
        ElementType::Unknown(id)
    }
}

/// The Gmsh type number of a supported element type.
pub open spec fn spec_gmsh_type_id(t: ElementType) -> Option<i32> {
    match t {
        ElementType::Point1 => Some(15),
        ElementType::Line2 => Some(1),
        ElementType::Triangle3 => Some(2),
        ElementType::Quad4 => Some(3),
        ElementType::Tetrahedron4 => Some(4),
        ElementType::Hexahedron8 => Some(5),
        ElementType::Prism6 => Some(6),
        ElementType::Pyramid5 => Some(7),
        ElementType::Unknown(_) => None,
    }
}

/// Number of nodes of an element type.
pub open spec fn spec_node_count(t: ElementType) -> nat {
    match t {
        ElementType::Point1 => 1,
        ElementType::Line2 => 2,
        ElementType::Triangle3 => 3,
        ElementType::Quad4 => 4,
        ElementType::Tetrahedron4 => 4,
        ElementType::Hexahedron8 => 8,
        ElementType::Prism6 => 6,
        ElementType::Pyramid5 => 5,
        ElementType::Unknown(_) => 0,
    }
}

/// The dimension of the Gmsh element family of type number `id`: 0 for
/// points (15); 1 for lines (1, 8, 26–28); 2 for triangles (2, 9, 20–25) and
/// quadrangles (3, 10, 16, 36–51); 3 for tetrahedra (4, 11, 29–31),
/// hexahedra (5, 12, 17, 92, 93), prisms (6, 13, 18, 90, 91) and pyramids
/// (7, 14, 19, 118, 119); 0 for any other number.
pub open spec fn gmsh_family_dimension(id: i32) -> u8 {
    if id == 1 || id == 8 || (26 <= id <= 28) {
        1
    } else if id == 2 || id == 9 || (20 <= id <= 25) || id == 3 || id == 10 || id == 16 || (36 <= id <= 51) {
        2
    } else if id == 4 || id == 11 || (29 <= id <= 31) || id == 5 || id == 12 || id == 17 || id == 92 || id == 93
        || id == 6 || id == 13 || id == 18 || id == 90 || id == 91 || id == 7 || id == 14 || id == 19 || id == 118
        || id == 119 {
        3
    } else {
        0
    }
}

/// Topological dimension of an element type; an unknown type has the
/// dimension of its Gmsh family.
pub open spec fn spec_dimension(t: ElementType) -> u8 {
    match t {
        ElementType::Point1 => 0,
        ElementType::Line2 => 1,
        ElementType::Triangle3 | ElementType::Quad4 => 2,
        ElementType::Tetrahedron4
        | ElementType::Hexahedron8
        | ElementType::Prism6
        | ElementType::Pyramid5 => 3,
        ElementType::Unknown(id) => gmsh_family_dimension(id),
    }
}

/// The faces of a volume element type, as local node indices.
pub open spec fn spec_faces(t: ElementType) -> Seq<Seq<usize>> {
    match t {
        ElementType::Tetrahedron4 => seq![seq![0, 1, 2], seq![0, 1, 3], seq![1, 2, 3], seq![0, 2, 3]],
        ElementType::Hexahedron8 => seq![
            seq![0, 1, 2, 3],
            seq![4, 5, 6, 7],
            seq![0, 1, 5, 4],
            seq![2, 3, 7, 6],
            seq![0, 3, 7, 4],
            seq![1, 2, 6, 5],
        ],
        ElementType::Prism6 => seq![
            seq![0, 1, 2],
            seq![3, 4, 5],
            seq![0, 1, 4, 3],
            seq![1, 2, 5, 4],
            seq![0, 2, 5, 3],
        ],
        ElementType::Pyramid5 => seq![
            seq![0, 1, 2, 3],
            seq![0, 1, 4],
            seq![1, 2, 4],
            seq![2, 3, 4],
            seq![0, 3, 4],
        ],
        _ => seq![],
    }
}

/// The edges of an element type, as pairs of local node indices.
pub open spec fn spec_edges(t: ElementType) -> Seq<(usize, usize)> {
    match t {
        ElementType::Line2 => seq![(0, 1)],
        ElementType::Triangle3 => seq![(0, 1), (1, 2), (2, 0)],
        ElementType::Quad4 => seq![(0, 1), (1, 2), (2, 3), (3, 0)],
        ElementType::Tetrahedron4 => seq![(0, 1), (1, 2), (2, 0), (0, 3), (1, 3), (2, 3)],
        ElementType::Hexahedron8 => seq![
            (0, 1),
            (1, 2),
            (2, 3),
            (3, 0),
            (4, 5),
            (5, 6),
            (6, 7),
            (7, 4),
            (0, 4),
            (1, 5),
            (2, 6),
            (3, 7),
        ],
        ElementType::Prism6 => seq![
            (0, 1),
            (1, 2),
            (2, 0),
            (3, 4),
            (4, 5),
            (5, 3),
            (0, 3),
            (1, 4),
            (2, 5),
        ],
        ElementType::Pyramid5 => seq![
            (0, 1),
            (1, 2),
            (2, 3),
            (3, 0),
            (0, 4),
            (1, 4),
            (2, 4),
            (3, 4),
        ],
        _ => seq![],
    }
}

/// The faces in `v`, seen as sequences of local node indices.
pub open spec fn faces_view(v: Seq<Vec<usize>>) -> Seq<Seq<usize>> {
    v.map_values(|f: Vec<usize>| f@)
}

/// The dimension of the Gmsh element family of type number `id`.
fn family_dimension(id: i32) -> (d: u8)
    ensures
        d == gmsh_family_dimension(id),
{
    if id == 1 || id == 8 || (26 <= id && id <= 28) {
        1
    } else if id == 2 || id == 9 || (20 <= id && id <= 25) || id == 3 || id == 10 || id == 16 || (36 <= id && id
        <= 51) {
        2
    } else if id == 4 || id == 11 || (29 <= id && id <= 31) || id == 5 || id == 12 || id == 17 || id == 92 || id
        == 93 || id == 6 || id == 13 || id == 18 || id == 90 || id == 91 || id == 7 || id == 14 || id == 19 || id
        == 118 || id == 119 {
        3
    } else {
        0
    }
}

impl ElementType {
    /// Convert from Gmsh element type ID (MSH v4 format).
    pub fn from_gmsh_type_id(id: i32) -> (t: Self)
        ensures
            t == spec_from_gmsh_type_id(id),
    {
        match id {
            15 => ElementType::Point1,
            1 => ElementType::Line2,
            2 => ElementType::Triangle3,
            3 => ElementType::Quad4,
            4 => ElementType::Tetrahedron4,
            5 => ElementType::Hexahedron8,
            6 => ElementType::Prism6,
            7 => ElementType::Pyramid5,
            _ => ElementType::Unknown(id),
        }
    }

    /// Number of nodes for this element type.
    pub fn node_count(&self) -> (n: usize)
        ensures
            n == spec_node_count(*self),
    {
        match self {
            ElementType::Point1 => 1,
            ElementType::Line2 => 2,
            ElementType::Triangle3 => 3,
            ElementType::Quad4 => 4,
            ElementType::Tetrahedron4 => 4,
            ElementType::Hexahedron8 => 8,
            ElementType::Prism6 => 6,
            ElementType::Pyramid5 => 5,
            ElementType::Unknown(_) => 0,
        }
    }

    /// Topological dimension of this element (0=point, 1=edge, 2=face, 3=volume);
    /// an unknown type has the dimension of its Gmsh family.
    pub fn dimension(&self) -> (d: u8)
        ensures
            d == spec_dimension(*self),
    {
        match self {
            ElementType::Point1 => 0,
            ElementType::Line2 => 1,
            ElementType::Triangle3 | ElementType::Quad4 => 2,
            ElementType::Tetrahedron4
            | ElementType::Hexahedron8
            | ElementType::Prism6
            | ElementType::Pyramid5 => 3,
            ElementType::Unknown(id) => family_dimension(*id),
        }
    }

    /// Return the faces of a volume element as lists of local node indices
    /// (3 for triangular faces, 4 for quad faces).
    pub fn faces(&self) -> (r: Vec<Vec<usize>>)
        ensures
            faces_view(r@) == spec_faces(*self),
    {
        let r = match self {
            ElementType::Tetrahedron4 => vec![
                vec![0, 1, 2],
                vec![0, 1, 3],
                vec![1, 2, 3],
                vec![0, 2, 3],
            ],
            ElementType::Hexahedron8 => vec![
                vec![0, 1, 2, 3],
                vec![4, 5, 6, 7],
                vec![0, 1, 5, 4],
                vec![2, 3, 7, 6],
                vec![0, 3, 7, 4],
                vec![1, 2, 6, 5],
            ],
            ElementType::Prism6 => vec![
                vec![0, 1, 2],
                vec![3, 4, 5],
                vec![0, 1, 4, 3],
                vec![1, 2, 5, 4],
                vec![0, 2, 5, 3],
            ],
            ElementType::Pyramid5 => vec![
                vec![0, 1, 2, 3],
                vec![0, 1, 4],
                vec![1, 2, 4],
                vec![2, 3, 4],
                vec![0, 3, 4],
            ],
            _ => Vec::new(),
        };
        assert(faces_view(r@) =~= spec_faces(*self));
        r
    }

    /// Return the edges of an element as pairs of local node indices.
    pub fn edges(&self) -> (r: Vec<(usize, usize)>)
        ensures
            r@ == spec_edges(*self),
    {
        let r = match self {
            ElementType::Line2 => vec![(0, 1)],
            ElementType::Triangle3 => vec![(0, 1), (1, 2), (2, 0)],
            ElementType::Quad4 => vec![(0, 1), (1, 2), (2, 3), (3, 0)],
            ElementType::Tetrahedron4 => vec![(0, 1), (1, 2), (2, 0), (0, 3), (1, 3), (2, 3)],
            ElementType::Hexahedron8 => vec![
                (0, 1),
                (1, 2),
                (2, 3),
                (3, 0),
                (4, 5),
                (5, 6),
                (6, 7),
                (7, 4),
                (0, 4),
                (1, 5),
                (2, 6),
                (3, 7),
            ],
            ElementType::Prism6 => vec![
                (0, 1),
                (1, 2),
                (2, 0),
                (3, 4),
                (4, 5),
                (5, 3),
                (0, 3),
                (1, 4),
                (2, 5),
            ],
            ElementType::Pyramid5 => vec![
                (0, 1),
                (1, 2),
                (2, 3),
                (3, 0),
                (0, 4),
                (1, 4),
                (2, 4),
                (3, 4),
            ],
            _ => Vec::new(),
        };
        assert(r@ =~= spec_edges(*self));
        r
    }
}

/// Reading a type number back from a supported type gives that type, and a
/// number names a supported type exactly when it is one of the eight known
/// numbers, which it is then read back as.
pub proof fn lemma_gmsh_type_id_roundtrip(t: ElementType, id: i32)
    ensures
        spec_gmsh_type_id(t) matches Some(n) ==> spec_from_gmsh_type_id(n) == t,
        spec_gmsh_type_id(spec_from_gmsh_type_id(id)) is Some <==> (1 <= id <= 7 || id == 15),
        spec_gmsh_type_id(spec_from_gmsh_type_id(id)) is Some ==> spec_gmsh_type_id(
            spec_from_gmsh_type_id(id),
        ) == Some(id),
{
}

/// Every face and edge of an element type refers to local nodes that the
/// type has, only volume types have faces, every known volume type has
/// faces, and every supported type with more than one node has edges.
pub proof fn lemma_local_indices_in_range(t: ElementType)
    ensures
        forall|f: int, j: int|
            0 <= f < spec_faces(t).len() && 0 <= j < spec_faces(t)[f].len() ==> spec_faces(t)[f][j]
                < spec_node_count(t),
        forall|f: int| 0 <= f < spec_faces(t).len() ==> 3 <= #[trigger] spec_faces(t)[f].len() <= 4,
        forall|e: int|
            0 <= e < spec_edges(t).len() ==> (#[trigger] spec_edges(t)[e]).0 < spec_node_count(t)
                && spec_edges(t)[e].1 < spec_node_count(t),
        spec_faces(t).len() > 0 ==> spec_dimension(t) == 3,
        !(t is Unknown) ==> (spec_faces(t).len() > 0) == (spec_dimension(t) == 3),
        (spec_edges(t).len() > 0) == (spec_node_count(t) > 1),
{
}

/// Edge `e` joins local nodes `a` and `b`, either way round.
pub open spec fn joins(e: (usize, usize), a: usize, b: usize) -> bool {
    (e.0 == a && e.1 == b) || (e.0 == b && e.1 == a)
}

/// One of the first `n` edges of `es` joins `a` and `b`.
pub open spec fn edge_among(es: Seq<(usize, usize)>, n: nat, a: usize, b: usize) -> bool
    decreases n,
{
    if n == 0 {
        false
    } else {
        edge_among(es, (n - 1) as nat, a, b) || joins(es[n - 1], a, b)
    }
}

/// One of the first `k` sides of face `f` (side `i` runs from corner `i` to
/// the next, the last back to the first) joins `a` and `b`.
pub open spec fn side_among(f: Seq<usize>, k: nat, a: usize, b: usize) -> bool
    decreases k,
{
    if k == 0 {
        false
    } else {
        side_among(f, (k - 1) as nat, a, b) || joins((f[k - 1], f[(k % f.len()) as int]), a, b)
    }
}

/// How many of the first `n` faces of `fs` have a side joining `a` and `b`.
pub open spec fn faces_with_side(fs: Seq<Seq<usize>>, n: nat, a: usize, b: usize) -> nat
    decreases n,
{
    if n == 0 {
        0
    } else {
        faces_with_side(fs, (n - 1) as nat, a, b) + if side_among(fs[n - 1], fs[n - 1].len(), a, b) {
            1nat
        } else {
            0nat
        }
    }
}

/// Side `i` of face `f` of type `t` is an edge of `t`.
pub open spec fn side_is_edge(t: ElementType, f: int, i: int) -> bool {
    let fs = spec_faces(t);
    edge_among(spec_edges(t), spec_edges(t).len(), fs[f][i], fs[f][(i + 1) % (fs[f].len() as int)])
}

/// Edge `e` of type `t` is a side of exactly two of its faces.
pub open spec fn edge_of_two_faces(t: ElementType, e: int) -> bool {
    faces_with_side(spec_faces(t), spec_faces(t).len(), spec_edges(t)[e].0, spec_edges(t)[e].1) == 2
}

/// The faces of type `t` close up over its edges.
pub open spec fn closes_up(t: ElementType) -> bool {
    &&& forall|f: int, i: int|
        0 <= f < spec_faces(t).len() && 0 <= i < spec_faces(t)[f].len() ==> #[trigger] side_is_edge(t, f, i)
    &&& forall|e: int| 0 <= e < spec_edges(t).len() ==> #[trigger] edge_of_two_faces(t, e)
    &&& spec_node_count(t) + spec_faces(t).len() == spec_edges(t).len() + 2
}

proof fn lemma_tetrahedron_closes_up()
    ensures
        closes_up(ElementType::Tetrahedron4),
{
    reveal_with_fuel(edge_among, 13);
    reveal_with_fuel(side_among, 5);
    reveal_with_fuel(faces_with_side, 7);
    let fs = spec_faces(ElementType::Tetrahedron4);
    let es = spec_edges(ElementType::Tetrahedron4);
    assert(edge_among(es, es.len(), fs[0][0], fs[0][1]));
    assert(edge_among(es, es.len(), fs[0][1], fs[0][2]));
    assert(edge_among(es, es.len(), fs[0][2], fs[0][0]));
    assert(edge_among(es, es.len(), fs[1][0], fs[1][1]));
    assert(edge_among(es, es.len(), fs[1][1], fs[1][2]));
    assert(edge_among(es, es.len(), fs[1][2], fs[1][0]));
    assert(edge_among(es, es.len(), fs[2][0], fs[2][1]));
    assert(edge_among(es, es.len(), fs[2][1], fs[2][2]));
    assert(edge_among(es, es.len(), fs[2][2], fs[2][0]));
    assert(edge_among(es, es.len(), fs[3][0], fs[3][1]));
    assert(edge_among(es, es.len(), fs[3][1], fs[3][2]));
    assert(edge_among(es, es.len(), fs[3][2], fs[3][0]));
    assert(faces_with_side(fs, fs.len(), es[0].0, es[0].1) == 2);
    assert(faces_with_side(fs, fs.len(), es[1].0, es[1].1) == 2);
    assert(faces_with_side(fs, fs.len(), es[2].0, es[2].1) == 2);
    assert(faces_with_side(fs, fs.len(), es[3].0, es[3].1) == 2);
    assert(faces_with_side(fs, fs.len(), es[4].0, es[4].1) == 2);
    assert(faces_with_side(fs, fs.len(), es[5].0, es[5].1) == 2);
    assert forall|f: int, i: int| 0 <= f < fs.len() && 0 <= i < fs[f].len() implies #[trigger] side_is_edge(
        ElementType::Tetrahedron4,
        f,
        i,
    ) by {
        assert(f == 0 || f == 1 || f == 2 || f == 3);
        assert(i == 0 || i == 1 || i == 2 || i == 3);
    }
    assert forall|e: int| 0 <= e < es.len() implies #[trigger] edge_of_two_faces(ElementType::Tetrahedron4, e) by {
        assert(e == 0 || e == 1 || e == 2 || e == 3 || e == 4 || e == 5);
    }
}

proof fn lemma_hexahedron_closes_up()
    ensures
        closes_up(ElementType::Hexahedron8),
{
    reveal_with_fuel(edge_among, 13);
    reveal_with_fuel(side_among, 5);
    reveal_with_fuel(faces_with_side, 7);
    let fs = spec_faces(ElementType::Hexahedron8);
    let es = spec_edges(ElementType::Hexahedron8);
    assert(edge_among(es, es.len(), fs[0][0], fs[0][1]));
    assert(edge_among(es, es.len(), fs[0][1], fs[0][2]));
    assert(edge_among(es, es.len(), fs[0][2], fs[0][3]));
    assert(edge_among(es, es.len(), fs[0][3], fs[0][0]));
    assert(edge_among(es, es.len(), fs[1][0], fs[1][1]));
    assert(edge_among(es, es.len(), fs[1][1], fs[1][2]));
    assert(edge_among(es, es.len(), fs[1][2], fs[1][3]));
    assert(edge_among(es, es.len(), fs[1][3], fs[1][0]));
    assert(edge_among(es, es.len(), fs[2][0], fs[2][1]));
    assert(edge_among(es, es.len(), fs[2][1], fs[2][2]));
    assert(edge_among(es, es.len(), fs[2][2], fs[2][3]));
    assert(edge_among(es, es.len(), fs[2][3], fs[2][0]));
    assert(edge_among(es, es.len(), fs[3][0], fs[3][1]));
    assert(edge_among(es, es.len(), fs[3][1], fs[3][2]));
    assert(edge_among(es, es.len(), fs[3][2], fs[3][3]));
    assert(edge_among(es, es.len(), fs[3][3], fs[3][0]));
    assert(edge_among(es, es.len(), fs[4][0], fs[4][1]));
    assert(edge_among(es, es.len(), fs[4][1], fs[4][2]));
    assert(edge_among(es, es.len(), fs[4][2], fs[4][3]));
    assert(edge_among(es, es.len(), fs[4][3], fs[4][0]));
    assert(edge_among(es, es.len(), fs[5][0], fs[5][1]));
    assert(edge_among(es, es.len(), fs[5][1], fs[5][2]));
    assert(edge_among(es, es.len(), fs[5][2], fs[5][3]));
    assert(edge_among(es, es.len(), fs[5][3], fs[5][0]));
    assert(faces_with_side(fs, fs.len(), es[0].0, es[0].1) == 2);
    assert(faces_with_side(fs, fs.len(), es[1].0, es[1].1) == 2);
    assert(faces_with_side(fs, fs.len(), es[2].0, es[2].1) == 2);
    assert(faces_with_side(fs, fs.len(), es[3].0, es[3].1) == 2);
    assert(faces_with_side(fs, fs.len(), es[4].0, es[4].1) == 2);
    assert(faces_with_side(fs, fs.len(), es[5].0, es[5].1) == 2);
    assert(faces_with_side(fs, fs.len(), es[6].0, es[6].1) == 2);
    assert(faces_with_side(fs, fs.len(), es[7].0, es[7].1) == 2);
    assert(faces_with_side(fs, fs.len(), es[8].0, es[8].1) == 2);
    assert(faces_with_side(fs, fs.len(), es[9].0, es[9].1) == 2);
    assert(faces_with_side(fs, fs.len(), es[10].0, es[10].1) == 2);
    assert(faces_with_side(fs, fs.len(), es[11].0, es[11].1) == 2);
    assert forall|f: int, i: int| 0 <= f < fs.len() && 0 <= i < fs[f].len() implies #[trigger] side_is_edge(
        ElementType::Hexahedron8,
        f,
        i,
    ) by {
        assert(f == 0 || f == 1 || f == 2 || f == 3 || f == 4 || f == 5);
        assert(i == 0 || i == 1 || i == 2 || i == 3);
    }
    assert forall|e: int| 0 <= e < es.len() implies #[trigger] edge_of_two_faces(ElementType::Hexahedron8, e) by {
        assert(e == 0 || e == 1 || e == 2 || e == 3 || e == 4 || e == 5 || e == 6 || e == 7 || e == 8 || e == 9 || e == 10 || e == 11);
    }
}

proof fn lemma_prism_closes_up()
    ensures
        closes_up(ElementType::Prism6),
{
    reveal_with_fuel(edge_among, 13);
    reveal_with_fuel(side_among, 5);
    reveal_with_fuel(faces_with_side, 7);
    let fs = spec_faces(ElementType::Prism6);
    let es = spec_edges(ElementType::Prism6);
    assert(edge_among(es, es.len(), fs[0][0], fs[0][1]));
    assert(edge_among(es, es.len(), fs[0][1], fs[0][2]));
    assert(edge_among(es, es.len(), fs[0][2], fs[0][0]));
    assert(edge_among(es, es.len(), fs[1][0], fs[1][1]));
    assert(edge_among(es, es.len(), fs[1][1], fs[1][2]));
    assert(edge_among(es, es.len(), fs[1][2], fs[1][0]));
    assert(edge_among(es, es.len(), fs[2][0], fs[2][1]));
    assert(edge_among(es, es.len(), fs[2][1], fs[2][2]));
    assert(edge_among(es, es.len(), fs[2][2], fs[2][3]));
    assert(edge_among(es, es.len(), fs[2][3], fs[2][0]));
    assert(edge_among(es, es.len(), fs[3][0], fs[3][1]));
    assert(edge_among(es, es.len(), fs[3][1], fs[3][2]));
    assert(edge_among(es, es.len(), fs[3][2], fs[3][3]));
    assert(edge_among(es, es.len(), fs[3][3], fs[3][0]));
    assert(edge_among(es, es.len(), fs[4][0], fs[4][1]));
    assert(edge_among(es, es.len(), fs[4][1], fs[4][2]));
    assert(edge_among(es, es.len(), fs[4][2], fs[4][3]));
    assert(edge_among(es, es.len(), fs[4][3], fs[4][0]));
    assert(faces_with_side(fs, fs.len(), es[0].0, es[0].1) == 2);
    assert(faces_with_side(fs, fs.len(), es[1].0, es[1].1) == 2);
    assert(faces_with_side(fs, fs.len(), es[2].0, es[2].1) == 2);
    assert(faces_with_side(fs, fs.len(), es[3].0, es[3].1) == 2);
    assert(faces_with_side(fs, fs.len(), es[4].0, es[4].1) == 2);
    assert(faces_with_side(fs, fs.len(), es[5].0, es[5].1) == 2);
    assert(faces_with_side(fs, fs.len(), es[6].0, es[6].1) == 2);
    assert(faces_with_side(fs, fs.len(), es[7].0, es[7].1) == 2);
    assert(faces_with_side(fs, fs.len(), es[8].0, es[8].1) == 2);
    assert forall|f: int, i: int| 0 <= f < fs.len() && 0 <= i < fs[f].len() implies #[trigger] side_is_edge(
        ElementType::Prism6,
        f,
        i,
    ) by {
        assert(f == 0 || f == 1 || f == 2 || f == 3 || f == 4);
        assert(i == 0 || i == 1 || i == 2 || i == 3);
    }
    assert forall|e: int| 0 <= e < es.len() implies #[trigger] edge_of_two_faces(ElementType::Prism6, e) by {
        assert(e == 0 || e == 1 || e == 2 || e == 3 || e == 4 || e == 5 || e == 6 || e == 7 || e == 8);
    }
}

proof fn lemma_pyramid_closes_up()
    ensures
        closes_up(ElementType::Pyramid5),
{
    reveal_with_fuel(edge_among, 13);
    reveal_with_fuel(side_among, 5);
    reveal_with_fuel(faces_with_side, 7);
    let fs = spec_faces(ElementType::Pyramid5);
    let es = spec_edges(ElementType::Pyramid5);
    assert(edge_among(es, es.len(), fs[0][0], fs[0][1]));
    assert(edge_among(es, es.len(), fs[0][1], fs[0][2]));
    assert(edge_among(es, es.len(), fs[0][2], fs[0][3]));
    assert(edge_among(es, es.len(), fs[0][3], fs[0][0]));
    assert(edge_among(es, es.len(), fs[1][0], fs[1][1]));
    assert(edge_among(es, es.len(), fs[1][1], fs[1][2]));
    assert(edge_among(es, es.len(), fs[1][2], fs[1][0]));
    assert(edge_among(es, es.len(), fs[2][0], fs[2][1]));
    assert(edge_among(es, es.len(), fs[2][1], fs[2][2]));
    assert(edge_among(es, es.len(), fs[2][2], fs[2][0]));
    assert(edge_among(es, es.len(), fs[3][0], fs[3][1]));
    assert(edge_among(es, es.len(), fs[3][1], fs[3][2]));
    assert(edge_among(es, es.len(), fs[3][2], fs[3][0]));
    assert(edge_among(es, es.len(), fs[4][0], fs[4][1]));
    assert(edge_among(es, es.len(), fs[4][1], fs[4][2]));
    assert(edge_among(es, es.len(), fs[4][2], fs[4][0]));
    assert(faces_with_side(fs, fs.len(), es[0].0, es[0].1) == 2);
    assert(faces_with_side(fs, fs.len(), es[1].0, es[1].1) == 2);
    assert(faces_with_side(fs, fs.len(), es[2].0, es[2].1) == 2);
    assert(faces_with_side(fs, fs.len(), es[3].0, es[3].1) == 2);
    assert(faces_with_side(fs, fs.len(), es[4].0, es[4].1) == 2);
    assert(faces_with_side(fs, fs.len(), es[5].0, es[5].1) == 2);
    assert(faces_with_side(fs, fs.len(), es[6].0, es[6].1) == 2);
    assert(faces_with_side(fs, fs.len(), es[7].0, es[7].1) == 2);
    assert forall|f: int, i: int| 0 <= f < fs.len() && 0 <= i < fs[f].len() implies #[trigger] side_is_edge(
        ElementType::Pyramid5,
        f,
        i,
    ) by {
        assert(f == 0 || f == 1 || f == 2 || f == 3 || f == 4);
        assert(i == 0 || i == 1 || i == 2 || i == 3);
    }
    assert forall|e: int| 0 <= e < es.len() implies #[trigger] edge_of_two_faces(ElementType::Pyramid5, e) by {
        assert(e == 0 || e == 1 || e == 2 || e == 3 || e == 4 || e == 5 || e == 6 || e == 7);
    }
}

/// The faces of a volume type close up over its edges: every side of every
/// face (from each corner to the next, the last back to the first) is an
/// edge, every edge is a side of exactly two faces, and the nodes less the
/// edges plus the faces make two.
pub proof fn lemma_faces_close_up(t: ElementType)
    requires
        t is Tetrahedron4 || t is Hexahedron8 || t is Prism6 || t is Pyramid5,
    ensures
        closes_up(t),
{
    match t {
        ElementType::Tetrahedron4 => lemma_tetrahedron_closes_up(),
        ElementType::Hexahedron8 => lemma_hexahedron_closes_up(),
        ElementType::Prism6 => lemma_prism_closes_up(),
        _ => lemma_pyramid_closes_up(),
    }
}

/// The mathematical value of an element.
pub struct ElementView {
    pub id: u64,
    pub etype: ElementType,
    pub physical_tag: Option<i32>,
    pub node_ids: Seq<u64>,
}

/// A finite element consisting of a type and connectivity (node IDs).
#[derive(Debug)]
pub struct Element {
    pub id: u64,
    pub etype: ElementType,
    /// Physical group tag
    pub physical_tag: Option<i32>,
    /// Node IDs forming this element (global IDs referencing `Node::id`).
    pub node_ids: Vec<u64>,
}

impl View for Element {
    type V = ElementView;

    open spec fn view(&self) -> ElementView {
        ElementView {
            id: self.id,
            etype: self.etype,
            physical_tag: self.physical_tag,
            node_ids: self.node_ids@,
        }
    }
}

impl Element {
    pub fn new(id: u64, etype: ElementType, node_ids: Vec<u64>) -> (e: Self)
        ensures
            e@ == (ElementView { id, etype, physical_tag: None, node_ids: node_ids@ }),
    {
        Self { id, etype, physical_tag: None, node_ids }
    }

    pub fn dimension(&self) -> (d: u8)
        ensures
            d == spec_dimension(self.etype),
    {
        self.etype.dimension()
    }

    /// A copy of this element.
    pub fn duplicate(&self) -> (e: Self)
        ensures
            e@ == self@,
    {
        let mut node_ids: Vec<u64> = Vec::new();
        let mut i: usize = 0;
        while i < self.node_ids.len()
            invariant
                i <= self.node_ids@.len(),
                node_ids@ == self.node_ids@.take(i as int),
            decreases self.node_ids@.len() - i,
        {
            node_ids.push(self.node_ids[i]);
            i = i + 1;
            assert(node_ids@ =~= self.node_ids@.take(i as int));
        }
        assert(node_ids@ =~= self.node_ids@);
        Element { id: self.id, etype: self.etype, physical_tag: self.physical_tag, node_ids }
    }
}

} // verus!
