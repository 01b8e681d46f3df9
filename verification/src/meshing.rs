//! Settings, errors and combinatorial helpers of the meshing algorithms.
use vstd::prelude::*;

verus! {

// ─── Errors ──────────────────────────────────────────────────────────────────

/// Error of a meshing algorithm.
#[derive(Debug)]
pub enum MeshAlgoError {
    /// The algorithm failed to produce a mesh.
    Generation(String),
    /// The input or parameters are not acceptable.
    InvalidInput(String),
    /// The requested operation is not implemented.
    NotImplemented,
}

/// Error type for 2-D mesh generation.
#[derive(Debug)]
pub enum MeshError {
    /// Mesh generation failed.
    Generation(String),
}

/// Error type for 3-D mesh generation.
#[derive(Debug)]
pub enum Mesh3DError {
    /// 3-D meshing failed.
    Generation(String),
}

// ─── Settings ────────────────────────────────────────────────────────────────

/// The quality measure used to score elements and guide optimization.
#[derive(Debug, Clone, Copy, PartialEq, Eq, Structural)]
pub enum QualityMetric {
    /// Minimum interior angle (triangles) or dihedral angle (tetrahedra).
    MinAngle,
    /// Radius-edge ratio (3-D only).
    RadiusEdgeRatio,
    /// Scaled Jacobian, in `[-1, 1]`.
    ScaledJacobian,
    /// Longest edge over inscribed sphere diameter.
    AspectRatio,
}

impl Default for QualityMetric {
    fn default() -> (m: Self)
        ensures
            m == QualityMetric::MinAngle,
    {
        QualityMetric::MinAngle
    }
}

/// Strategy for producing a quad mesh.
#[derive(Debug, Clone, Copy, PartialEq, Eq, Structural)]
pub enum QuadStrategy {
    /// Packing of parallelograms: cross field, streamlines and patches.
    PackingOfParallelograms,
    /// Quasi-structured quads, better aligned on smooth geometry.
    QuasiStructured,
    /// Triangulate, then recombine triangles into quads.
    Recombine,
}

impl Default for QuadStrategy {
    fn default() -> (s: Self)
        ensures
            s == QuadStrategy::PackingOfParallelograms,
    {
        QuadStrategy::PackingOfParallelograms
    }
}

/// Quad-paving 2-D mesher settings.
#[derive(Debug, Clone)]
pub struct QuadPaving2D {
    /// Which quad-generation strategy to use.
    pub strategy: QuadStrategy,
    /// Number of cross-field smoothing iterations.
    pub cross_field_iterations: u32,
    /// Whether remaining triangles are an error rather than left in place.
    pub require_pure_quad: bool,
}

impl Default for QuadPaving2D {
    fn default() -> (q: Self)
        ensures
            q.strategy == QuadStrategy::PackingOfParallelograms,
            q.cross_field_iterations == 100,
            !q.require_pure_quad,
    {
        QuadPaving2D {
            strategy: QuadStrategy::PackingOfParallelograms,
            cross_field_iterations: 100,
            require_pure_quad: false,
        }
    }
}

impl QuadPaving2D {
    /// The default settings.
    pub fn new() -> (q: Self)
        ensures
            q.strategy == QuadStrategy::PackingOfParallelograms,
            q.cross_field_iterations == 100,
            !q.require_pure_quad,
    {
        Self::default()
    }
}

// ─── Triangles ───────────────────────────────────────────────────────────────

/// Whether `x`–`y` is the edge `a`–`b`, either way round.
pub open spec fn same_edge(x: usize, y: usize, a: usize, b: usize) -> bool {
    (x == a && y == b) || (x == b && y == a)
}

/// Whether `a`–`b` is one of the edges `(t0, t1)`, `(t1, t2)`, `(t2, t0)`
/// of triangle `t`, either way round.
pub open spec fn spec_tri_has_edge(t: Seq<usize>, a: usize, b: usize) -> bool {
    same_edge(t[0], t[1], a, b) || same_edge(t[1], t[2], a, b) || same_edge(t[2], t[0], a, b)
}

/// Whether triangle `tri` has the edge `a`–`b`, in either direction.
pub fn tri_has_edge(tri: [usize; 3], a: usize, b: usize) -> (r: bool)
    ensures
        r == spec_tri_has_edge(tri@, a, b),
{
    let edges = [[tri[0], tri[1]], [tri[1], tri[2]], [tri[2], tri[0]]];
    let mut e: usize = 0;
    while e < 3
        invariant
            e <= 3,
            edges@ == seq![[tri@[0], tri@[1]], [tri@[1], tri@[2]], [tri@[2], tri@[0]]],
            e > 0 ==> !same_edge(tri@[0], tri@[1], a, b),
            e > 1 ==> !same_edge(tri@[1], tri@[2], a, b),
            e > 2 ==> !same_edge(tri@[2], tri@[0], a, b),
        decreases 3 - e,
    {
        let x = edges[e];
        if (x[0] == a && x[1] == b) || (x[0] == b && x[1] == a) {
            return true;
        }
        e = e + 1;
    }
    false
}

/// The nodes of `ta` that `tb` also has, in the order of `ta`.
pub open spec fn shared_nodes(ta: Seq<usize>, tb: Seq<usize>) -> Seq<usize>
    decreases ta.len(),
{
    if ta.len() == 0 {
        seq![]
    } else {
        let r = shared_nodes(ta.drop_last(), tb);
        if tb.contains(ta.last()) {
            r.push(ta.last())
        } else {
            r
        }
    }
}

/// The first node of `t` that `s` lacks, if any.
pub open spec fn first_not_in(t: Seq<usize>, s: Seq<usize>) -> Option<usize>
    decreases t.len(),
{
    if t.len() == 0 {
        None
    } else if !s.contains(t[0]) {
        Some(t[0])
    } else {
        first_not_in(t.drop_first(), s)
    }
}

/// What merging two triangles along their shared edge gives: the corner of
/// `ta` off the edge, the first shared node, the corner of `tb` off the
/// edge, the second shared node; nothing unless they share exactly two
/// nodes.
pub open spec fn spec_recombine(ta: Seq<usize>, tb: Seq<usize>) -> Option<Seq<usize>> {
    let sh = shared_nodes(ta, tb);
    if sh.len() != 2 {
        None
    } else {
        match (first_not_in(ta, sh), first_not_in(tb, sh)) {
            (Some(a), Some(b)) => Some(seq![a, sh[0], b, sh[1]]),
            _ => None,
        }
    }
}

/// Whether `s` holds `x`.
fn holds(s: &Vec<usize>, x: usize) -> (r: bool)
    ensures
        r == s@.contains(x),
{
    let mut i: usize = 0;
    while i < s.len()
        invariant
            i <= s@.len(),
            forall|q: int| 0 <= q < i ==> s@[q] != x,
        decreases s@.len() - i,
    {
        if s[i] == x {
            assert(s@[i as int] == x);
            return true;
        }
        i = i + 1;
    }
    false
}

/// The first node of `t` that `s` lacks, if any.
fn first_missing_node(t: &Vec<usize>, s: &Vec<usize>) -> (r: Option<usize>)
    ensures
        r == first_not_in(t@, s@),
{
    let mut i: usize = 0;
    assert(t@.skip(0) =~= t@);
    while i < t.len()
        invariant
            i <= t@.len(),
            first_not_in(t@, s@) == first_not_in(t@.skip(i as int), s@),
        decreases t@.len() - i,
    {
        assert(t@.skip(i as int)[0] == t@[i as int]);
        assert(t@.skip(i as int).drop_first() =~= t@.skip(i + 1));
        if !holds(s, t[i]) {
            return Some(t[i]);
        }
        i = i + 1;
    }
    assert(t@.skip(i as int) =~= Seq::<usize>::empty());
    None
}

/// Merges two adjacent triangles into a quadrilateral along their shared
/// edge: the corner of `tri_a` off the edge, the first shared node, the
/// corner of `tri_b` off the edge, the second shared node. `None` unless
/// the triangles share exactly two nodes.
pub fn recombine_triangle_pair(tri_a: [usize; 3], tri_b: [usize; 3]) -> (r: Option<[usize; 4]>)
    ensures
        match spec_recombine(tri_a@, tri_b@) {
            Some(q) => r matches Some(x) && x@ == q,
            None => r is None,
        },
{
    let ta = vec![tri_a[0], tri_a[1], tri_a[2]];
    let tb = vec![tri_b[0], tri_b[1], tri_b[2]];
    assert(ta@ =~= tri_a@);
    assert(tb@ =~= tri_b@);
    let mut shared: Vec<usize> = Vec::new();
    let mut i: usize = 0;
    assert(ta@.take(0) =~= Seq::<usize>::empty());
    while i < 3
        invariant
            i <= 3,
            ta@ == tri_a@,
            tb@ == tri_b@,
            shared@ == shared_nodes(ta@.take(i as int), tb@),
        decreases 3 - i,
    {
        assert(ta@.take(i + 1).drop_last() =~= ta@.take(i as int));
        if holds(&tb, ta[i]) {
            shared.push(ta[i]);
        }
        i = i + 1;
    }
    assert(ta@.take(3) =~= ta@);
    if shared.len() != 2 {
        return None;
    }
    match first_missing_node(&ta, &shared) {
        None => None,
        Some(a_only) => match first_missing_node(&tb, &shared) {
            None => None,
            Some(b_only) => {
                let q = [a_only, shared[0], b_only, shared[1]];
                assert(q@ =~= seq![a_only, shared@[0], b_only, shared@[1]]);
                Some(q)
            },
        },
    }
}

// ─── Bistellar flips ─────────────────────────────────────────────────────────

/// The kind of a 3-D bistellar flip.
#[derive(Debug, Clone, Copy, PartialEq, Eq, Structural)]
pub enum BistellarFlipType {
    /// Two tetrahedra sharing a face become three sharing an edge.
    TwoToThree,
    /// Three tetrahedra sharing an edge become two sharing a face.
    ThreeToTwo,
    /// Four tetrahedra around a degree-4 edge become four others.
    FourToFour,
}

/// A 3-D bistellar flip on the tetrahedra sharing an edge or a face; not
/// implemented yet: it leaves the tetrahedra unchanged and reports so.
pub fn bistellar_flip(
    tets: &mut Vec<[usize; 4]>,
    flip_type: BistellarFlipType,
    edge_or_face: &[usize],
) -> (r: Result<(), MeshAlgoError>)
    ensures
        final(tets)@ == old(tets)@,
        r matches Err(MeshAlgoError::NotImplemented),
{
    Err(MeshAlgoError::NotImplemented)
}

} // verus!
