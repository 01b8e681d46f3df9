//! What rendering draws of a mesh, as node IDs and indices: the faces of its
//! surface, the fan triangles of a polygon, the triangle index buffer of a
//! list of faces, and the distinct edges of a wireframe.
use vstd::prelude::*;

use crate::boundary::{boundary_faces, first_inconsistent, lists_view, spec_boundary_faces};
use crate::element::{spec_dimension, spec_edges, spec_node_count, ElementView};
use crate::mesh::{elements_view, Mesh};

verus! {

// ─── Fans ────────────────────────────────────────────────────────────────────

/// The fan triangles of a polygon with `n` vertices, as vertex indices:
/// `[0, i, i + 1]` for `i` from 1 to `n - 2`; none for fewer than three.
pub open spec fn spec_fan(n: nat) -> Seq<Seq<usize>> {
    if n < 3 {
        seq![]
    } else {
        Seq::new((n - 2) as nat, |i: int| seq![0usize, (i + 1) as usize, (i + 2) as usize])
    }
}

/// Triangulates a polygon face with `vertex_count` vertices as a fan from
/// its first vertex; the triangles are index triples into the vertices.
pub fn fan_triangulate(vertex_count: usize) -> (r: Vec<[usize; 3]>)
    ensures
        r@.map_values(|t: [usize; 3]| t@) == spec_fan(vertex_count as nat),
{
    let mut r: Vec<[usize; 3]> = Vec::new();
    if vertex_count < 3 {
        assert(r@.map_values(|t: [usize; 3]| t@) =~= spec_fan(vertex_count as nat));
        return r;
    }
    let ghost want = spec_fan(vertex_count as nat);
    let mut i: usize = 1;
    while i < vertex_count - 1
        invariant
            1 <= i <= vertex_count - 1,
            vertex_count >= 3,
            want == spec_fan(vertex_count as nat),
            r@.map_values(|t: [usize; 3]| t@) == want.take(i - 1),
        decreases vertex_count - i,
    {
        let t = [0, i, i + 1];
        let ghost prev = r@;
        r.push(t);
        assert(t@ =~= want[i - 1]);
        assert(r@.map_values(|t: [usize; 3]| t@) =~= prev.map_values(|t: [usize; 3]| t@).push(
            t@,
        ));
        assert(want.take(i as int) =~= want.take(i - 1).push(want[i - 1]));
        i = i + 1;
    }
    assert(want.take(i - 1) =~= want);
    r
}

/// A polygon with `n` vertices has `n - 2` fan triangles, each made of
/// three of its vertices, the first one included.
pub proof fn lemma_fan_count(n: nat)
    requires
        n >= 3,
    ensures
        spec_fan(n).len() == n - 2,
        forall|t: int, j: int|
            0 <= t < spec_fan(n).len() && 0 <= j < 3 ==> (#[trigger] spec_fan(n)[t][j]) < n,
        forall|t: int| 0 <= t < spec_fan(n).len() ==> (#[trigger] spec_fan(n)[t])[0] == 0,
{
}

// ─── Surface faces ───────────────────────────────────────────────────────────

/// The node lists of the surface elements of `es`, in order.
pub open spec fn surface_element_faces(es: Seq<ElementView>) -> Seq<Seq<u64>>
    decreases es.len(),
{
    if es.len() == 0 {
        seq![]
    } else {
        let r = surface_element_faces(es.drop_last());
        if spec_dimension(es.last().etype) == 2 {
            r.push(es.last().node_ids)
        } else {
            r
        }
    }
}

/// The faces that make up the surface of a mesh: the boundary faces of its
/// volume elements (see `boundary_faces`), then the node lists of its
/// surface elements.
pub fn surface_faces(mesh: &Mesh) -> (r: Vec<Vec<u64>>)
    requires
        first_inconsistent(mesh@.elements) is None,
    ensures
        lists_view(r@) == spec_boundary_faces(mesh@.elements) + surface_element_faces(
            mesh@.elements,
        ),
{
    let mut out = match boundary_faces(mesh) {
        Ok(fs) => fs,
        Err(_) => Vec::new(),
    };
    let ghost start = lists_view(out@);
    let elems = mesh.elements();
    let ghost es = elements_view(elems@);
    let mut k: usize = 0;
    assert(es.take(0) =~= Seq::<ElementView>::empty());
    assert(start + surface_element_faces(es.take(0)) =~= start);
    while k < elems.len()
        invariant
            k <= elems@.len(),
            es == elements_view(elems@),
            lists_view(out@) == start + surface_element_faces(es.take(k as int)),
        decreases elems@.len() - k,
    {
        assert(es.take(k + 1).drop_last() =~= es.take(k as int));
        let e = &elems[k];
        assert(es[k as int] == e@);
        if e.dimension() == 2 {
            let mut copy: Vec<u64> = Vec::new();
            let mut i: usize = 0;
            while i < e.node_ids.len()
                invariant
                    i <= e.node_ids@.len(),
                    copy@ == e.node_ids@.take(i as int),
                decreases e.node_ids@.len() - i,
            {
                copy.push(e.node_ids[i]);
                assert(copy@ =~= e.node_ids@.take(i + 1));
                i = i + 1;
            }
            assert(e.node_ids@.take(i as int) =~= e.node_ids@);
            let ghost prev = lists_view(out@);
            out.push(copy);
            assert(lists_view(out@) =~= prev.push(e.node_ids@));
        }
        k = k + 1;
    }
    assert(es.take(k as int) =~= es);
    out
}

// ─── Index buffers ───────────────────────────────────────────────────────────

/// The number of vertices the faces of sizes `sizes` contribute: every
/// vertex of each face with at least three.
pub open spec fn vertex_total(sizes: Seq<usize>) -> nat
    decreases sizes.len(),
{
    if sizes.len() == 0 {
        0
    } else {
        vertex_total(sizes.drop_last()) + if sizes.last() >= 3 {
            sizes.last() as nat
        } else {
            0nat
        }
    }
}

/// The triangle indices of one face whose vertices start at `base`: one
/// triangle, and a second one for a quadrilateral; none for fewer than
/// three vertices.
pub open spec fn face_indices(base: nat, size: usize) -> Seq<nat> {
    if size < 3 {
        seq![]
    } else if size == 4 {
        seq![base, base + 1, base + 2, base, base + 2, base + 3]
    } else {
        seq![base, base + 1, base + 2]
    }
}

/// The triangle index buffer of faces of sizes `sizes`, each face's
/// vertices following those of the faces before it.
pub open spec fn index_buffer(sizes: Seq<usize>) -> Seq<nat>
    decreases sizes.len(),
{
    if sizes.len() == 0 {
        seq![]
    } else {
        index_buffer(sizes.drop_last()) + face_indices(
            vertex_total(sizes.drop_last()),
            sizes.last(),
        )
    }
}

/// `s` with each index reduced modulo 2^32, as `u32` arithmetic wraps.
pub open spec fn wrapped(s: Seq<nat>) -> Seq<nat> {
    s.map_values(|v: nat| v % 0x1_0000_0000)
}

/// Adding in wrapping `u32` arithmetic the residues of `a` and `b` gives
/// the residue of `a + b`.
proof fn lemma_wrapping_sum(a: nat, b: nat, x: u32, y: u32)
    requires
        x == a % 0x1_0000_0000,
        y == b % 0x1_0000_0000,
    ensures
        (if x + y > u32::MAX {
            x + y - 0x1_0000_0000
        } else {
            x + y
        }) == (a + b) % 0x1_0000_0000,
{
    vstd::arithmetic::div_mod::lemma_add_mod_noop(a as int, b as int, 0x1_0000_0000);
    vstd::arithmetic::div_mod::lemma_mod_self_0(0x1_0000_0000);
    if x + y > u32::MAX {
        vstd::arithmetic::div_mod::lemma_mod_sub_multiples_vanish(x + y, 0x1_0000_0000);
        vstd::arithmetic::div_mod::lemma_small_mod((x + y - 0x1_0000_0000) as nat, 0x1_0000_0000);
    } else {
        vstd::arithmetic::div_mod::lemma_small_mod((x + y) as nat, 0x1_0000_0000);
    }
}

/// The triangle index buffer for faces with `sizes` vertices, drawn one
/// after the other: `base, base + 1, base + 2` for each face, and `base,
/// base + 2, base + 3` more for a quadrilateral, in wrapping `u32`
/// arithmetic.
pub fn face_triangle_indices(sizes: &Vec<usize>) -> (r: Vec<u32>)
    ensures
        r@.map_values(|x: u32| x as nat) == wrapped(index_buffer(sizes@)),
{
    let mut r: Vec<u32> = Vec::new();
    let mut base: u32 = 0;
    let mut k: usize = 0;
    assert(sizes@.take(0) =~= Seq::<usize>::empty());
    assert(r@.map_values(|x: u32| x as nat) =~= wrapped(Seq::<nat>::empty()));
    while k < sizes.len()
        invariant
            k <= sizes@.len(),
            base == vertex_total(sizes@.take(k as int)) % 0x1_0000_0000,
            r@.map_values(|x: u32| x as nat) == wrapped(index_buffer(sizes@.take(k as int))),
        decreases sizes@.len() - k,
    {
        assert(sizes@.take(k + 1).drop_last() =~= sizes@.take(k as int));
        let n = sizes[k];
        let ghost vt = vertex_total(sizes@.take(k as int));
        let ghost prev = r@.map_values(|x: u32| x as nat);
        if n >= 3 {
            let b1 = base.wrapping_add(1);
            let b2 = base.wrapping_add(2);
            let b3 = base.wrapping_add(3);
            proof {
                lemma_wrapping_sum(vt, 1, base, 1);
                lemma_wrapping_sum(vt, 2, base, 2);
                lemma_wrapping_sum(vt, 3, base, 3);
                vstd::arithmetic::div_mod::lemma_small_mod(vt % 0x1_0000_0000, 0x1_0000_0000);
            }
            r.push(base);
            r.push(b1);
            r.push(b2);
            if n == 4 {
                r.push(base);
                r.push(b2);
                r.push(b3);
            }
            assert(r@.map_values(|x: u32| x as nat) =~= prev + wrapped(face_indices(vt, n)));
            assert(wrapped(index_buffer(sizes@.take(k as int)) + face_indices(vt, n)) =~= wrapped(
                index_buffer(sizes@.take(k as int)),
            ) + wrapped(face_indices(vt, n)));
            let step: u32 = ((n as u64) % 0x1_0000_0000u64) as u32;
            proof {
                lemma_wrapping_sum(vt, n as nat, base, step);
            }
            base = base.wrapping_add(step);
        } else {
            assert(face_indices(vt, n) =~= Seq::<nat>::empty());
            assert(index_buffer(sizes@.take(k as int)) + face_indices(vt, n) =~= index_buffer(
                sizes@.take(k as int),
            ));
        }
        k = k + 1;
    }
    assert(sizes@.take(k as int) =~= sizes@);
    r
}

// ─── Wireframe edges ─────────────────────────────────────────────────────────

/// Whether `a`–`b` is `x`–`y`, either way round.
pub open spec fn same_pair(a: (u64, u64), b: (u64, u64)) -> bool {
    (a.0 == b.0 && a.1 == b.1) || (a.0 == b.1 && a.1 == b.0)
}

/// The node pairs of the edges of element `e`, in its type's edge order.
pub open spec fn element_edges(e: ElementView) -> Seq<(u64, u64)> {
    spec_edges(e.etype).map_values(
        |p: (usize, usize)| (e.node_ids[p.0 as int], e.node_ids[p.1 as int]),
    )
}

/// The edges of the elements of `es` whose dimension `dims` holds, element
/// after element.
pub open spec fn candidate_edges(es: Seq<ElementView>, dims: Seq<u8>) -> Seq<(u64, u64)>
    decreases es.len(),
{
    if es.len() == 0 {
        seq![]
    } else {
        candidate_edges(es.drop_last(), dims) + if dims.contains(spec_dimension(es.last().etype)) {
            element_edges(es.last())
        } else {
            seq![]
        }
    }
}

/// The edges of `s` that no earlier edge of `s` equals either way round.
pub open spec fn first_edges(s: Seq<(u64, u64)>) -> Seq<(u64, u64)>
    decreases s.len(),
{
    if s.len() == 0 {
        seq![]
    } else {
        let r = first_edges(s.drop_last());
        if exists|i: int| 0 <= i < s.len() - 1 && same_pair(#[trigger] s[i], s.last()) {
            r
        } else {
            r.push(s.last())
        }
    }
}

/// Of two equal pairs, either way round, the first is equal to a third
/// either way round when the second is.
proof fn lemma_same_pair_trans(a: (u64, u64), b: (u64, u64), c: (u64, u64))
    requires
        same_pair(a, b),
        same_pair(b, c),
    ensures
        same_pair(a, c),
        same_pair(c, a),
{
}

/// The first edges of `s`: no two join the same nodes either way round,
/// each edge of `s` joins the same nodes as one of them, and each of them
/// is an edge of `s`.
proof fn lemma_first_edges(s: Seq<(u64, u64)>)
    ensures
        forall|i: int, j: int|
            0 <= i < j < first_edges(s).len() ==> !same_pair(
                #[trigger] first_edges(s)[i],
                #[trigger] first_edges(s)[j],
            ),
        forall|i: int|
            0 <= i < s.len() ==> exists|j: int|
                0 <= j < first_edges(s).len() && same_pair(#[trigger] s[i], first_edges(s)[j]),
        forall|j: int| 0 <= j < first_edges(s).len() ==> s.contains(#[trigger] first_edges(s)[j]),
    decreases s.len(),
{
    if s.len() > 0 {
        let t = s.drop_last();
        let r = first_edges(t);
        lemma_first_edges(t);
        let fe = first_edges(s);
        assert forall|j: int| 0 <= j < r.len() implies s.contains(#[trigger] r[j]) by {
            assert(t.contains(r[j]));
            let i = choose|i: int| 0 <= i < t.len() && t[i] == r[j];
            assert(s[i] == r[j]);
        }
        if exists|i: int| 0 <= i < s.len() - 1 && same_pair(#[trigger] s[i], s.last()) {
            assert(fe == r);
            assert forall|i: int| 0 <= i < s.len() implies exists|j: int|
                0 <= j < fe.len() && same_pair(#[trigger] s[i], fe[j]) by {
                if i < s.len() - 1 {
                    assert(s[i] == t[i]);
                } else {
                    let i0 = choose|i0: int| 0 <= i0 < s.len() - 1 && same_pair(#[trigger] s[i0], s.last());
                    assert(s[i0] == t[i0]);
                    let j = choose|j: int| 0 <= j < r.len() && same_pair(#[trigger] t[i0], r[j]);
                    lemma_same_pair_trans(s.last(), s[i0], r[j]);
                }
            }
        } else {
            assert(fe == r.push(s.last()));
            assert forall|i: int, j: int| 0 <= i < j < fe.len() implies !same_pair(
                #[trigger] fe[i],
                #[trigger] fe[j],
            ) by {
                if j < r.len() {
                    assert(fe[i] == r[i] && fe[j] == r[j]);
                } else {
                    assert(fe[i] == r[i]);
                    assert(t.contains(r[i]));
                    let i0 = choose|i0: int| 0 <= i0 < t.len() && t[i0] == r[i];
                    assert(s[i0] == t[i0]);
                    if same_pair(fe[i], fe[j]) {
                        assert(same_pair(s[i0], s.last()));
                    }
                }
            }
            assert forall|i: int| 0 <= i < s.len() implies exists|j: int|
                0 <= j < fe.len() && same_pair(#[trigger] s[i], fe[j]) by {
                if i < s.len() - 1 {
                    assert(s[i] == t[i]);
                    let j = choose|j: int| 0 <= j < r.len() && same_pair(#[trigger] t[i], r[j]);
                    assert(fe[j] == r[j]);
                } else {
                    assert(same_pair(s[i], fe[r.len() as int]));
                }
            }
            assert forall|j: int| 0 <= j < fe.len() implies s.contains(#[trigger] fe[j]) by {
                if j < r.len() {
                    assert(fe[j] == r[j]);
                } else {
                    assert(s[s.len() - 1] == fe[j]);
                }
            }
        }
    }
}

/// The candidate edges are the edges of the elements whose dimension `dims`
/// holds.
proof fn lemma_candidate_edges(es: Seq<ElementView>, dims: Seq<u8>)
    ensures
        forall|k: int, x: int|
            0 <= k < es.len() && dims.contains(spec_dimension(es[k].etype)) && 0 <= x < spec_edges(
                es[k].etype,
            ).len() ==> candidate_edges(es, dims).contains(#[trigger] element_edges(es[k])[x]),
    decreases es.len(),
{
    if es.len() > 0 {
        let t = es.drop_last();
        lemma_candidate_edges(t, dims);
        let c = candidate_edges(t, dims);
        let e = es.last();
        let add = if dims.contains(spec_dimension(e.etype)) {
            element_edges(e)
        } else {
            seq![]
        };
        assert(candidate_edges(es, dims) == c + add);
        assert forall|k: int, x: int|
            0 <= k < es.len() && dims.contains(spec_dimension(es[k].etype)) && 0 <= x < spec_edges(
                es[k].etype,
            ).len() implies candidate_edges(es, dims).contains(#[trigger] element_edges(es[k])[x]) by {
            if k < t.len() {
                assert(es[k] == t[k]);
                assert(c.contains(element_edges(t[k])[x]));
                let i = choose|i: int| 0 <= i < c.len() && c[i] == element_edges(t[k])[x];
                assert((c + add)[i] == c[i]);
            } else {
                assert(es[k] == e);
                assert((c + add)[c.len() + x] == add[x]);
            }
        }
    }
}

/// Each candidate edge is an edge of one of the elements whose dimension
/// `dims` holds.
proof fn lemma_candidate_edge_source(es: Seq<ElementView>, dims: Seq<u8>, i: int)
    requires
        0 <= i < candidate_edges(es, dims).len(),
    ensures
        exists|k: int, x: int|
            #![trigger element_edges(es[k])[x]]
            0 <= k < es.len() && dims.contains(spec_dimension(es[k].etype)) && 0 <= x < spec_edges(
                es[k].etype,
            ).len() && candidate_edges(es, dims)[i] == element_edges(es[k])[x],
    decreases es.len(),
{
    let t = es.drop_last();
    let c = candidate_edges(t, dims);
    let e = es.last();
    let add = if dims.contains(spec_dimension(e.etype)) {
        element_edges(e)
    } else {
        seq![]
    };
    assert(candidate_edges(es, dims) == c + add);
    if i < c.len() {
        assert((c + add)[i] == c[i]);
        lemma_candidate_edge_source(t, dims, i);
        let (k, x) = choose|k: int, x: int|
            #![trigger element_edges(t[k])[x]]
            0 <= k < t.len() && dims.contains(spec_dimension(t[k].etype)) && 0 <= x < spec_edges(
                t[k].etype,
            ).len() && c[i] == element_edges(t[k])[x];
        assert(es[k] == t[k]);
        assert(candidate_edges(es, dims)[i] == element_edges(es[k])[x]);
    } else {
        assert(dims.contains(spec_dimension(e.etype)));
        assert((c + add)[i] == add[i - c.len()]);
        let k = es.len() - 1;
        let x = i - c.len();
        assert(es[k] == e);
        assert(candidate_edges(es, dims)[i] == element_edges(es[k])[x]);
    }
}

/// The wireframe of the elements `es` whose dimension `dims` holds: no two
/// of its edges join the same two nodes, in either direction; every edge of
/// every such element joins the same two nodes as one of its edges, in one
/// direction or the other; and each of its edges is an edge of one of those
/// elements, in that element's direction.
pub proof fn lemma_wireframe_distinct_and_complete(es: Seq<ElementView>, dims: Seq<u8>, r: Seq<(u64, u64)>)
    requires
        r == first_edges(candidate_edges(es, dims)),
    ensures
        forall|i: int, j: int|
            0 <= i < j < r.len() ==> !((#[trigger] r[i]).0 == (#[trigger] r[j]).0 && r[i].1 == r[j].1)
                && !(r[i].0 == r[j].1 && r[i].1 == r[j].0),
        forall|k: int, x: int|
            #![trigger element_edges(es[k])[x]]
            0 <= k < es.len() && dims.contains(spec_dimension(es[k].etype)) && 0 <= x < spec_edges(
                es[k].etype,
            ).len() ==> exists|j: int|
                #![trigger r[j]]
                0 <= j < r.len() && ((r[j] == element_edges(es[k])[x]) || r[j] == (
                    element_edges(es[k])[x].1,
                    element_edges(es[k])[x].0,
                )),
        forall|j: int|
            0 <= j < r.len() ==> exists|k: int, x: int|
                0 <= k < es.len() && dims.contains(spec_dimension(es[k].etype)) && 0 <= x < spec_edges(
                    es[k].etype,
                ).len() && #[trigger] r[j] == element_edges(es[k])[x],
{
    let c = candidate_edges(es, dims);
    lemma_first_edges(c);
    lemma_candidate_edges(es, dims);
    assert forall|i: int, j: int| 0 <= i < j < r.len() implies !((#[trigger] r[i]).0 == (
        #[trigger] r[j]).0 && r[i].1 == r[j].1) && !(r[i].0 == r[j].1 && r[i].1 == r[j].0) by {
        assert(!same_pair(r[i], r[j]));
    }
    assert forall|k: int, x: int|
        #![trigger element_edges(es[k])[x]]
        0 <= k < es.len() && dims.contains(spec_dimension(es[k].etype)) && 0 <= x < spec_edges(
            es[k].etype,
        ).len() implies exists|j: int|
            #![trigger r[j]]
            0 <= j < r.len() && ((r[j] == element_edges(es[k])[x]) || r[j] == (
                element_edges(es[k])[x].1,
                element_edges(es[k])[x].0,
            )) by {
        let ed = element_edges(es[k])[x];
        assert(c.contains(ed));
        let i = choose|i: int| 0 <= i < c.len() && c[i] == ed;
        let j = choose|j: int| 0 <= j < r.len() && same_pair(#[trigger] c[i], r[j]);
        assert(r[j] == ed || r[j] == (ed.1, ed.0));
    }
    assert forall|j: int| 0 <= j < r.len() implies exists|k: int, x: int|
        0 <= k < es.len() && dims.contains(spec_dimension(es[k].etype)) && 0 <= x < spec_edges(
            es[k].etype,
        ).len() && #[trigger] r[j] == element_edges(es[k])[x] by {
        assert(c.contains(r[j]));
        let i = choose|i: int| 0 <= i < c.len() && c[i] == r[j];
        lemma_candidate_edge_source(es, dims, i);
        let (k, x) = choose|k: int, x: int|
            #![trigger element_edges(es[k])[x]]
            0 <= k < es.len() && dims.contains(spec_dimension(es[k].etype)) && 0 <= x < spec_edges(
                es[k].etype,
            ).len() && c[i] == element_edges(es[k])[x];
        assert(r[j] == element_edges(es[k])[x]);
    }
}

/// Whether every edge of every element whose dimension `dims` holds refers
/// to nodes it has.
pub open spec fn edges_in_range(es: Seq<ElementView>, dims: Seq<u8>) -> bool {
    forall|k: int|
        0 <= k < es.len() && dims.contains(spec_dimension((#[trigger] es[k]).etype)) ==> spec_node_count(
            es[k].etype,
        ) <= es[k].node_ids.len()
}

/// The distinct edges of the elements whose dimension `include_dim` holds,
/// each as its two node IDs in the element's order, in the order first
/// met; an edge met again, either way round, is skipped.
pub fn wireframe_edges(mesh: &Mesh, include_dim: &[u8]) -> (r: Vec<(u64, u64)>)
    requires
        edges_in_range(mesh@.elements, include_dim@),
    ensures
        r@ == first_edges(candidate_edges(mesh@.elements, include_dim@)),
        forall|i: int, j: int|
            0 <= i < j < r@.len() ==> !((#[trigger] r@[i]).0 == (#[trigger] r@[j]).0 && r@[i].1 == r@[j].1)
                && !(r@[i].0 == r@[j].1 && r@[i].1 == r@[j].0),
        forall|k: int, x: int|
            #![trigger element_edges(mesh@.elements[k])[x]]
            0 <= k < mesh@.elements.len() && include_dim@.contains(spec_dimension(mesh@.elements[k].etype))
                && 0 <= x < spec_edges(mesh@.elements[k].etype).len() ==> exists|j: int|
                #![trigger r@[j]]
                0 <= j < r@.len() && ((r@[j] == element_edges(mesh@.elements[k])[x]) || r@[j] == (
                    element_edges(mesh@.elements[k])[x].1,
                    element_edges(mesh@.elements[k])[x].0,
                )),
        forall|j: int|
            0 <= j < r@.len() ==> exists|k: int, x: int|
                0 <= k < mesh@.elements.len() && include_dim@.contains(spec_dimension(mesh@.elements[k].etype))
                    && 0 <= x < spec_edges(mesh@.elements[k].etype).len() && #[trigger] r@[j] == element_edges(
                    mesh@.elements[k],
                )[x],
{
    let elems = mesh.elements();
    let ghost es = elements_view(elems@);
    let ghost dims = include_dim@;
    let mut out: Vec<(u64, u64)> = Vec::new();
    let mut k: usize = 0;
    assert(es.take(0) =~= Seq::<ElementView>::empty());
    while k < elems.len()
        invariant
            k <= elems@.len(),
            es == elements_view(elems@),
            es == mesh@.elements,
            edges_in_range(es, include_dim@),
            dims == include_dim@,
            out@ == first_edges(candidate_edges(es.take(k as int), dims)),
            forall|x: (u64, u64)|
                out@.contains(x) ==> candidate_edges(es.take(k as int), dims).contains(x),
            forall|i: int|
                0 <= i < candidate_edges(es.take(k as int), dims).len() ==> exists|j: int|
                    0 <= j < out@.len() && same_pair(
                        #[trigger] candidate_edges(es.take(k as int), dims)[i],
                        out@[j],
                    ),
        decreases elems@.len() - k,
    {
        assert(es.take(k + 1).drop_last() =~= es.take(k as int));
        let e = &elems[k];
        assert(es[k as int] == e@);
        let d = e.dimension();
        let mut wanted = false;
        let mut q: usize = 0;
        while q < include_dim.len()
            invariant
                q <= dims.len(),
                dims == include_dim@,
                wanted == (exists|j: int| 0 <= j < q && dims[j] == d),
            decreases dims.len() - q,
        {
            if include_dim[q] == d {
                wanted = true;
            }
            q = q + 1;
        }
        assert(wanted == dims.contains(d));
        let ghost base = candidate_edges(es.take(k as int), dims);
        if wanted {
            let local = e.etype.edges();
            let ghost ee = element_edges(e@);
            proof {
                crate::element::lemma_local_indices_in_range(e.etype);
            }
            let mut t: usize = 0;
            assert(ee.take(0) =~= Seq::<(u64, u64)>::empty());
            assert(base + ee.take(0) =~= base);
            while t < local.len()
                invariant
                    t <= local@.len(),
                    local@ == spec_edges(e.etype),
                    ee == element_edges(e@),
                    ee.len() == local@.len(),
                    spec_node_count(e.etype) <= e.node_ids@.len(),
                    forall|x: int|
                        0 <= x < spec_edges(e.etype).len() ==> (#[trigger] spec_edges(e.etype)[x]).0
                            < spec_node_count(e.etype) && spec_edges(e.etype)[x].1
                            < spec_node_count(e.etype),
                    out@ == first_edges(base + ee.take(t as int)),
                    forall|x: (u64, u64)|
                        out@.contains(x) ==> (base + ee.take(t as int)).contains(x),
                    forall|i: int|
                        0 <= i < (base + ee.take(t as int)).len() ==> exists|j: int|
                            0 <= j < out@.len() && same_pair(
                                #[trigger] (base + ee.take(t as int))[i],
                                out@[j],
                            ),
                decreases local@.len() - t,
            {
                let (li, lj) = local[t];
                let a = e.node_ids[li];
                let b = e.node_ids[lj];
                let ghost s = base + ee.take(t + 1);
                assert(ee[t as int] == (a, b));
                assert(s.drop_last() =~= base + ee.take(t as int));
                assert(s.last() == (a, b));
                let mut seen = false;
                let mut w: usize = 0;
                while w < out.len()
                    invariant
                        w <= out@.len(),
                        seen <==> exists|j: int| 0 <= j < w && same_pair(out@[j], (a, b)),
                    decreases out@.len() - w,
                {
                    let (x, y) = out[w];
                    if (x == a && y == b) || (x == b && y == a) {
                        seen = true;
                        assert(same_pair(out@[w as int], (a, b)));
                    }
                    w = w + 1;
                }
                let ghost prev = base + ee.take(t as int);
                if seen {
                    assert(exists|i: int| 0 <= i < s.len() - 1 && same_pair(#[trigger] s[i], s.last())) by {
                        let j = choose|j: int| 0 <= j < out@.len() && same_pair(out@[j], (a, b));
                        assert(out@.contains(out@[j]));
                        assert(prev.contains(out@[j]));
                        let i = choose|i: int| 0 <= i < prev.len() && prev[i] == out@[j];
                        assert(s[i] == prev[i]);
                    }
                    assert forall|i: int| 0 <= i < s.len() implies exists|j: int|
                        0 <= j < out@.len() && same_pair(#[trigger] s[i], out@[j]) by {
                        if i < prev.len() {
                            assert(s[i] == prev[i]);
                        } else {
                            let j = choose|j: int| 0 <= j < out@.len() && same_pair(out@[j], (a, b));
                            assert(same_pair(s[i], out@[j]));
                        }
                    }
                    assert forall|x: (u64, u64)| out@.contains(x) implies s.contains(x) by {
                        let i = choose|i: int| 0 <= i < prev.len() && prev[i] == x;
                        assert(s[i] == x);
                    }
                } else {
                    assert(!exists|i: int| 0 <= i < s.len() - 1 && same_pair(#[trigger] s[i], s.last())) by {
                        if exists|i: int| 0 <= i < s.len() - 1 && same_pair(#[trigger] s[i], s.last()) {
                            let i = choose|i: int| 0 <= i < s.len() - 1 && same_pair(#[trigger] s[i], s.last());
                            assert(s[i] == prev[i]);
                            let j = choose|j: int| 0 <= j < out@.len() && same_pair(#[trigger] prev[i], out@[j]);
                            assert(same_pair(out@[j], (a, b)));
                        }
                    }
                    let ghost old_out = out@;
                    out.push((a, b));
                    assert forall|i: int| 0 <= i < s.len() implies exists|j: int|
                        0 <= j < out@.len() && same_pair(#[trigger] s[i], out@[j]) by {
                        if i < prev.len() {
                            assert(s[i] == prev[i]);
                            let j = choose|j: int| 0 <= j < old_out.len() && same_pair(#[trigger] prev[i], old_out[j]);
                            assert(out@[j] == old_out[j]);
                        } else {
                            assert(same_pair(s[i], out@[old_out.len() as int]));
                        }
                    }
                    assert forall|x: (u64, u64)| out@.contains(x) implies s.contains(x) by {
                        let j = choose|j: int| 0 <= j < out@.len() && out@[j] == x;
                        if j < old_out.len() {
                            assert(old_out[j] == x);
                            assert(old_out.contains(x));
                            let i = choose|i: int| 0 <= i < prev.len() && prev[i] == x;
                            assert(s[i] == x);
                        } else {
                            assert(s[s.len() - 1] == x);
                        }
                    }
                }
                t = t + 1;
            }
            assert(ee.take(t as int) =~= ee);
            assert(candidate_edges(es.take(k + 1), dims) == base + ee);
        } else {
            assert(candidate_edges(es.take(k + 1), dims) =~= base);
        }
        k = k + 1;
    }
    assert(es.take(k as int) =~= es);
    proof {
        lemma_wireframe_distinct_and_complete(es, dims, out@);
    }
    out
}

} // verus!
