//! Meshes as STEP exchange sees them: triangulated faces over indexed
//! vertices. Reading and writing the STEP text itself is left to the
//! caller; these functions turn a mesh into the faces to write and the
//! triangles read back into a mesh.
use vstd::prelude::*;

use std::collections::HashMap;

use crate::cad::StepError;
use crate::element::{spec_dimension, Element, ElementType, ElementView};
use crate::mesh::{
    elements_view, lemma_distinct_pairs_map_len, lemma_pairs_to_map, node_pairs, Mesh, MeshView,
    Node, Point3, PointView,
};
use crate::merge::rank;

verus! {

broadcast use vstd::std_specs::hash::group_hash_axioms;

// ─── Writing: faces of a mesh ────────────────────────────────────────────────

/// The vertex indices of those of the nodes `ids` that `nodes` has, in
/// order; vertex `i` is the node with the `i`-th smallest ID.
pub open spec fn present_indices(ids: Seq<u64>, nodes: Map<u64, PointView>) -> Seq<usize>
    decreases ids.len(),
{
    if ids.len() == 0 {
        seq![]
    } else {
        let r = present_indices(ids.drop_last(), nodes);
        if nodes.contains_key(ids.last()) {
            r.push(rank(nodes, ids.last()) as usize)
        } else {
            r
        }
    }
}

/// The fan of triangles over the polygon `ix` from its first vertex.
pub open spec fn fan_over(ix: Seq<usize>) -> Seq<Seq<usize>> {
    Seq::new((ix.len() - 2) as nat, |i: int| seq![ix[0], ix[i + 1], ix[i + 2]])
}

/// The faces written for the elements `es`, whose nodes are `nodes`: one
/// per element of dimension 2 or more with at least three nodes of which
/// at least three exist, fanned from its first existing node.
pub open spec fn step_faces(es: Seq<ElementView>, nodes: Map<u64, PointView>) -> Seq<Seq<Seq<usize>>>
    decreases es.len(),
{
    if es.len() == 0 {
        seq![]
    } else {
        let r = step_faces(es.drop_last(), nodes);
        let e = es.last();
        let ix = present_indices(e.node_ids, nodes);
        if spec_dimension(e.etype) < 2 || e.node_ids.len() < 3 || ix.len() < 3 {
            r
        } else {
            r.push(fan_over(ix))
        }
    }
}

/// The index triples of a list of triangles.
pub open spec fn triangles_view(v: Seq<[usize; 3]>) -> Seq<Seq<usize>> {
    v.map_values(|t: [usize; 3]| t@)
}

/// The index triples of a list of faces.
pub open spec fn faces_view(v: Seq<Vec<[usize; 3]>>) -> Seq<Seq<Seq<usize>>> {
    v.map_values(|f: Vec<[usize; 3]>| triangles_view(f@))
}

/// The vertex indices of the nodes `ids` that the mesh has.
fn mesh_indices(mesh: &Mesh, ids: &Vec<u64>) -> (r: Vec<usize>)
    requires
        mesh.wf(),
    ensures
        r@ == present_indices(ids@, mesh@.nodes),
{
    let mut out: Vec<usize> = Vec::new();
    let mut i: usize = 0;
    while i < ids.len()
        invariant
            mesh.wf(),
            i <= ids@.len(),
            out@ == present_indices(ids@.take(i as int), mesh@.nodes),
        decreases ids@.len() - i,
    {
        assert(ids@.take(i + 1).drop_last() =~= ids@.take(i as int));
        assert(ids@.take(i + 1).last() == ids@[i as int]);
        match mesh.node_index(ids[i]) {
            Some(p) => {
                proof {
                    crate::merge::lemma_rank_of_sorted(mesh.node_seq(), p as int);
                    lemma_pairs_to_map(node_pairs(mesh.node_seq()));
                    assert(node_pairs(mesh.node_seq())[p as int].0 == ids@[i as int]);
                }
                out.push(p);
            },
            None => {},
        }
        i = i + 1;
    }
    assert(ids@.take(i as int) =~= ids@);
    out
}

/// The fan of triangles over the polygon `ix`.
fn fan_of(ix: &Vec<usize>) -> (r: Vec<[usize; 3]>)
    requires
        ix@.len() >= 3,
    ensures
        triangles_view(r@) == fan_over(ix@),
{
    let mut r: Vec<[usize; 3]> = Vec::new();
    let root = ix[0];
    let mut i: usize = 1;
    while i < ix.len() - 1
        invariant
            ix@.len() >= 3,
            root == ix@[0],
            1 <= i <= ix@.len() - 1,
            triangles_view(r@) == fan_over(ix@).take(i - 1),
        decreases ix@.len() - i,
    {
        let t = [root, ix[i], ix[i + 1]];
        let ghost before = r@;
        r.push(t);
        assert(t@ =~= fan_over(ix@)[i - 1]);
        assert(triangles_view(r@) =~= triangles_view(before).push(t@));
        assert(fan_over(ix@).take(i as int) =~= fan_over(ix@).take(i - 1).push(fan_over(ix@)[i - 1]));
        i = i + 1;
    }
    assert(fan_over(ix@).take(i - 1) =~= fan_over(ix@));
    r
}

/// The faces to write for a mesh, as index triples into its nodes in
/// increasing ID order: one face per element of dimension 2 or more with at
/// least three nodes of which at least three exist, fanned from its first
/// existing node. A mesh without nodes or elements, or without such a face,
/// cannot be written.
pub fn step_face_triangles(mesh: &Mesh) -> (r: Result<Vec<Vec<[usize; 3]>>, StepError>)
    requires
        mesh.wf(),
    ensures
        match r {
            Ok(f) => mesh@.nodes.len() > 0 && mesh@.elements.len() > 0 && faces_view(f@) == step_faces(
                mesh@.elements,
                mesh@.nodes,
            ) && f@.len() > 0,
            Err(StepError::Parse(msg)) => if mesh@.nodes.len() == 0 || mesh@.elements.len() == 0 {
                msg@ == "cannot write empty mesh to STEP"@
            } else {
                step_faces(mesh@.elements, mesh@.nodes).len() == 0 && msg@
                    == "no 2-D elements to write as STEP faces"@
            },
            Err(StepError::Io(_)) => false,
        },
{
    if mesh.node_count() == 0 || mesh.element_count() == 0 {
        return Err(StepError::Parse(String::from_str("cannot write empty mesh to STEP")));
    }
    let es = mesh.elements();
    let mut faces: Vec<Vec<[usize; 3]>> = Vec::new();
    let mut i: usize = 0;
    while i < es.len()
        invariant
            mesh.wf(),
            es@ == mesh.element_seq(),
            mesh@.elements == elements_view(es@),
            i <= es@.len(),
            faces_view(faces@) == step_faces(mesh@.elements.take(i as int), mesh@.nodes),
        decreases es@.len() - i,
    {
        let ghost ev = mesh@.elements;
        assert(ev.take(i + 1).drop_last() =~= ev.take(i as int));
        assert(ev.take(i + 1).last() == es@[i as int]@);
        let e = &es[i];
        if e.dimension() >= 2 && e.node_ids.len() >= 3 {
            let ix = mesh_indices(mesh, &e.node_ids);
            if ix.len() >= 3 {
                let f = fan_of(&ix);
                let ghost before = faces@;
                faces.push(f);
                assert(faces_view(faces@) =~= faces_view(before).push(triangles_view(f@)));
            }
        }
        i = i + 1;
    }
    assert(mesh@.elements.take(i as int) =~= mesh@.elements);
    if faces.len() == 0 {
        return Err(StepError::Parse(String::from_str("no 2-D elements to write as STEP faces")));
    }
    Ok(faces)
}

// ─── Reading: a mesh from triangles ─────────────────────────────────────────

/// The corners of the triangles, triangle after triangle.
pub open spec fn corners(tris: Seq<[usize; 3]>) -> Seq<usize>
    decreases tris.len(),
{
    if tris.len() == 0 {
        seq![]
    } else {
        corners(tris.drop_last()) + tris.last()@
    }
}

/// The distinct entries of `c`, in the order they first occur.
pub open spec fn first_seen(c: Seq<usize>) -> Seq<usize>
    decreases c.len(),
{
    if c.len() == 0 {
        seq![]
    } else {
        let r = first_seen(c.drop_last());
        if r.contains(c.last()) {
            r
        } else {
            r.push(c.last())
        }
    }
}

/// The node ID given to vertex `v`: its place among the vertices `seen`,
/// counted from 1.
pub open spec fn vertex_node_id(seen: Seq<usize>, v: usize) -> u64 {
    (seen.index_of(v) + 1) as u64
}

/// The coordinates of a list of points.
pub open spec fn points_view(ps: Seq<Point3>) -> Seq<PointView> {
    ps.map_values(|p: Point3| p@)
}

/// The nodes made for the vertices `seen`: node `k + 1` for the vertex at
/// place `k`, where that vertex has a point.
pub open spec fn seen_nodes(seen: Seq<usize>, points: Seq<PointView>) -> Map<u64, PointView> {
    Map::new(
        |id: u64| 1 <= id <= seen.len() && seen[id - 1] < points.len(),
        |id: u64| points[seen[id - 1] as int],
    )
}

/// The triangle elements made for the triangles `tris` whose vertices are
/// numbered by `seen`: element `t + 1` for triangle `t`.
pub open spec fn triangle_elements(tris: Seq<[usize; 3]>, seen: Seq<usize>) -> Seq<ElementView> {
    Seq::new(
        tris.len(),
        |t: int|
            ElementView {
                id: (t + 1) as u64,
                etype: ElementType::Triangle3,
                physical_tag: None,
                node_ids: seq![
                    vertex_node_id(seen, tris[t][0]),
                    vertex_node_id(seen, tris[t][1]),
                    vertex_node_id(seen, tris[t][2]),
                ],
            },
    )
}

/// The mesh read from triangles over indexed points: each vertex becomes a
/// node, numbered from 1 in the order the vertices are first met, where it
/// has a point; each triangle becomes a triangle element, numbered from 1
/// in order.
pub open spec fn brep_mesh(points: Seq<PointView>, tris: Seq<[usize; 3]>) -> MeshView {
    let seen = first_seen(corners(tris));
    MeshView {
        nodes: seen_nodes(seen, points),
        elements: triangle_elements(tris, seen),
        physical_names: Map::empty(),
    }
}

/// The vertices first met are distinct, at most as many as the corners,
/// and all the corners are among them.
proof fn lemma_first_seen(c: Seq<usize>)
    ensures
        first_seen(c).no_duplicates(),
        first_seen(c).len() <= c.len(),
        forall|v: usize| #[trigger] first_seen(c).contains(v) <==> c.contains(v),
    decreases c.len(),
{
    if c.len() > 0 {
        let d = c.drop_last();
        lemma_first_seen(d);
        let r = first_seen(d);
        assert forall|v: usize| #[trigger] first_seen(c).contains(v) <==> c.contains(v) by {
            if c.contains(v) && v != c.last() {
                let i = choose|i: int| 0 <= i < c.len() && c[i] == v;
                assert(d[i] == v);
                assert(r.contains(v));
                if !r.contains(c.last()) {
                    let k = choose|k: int| 0 <= k < r.len() && r[k] == v;
                    assert(r.push(c.last())[k] == v);
                }
            }
            if v == c.last() {
                assert(c[c.len() - 1] == v);
                if !r.contains(c.last()) {
                    assert(r.push(c.last())[r.len() as int] == v);
                }
            }
            if first_seen(c).contains(v) {
                let k = choose|k: int| 0 <= k < first_seen(c).len() && first_seen(c)[k] == v;
                if k < r.len() {
                    assert(r[k] == v);
                    assert(r.contains(v));
                    let i = choose|i: int| 0 <= i < d.len() && d[i] == v;
                    assert(c[i] == v);
                } else {
                    assert(v == c.last());
                    assert(c[c.len() - 1] == v);
                }
            }
        }
    }
}

/// In a list without repeats, the place of an entry stays when the list
/// grows by an entry it lacks.
proof fn lemma_index_of_push(s: Seq<usize>, x: usize, v: usize)
    requires
        s.no_duplicates(),
        s.contains(v),
        !s.contains(x),
    ensures
        s.push(x).index_of(v) == s.index_of(v),
        0 <= s.index_of(v) < s.len(),
        s[s.index_of(v)] == v,
{
    let t = s.push(x);
    let i = s.index_of(v);
    assert(0 <= i < s.len() && s[i] == v);
    assert(t[i] == v);
    let j = t.index_of(v);
    assert(0 <= j < t.len() && t[j] == v);
    if j == s.len() {
        assert(t[j] == x);
    } else {
        assert(s[j] == v);
    }
}

/// The vertices `seen`, with `v` added at the end if it is new.
pub open spec fn grow(seen: Seq<usize>, v: usize) -> Seq<usize> {
    if seen.contains(v) {
        seen
    } else {
        seen.push(v)
    }
}

/// The node ID for vertex `v`, given to it now if it has none yet; a node
/// is added for a new vertex where it has a point.
fn vertex_id(
    map: &mut HashMap<usize, u64>,
    mesh: &mut Mesh,
    points: &Vec<Point3>,
    v: usize,
    next: &mut u64,
    Ghost(seen): Ghost<Seq<usize>>,
) -> (id: u64)
    requires
        old(mesh).wf(),
        seen.no_duplicates(),
        *old(next) == seen.len() + 1,
        seen.len() + 2 < u64::MAX,
        forall|w: usize| #[trigger] old(map)@.contains_key(w) <==> seen.contains(w),
        forall|w: usize| #[trigger] seen.contains(w) ==> old(map)@[w] == vertex_node_id(seen, w),
        old(mesh)@.nodes == seen_nodes(seen, points_view(points@)),
    ensures
        final(mesh).wf(),
        final(mesh)@.elements == old(mesh)@.elements,
        final(mesh)@.physical_names == old(mesh)@.physical_names,
        grow(seen, v).no_duplicates(),
        *final(next) == grow(seen, v).len() + 1,
        forall|w: usize| #[trigger] final(map)@.contains_key(w) <==> grow(seen, v).contains(w),
        forall|w: usize| #[trigger] grow(seen, v).contains(w) ==> final(map)@[w] == vertex_node_id(grow(seen, v), w),
        final(mesh)@.nodes == seen_nodes(grow(seen, v), points_view(points@)),
        id == vertex_node_id(grow(seen, v), v),
        grow(seen, v).contains(v),
        forall|w: usize| #[trigger] seen.contains(w) ==> grow(seen, v).contains(w) && vertex_node_id(grow(seen, v), w) == vertex_node_id(seen, w),
{
    match map.get(&v) {
        Some(id) => {
            let id = *id;
            assert(seen.contains(v));
            assert(grow(seen, v) == seen);
            id
        },
        None => {
            let id = *next;
            let ghost s2 = seen.push(v);
            assert(!seen.contains(v));
            assert(grow(seen, v) == s2);
            assert(s2.contains(v)) by {
                assert(s2[seen.len() as int] == v);
            }
            assert forall|w: usize| #[trigger] seen.contains(w) implies s2.contains(w) by {
                let k = choose|k: int| 0 <= k < seen.len() && seen[k] == w;
                assert(s2[k] == w);
            }
            let ghost before = mesh@.nodes;
            assert forall|w: usize| #[trigger] seen.contains(w) implies vertex_node_id(s2, w) == vertex_node_id(seen, w) by {
                lemma_index_of_push(seen, v, w);
            }
            assert(s2.index_of(v) == seen.len()) by {
                let j = s2.index_of(v);
                assert(s2[seen.len() as int] == v);
                assert(0 <= j < s2.len() && s2[j] == v);
                if j < seen.len() {
                    assert(seen[j] == v);
                }
            }
            assert(s2.no_duplicates()) by {
                assert forall|a: int, b: int| 0 <= a < s2.len() && 0 <= b < s2.len() && a != b implies s2[a] != s2[b] by {
                    if a == seen.len() && b < seen.len() {
                        assert(seen[b] == s2[b]);
                    } else if b == seen.len() && a < seen.len() {
                        assert(seen[a] == s2[a]);
                    }
                }
            }
            map.insert(v, id);
            *next = id + 1;
            assert forall|w: usize| #[trigger] s2.contains(w) implies map@[w] == vertex_node_id(s2, w) by {
                if w != v {
                    let k = choose|k: int| 0 <= k < s2.len() && s2[k] == w;
                    assert(seen[k] == w);
                    assert(seen.contains(w));
                }
            }
            assert forall|w: usize| #[trigger] map@.contains_key(w) <==> s2.contains(w) by {
                if s2.contains(w) && w != v {
                    let k = choose|k: int| 0 <= k < s2.len() && s2[k] == w;
                    assert(seen[k] == w);
                }
            }
            if v < points.len() {
                let p = &points[v];
                mesh.add_node(Node::new(id, p.x.clone(), p.y.clone(), p.z.clone()));
                assert(points_view(points@)[v as int] == p@);
                assert(mesh@.nodes =~= seen_nodes(s2, points_view(points@)));
            } else {
                assert(mesh@.nodes =~= seen_nodes(s2, points_view(points@)));
            }
            id
        },
    }
}

/// The mesh read from triangles over indexed points: each vertex becomes a
/// node, numbered from 1 in the order the vertices are first met, where it
/// has a point; each triangle becomes a triangle element, numbered from 1
/// in order.
pub fn brep_to_mesh(points: &Vec<Point3>, triangles: &Vec<[usize; 3]>) -> (m: Mesh)
    requires
        3 * triangles@.len() + 2 < u64::MAX,
    ensures
        m.wf(),
        m@ == brep_mesh(points_view(points@), triangles@),
{
    let mut mesh = Mesh::new();
    let mut map: HashMap<usize, u64> = HashMap::new();
    let mut next: u64 = 1;
    let ghost mut seen: Seq<usize> = seq![];
    let mut t: usize = 0;
    assert(mesh@.nodes =~= seen_nodes(seen, points_view(points@)));
    while t < triangles.len()
        invariant
            3 * triangles@.len() + 2 < u64::MAX,
            t <= triangles@.len(),
            mesh.wf(),
            seen == first_seen(corners(triangles@.take(t as int))),
            seen.no_duplicates(),
            seen.len() <= 3 * t,
            next == seen.len() + 1,
            forall|w: usize| #[trigger] map@.contains_key(w) <==> seen.contains(w),
            forall|w: usize| #[trigger] seen.contains(w) ==> map@[w] == vertex_node_id(seen, w),
            mesh@.nodes == seen_nodes(seen, points_view(points@)),
            mesh@.elements == triangle_elements(triangles@.take(t as int), seen),
            mesh@.physical_names == Map::<(i32, i32), Seq<char>>::empty(),
        decreases triangles@.len() - t,
    {
        let tri = triangles[t];
        let ghost s0 = seen;
        let ghost c0 = corners(triangles@.take(t as int));
        proof {
            lemma_corners_len(triangles@.take(t as int));
            assert(tri@.take(0) =~= Seq::<usize>::empty());
            assert(c0 + tri@.take(0) =~= c0);
        }
        let mut nids: Vec<u64> = Vec::new();
        let mut j: usize = 0;
        while j < 3
            invariant
                3 * triangles@.len() + 2 < u64::MAX,
                t < triangles@.len(),
                tri == triangles@[t as int],
                j <= 3,
                mesh.wf(),
                seen == first_seen(c0 + tri@.take(j as int)),
                c0 == corners(triangles@.take(t as int)),
                c0.len() == 3 * t,
                seen.no_duplicates(),
                seen.len() <= 3 * t + j,
                next == seen.len() + 1,
                forall|w: usize| #[trigger] map@.contains_key(w) <==> seen.contains(w),
                forall|w: usize| #[trigger] seen.contains(w) ==> map@[w] == vertex_node_id(seen, w),
                forall|w: usize| #[trigger] s0.contains(w) ==> seen.contains(w) && vertex_node_id(seen, w) == vertex_node_id(s0, w),
                forall|k: int| 0 <= k < j ==> seen.contains(#[trigger] tri@[k]),
                nids@.len() == j,
                forall|k: int| 0 <= k < j ==> #[trigger] nids@[k] == vertex_node_id(seen, tri@[k]),
                mesh@.nodes == seen_nodes(seen, points_view(points@)),
                mesh@.elements == triangle_elements(triangles@.take(t as int), s0),
                mesh@.physical_names == Map::<(i32, i32), Seq<char>>::empty(),
            decreases 3 - j,
        {
            let v = tri[j];
            let ghost before = seen;
            let id = vertex_id(&mut map, &mut mesh, points, v, &mut next, Ghost(seen));
            proof {
                assert((c0 + tri@.take(j + 1)).drop_last() =~= c0 + tri@.take(j as int));
                assert((c0 + tri@.take(j + 1)).last() == v);
                seen = grow(before, v);
                assert(seen == first_seen(c0 + tri@.take(j + 1)));
            }
            nids.push(id);
            assert forall|k: int| 0 <= k < j + 1 implies seen.contains(#[trigger] tri@[k]) by {
                if k < j {
                    assert(before.contains(tri@[k]));
                } else {
                    assert(tri@[k] == v);
                }
            }
            assert forall|k: int| 0 <= k < j + 1 implies #[trigger] nids@[k] == vertex_node_id(seen, tri@[k]) by {
                if k < j {
                    assert(before.contains(tri@[k]));
                }
            }
            j = j + 1;
        }
        let elem = Element::new((t + 1) as u64, ElementType::Triangle3, nids);
        mesh.add_element(elem);
        proof {
            let tk = triangles@.take(t + 1);
            assert(tk.drop_last() =~= triangles@.take(t as int));
            assert(tk.last() == tri);
            assert(tri@.take(3) =~= tri@);
            assert(corners(tk) == c0 + tri@);
            assert(nids@ =~= seq![
                vertex_node_id(seen, tri[0]),
                vertex_node_id(seen, tri[1]),
                vertex_node_id(seen, tri[2]),
            ]);
            assert(mesh@.elements =~= triangle_elements(tk, seen)) by {
                assert forall|q: int| 0 <= q < t implies #[trigger] triangle_elements(tk, seen)[q]
                    == triangle_elements(triangles@.take(t as int), s0)[q] by {
                    let tq = triangles@[q];
                    assert(tk[q] == tq);
                    assert(triangles@.take(t as int)[q] == tq);
                    lemma_corner_in(triangles@.take(t as int), q, 0);
                    lemma_corner_in(triangles@.take(t as int), q, 1);
                    lemma_corner_in(triangles@.take(t as int), q, 2);
                    lemma_first_seen(c0);
                    assert(s0.contains(tq[0]) && s0.contains(tq[1]) && s0.contains(tq[2]));
                    assert(triangle_elements(tk, seen)[q].node_ids =~= triangle_elements(
                        triangles@.take(t as int),
                        s0,
                    )[q].node_ids);
                }
            }
        }
        t = t + 1;
    }
    assert(triangles@.take(t as int) =~= triangles@);
    assert(mesh@.physical_names =~= Map::<(i32, i32), Seq<char>>::empty());
    mesh
}

/// Every corner of every triangle is among the corners.
proof fn lemma_corner_in(tris: Seq<[usize; 3]>, q: int, k: int)
    requires
        0 <= q < tris.len(),
        0 <= k < 3,
    ensures
        corners(tris).contains(tris[q][k]),
    decreases tris.len(),
{
    let d = tris.drop_last();
    if q < tris.len() - 1 {
        lemma_corner_in(d, q, k);
        assert(d[q] == tris[q]);
        let i = choose|i: int| 0 <= i < corners(d).len() && corners(d)[i] == tris[q][k];
        assert(corners(tris)[i] == tris[q][k]);
    } else {
        lemma_corners_len(d);
        assert(corners(tris)[corners(d).len() + k] == tris.last()@[k]);
    }
}

/// There are three corners per triangle.
proof fn lemma_corners_len(tris: Seq<[usize; 3]>)
    ensures
        corners(tris).len() == 3 * tris.len(),
    decreases tris.len(),
{
    if tris.len() > 0 {
        lemma_corners_len(tris.drop_last());
    }
}

/// The mesh read from STEP triangles, refused where it has no node or no
/// element.
pub fn step_mesh(points: &Vec<Point3>, triangles: &Vec<[usize; 3]>) -> (r: Result<Mesh, StepError>)
    requires
        3 * triangles@.len() + 2 < u64::MAX,
    ensures
        match r {
            Ok(m) => m.wf() && m@ == brep_mesh(points_view(points@), triangles@) && m@.nodes.len() > 0
                && m@.elements.len() > 0,
            Err(StepError::Parse(msg)) => (brep_mesh(points_view(points@), triangles@).nodes.len() == 0
                || brep_mesh(points_view(points@), triangles@).elements.len() == 0) && msg@
                == "No polygonal faces found in STEP data"@,
            Err(StepError::Io(_)) => false,
        },
{
    let mesh = brep_to_mesh(points, triangles);
    if mesh.node_count() == 0 || mesh.element_count() == 0 {
        return Err(StepError::Parse(String::from_str("No polygonal faces found in STEP data")));
    }
    Ok(mesh)
}

} // verus!
