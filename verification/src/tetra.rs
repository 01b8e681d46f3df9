//! The combinatorial part of filling a closed surface with tetrahedra: the
//! boundary polygons, their fan triangulation, the boundary nodes, the ID of
//! the inner node and the assembly of the tetrahedra around it.
use vstd::prelude::*;
use vstd::std_specs::iter::IteratorSpec;

use crate::boundary::{boundary_faces, first_inconsistent, lists_view, spec_boundary_faces};
use crate::element::{spec_dimension, Element, ElementType, ElementView};
use crate::mesh::{elements_view, Mesh, MeshView, Node, Point3, PointView};
use crate::meshing::Mesh3DError;
use crate::msh_write::chars_to_string;
use crate::text::{dec, push_dec};

verus! {

// ─── Boundary polygons ───────────────────────────────────────────────────────

/// Whether some element of `es` is a volume element.
pub open spec fn has_volume(es: Seq<ElementView>) -> bool {
    exists|k: int| 0 <= k < es.len() && spec_dimension((#[trigger] es[k]).etype) == 3
}

/// The node lists of the surface elements of `es` with at least three
/// nodes, in order.
pub open spec fn surface_polygons(es: Seq<ElementView>) -> Seq<Seq<u64>>
    decreases es.len(),
{
    if es.len() == 0 {
        seq![]
    } else {
        let r = surface_polygons(es.drop_last());
        let e = es.last();
        if spec_dimension(e.etype) == 2 && e.node_ids.len() >= 3 {
            r.push(e.node_ids)
        } else {
            r
        }
    }
}

/// `Element {id} face connectivity is inconsistent`.
pub open spec fn inconsistent_message(id: u64) -> Seq<char> {
    "Element "@ + dec(id as nat) + " face connectivity is inconsistent"@
}

/// Appends the characters of `s` to `out`.
fn push_str(out: &mut Vec<char>, s: &str)
    ensures
        final(out)@ == old(out)@ + s@,
{
    let mut it = s.chars();
    loop
        invariant
            out@ + it.remaining() == old(out)@ + s@,
            it.decrease() is Some,
        ensures
            out@ == old(out)@ + s@,
        decreases it.decrease()->0,
    {
        match it.next() {
            Some(c) => {
                out.push(c);
            },
            None => {
                assert(out@ =~= old(out)@ + s@);
                break ;
            },
        }
    }
}

/// The boundary polygons of a mesh: for a mesh with volume elements, the
/// faces that no two volume elements share (see `boundary_faces`); for a
/// surface mesh, the node lists of its surface elements with at least
/// three nodes. A volume element with a face referring to a node it lacks
/// is an error.
pub fn collect_boundary_polygons(mesh: &Mesh) -> (r: Result<Vec<Vec<u64>>, Mesh3DError>)
    ensures
        has_volume(mesh@.elements) ==> match first_inconsistent(mesh@.elements) {
            Some(id) => r matches Err(Mesh3DError::Generation(m)) && m@ == inconsistent_message(id),
            None => r matches Ok(ps) && lists_view(ps@) == spec_boundary_faces(mesh@.elements),
        },
        !has_volume(mesh@.elements) ==> (r matches Ok(ps) && lists_view(ps@) == surface_polygons(
            mesh@.elements,
        )),
{
    let elems = mesh.elements();
    let ghost es = elements_view(elems@);
    let mut has_vol = false;
    let mut polys: Vec<Vec<u64>> = Vec::new();
    let mut k: usize = 0;
    assert(es.take(0) =~= Seq::<ElementView>::empty());
    while k < elems.len()
        invariant
            k <= elems@.len(),
            es == elements_view(elems@),
            es == mesh@.elements,
            has_vol == has_volume(es.take(k as int)),
            lists_view(polys@) == surface_polygons(es.take(k as int)),
        decreases elems@.len() - k,
    {
        assert(es.take(k + 1).drop_last() =~= es.take(k as int));
        let e = &elems[k];
        assert(es[k as int] == e@);
        let d = e.dimension();
        let ghost was = has_vol;
        if d == 3 {
            has_vol = true;
            assert(es.take(k + 1)[k as int] == e@);
        }
        proof {
            if d != 3 && has_volume(es.take(k + 1)) {
                let q = choose|q: int|
                    0 <= q < k + 1 && spec_dimension((#[trigger] es.take(k + 1)[q]).etype) == 3;
                assert(es.take(k as int)[q] == es.take(k + 1)[q]);
            }
            if was {
                let q = choose|q: int|
                    0 <= q < k && spec_dimension((#[trigger] es.take(k as int)[q]).etype) == 3;
                assert(es.take(k + 1)[q] == es.take(k as int)[q]);
            }
        }
        if d == 2 && e.node_ids.len() >= 3 {
            let ghost prev = polys@;
            let mut copy: Vec<u64> = Vec::new();
            let mut i: usize = 0;
            while i < e.node_ids.len()
                invariant
                    i <= e.node_ids@.len(),
                    copy@ == e.node_ids@.take(i as int),
                decreases e.node_ids@.len() - i,
            {
                copy.push(e.node_ids[i]);
                assert(copy@ =~= e.node_ids@.take(i + 1));
                i = i + 1;
            }
            assert(e.node_ids@.take(i as int) =~= e.node_ids@);
            polys.push(copy);
            assert(lists_view(polys@) =~= lists_view(prev).push(e.node_ids@));
        }
        k = k + 1;
    }
    assert(es.take(k as int) =~= es);
    if has_vol {
        match boundary_faces(mesh) {
            Ok(fs) => Ok(fs),
            Err(id) => {
                let mut msg: Vec<char> = Vec::new();
                push_str(&mut msg, "Element ");
                push_dec(&mut msg, id);
                push_str(&mut msg, " face connectivity is inconsistent");
                assert(msg@ =~= inconsistent_message(id));
                Err(Mesh3DError::Generation(chars_to_string(&msg)))
            },
        }
    } else {
        Ok(polys)
    }
}

// ─── Fan triangulation of polygons ───────────────────────────────────────────

/// The fan triangles of polygon `p` from its first node, none for fewer
/// than three nodes.
pub open spec fn polygon_fan(p: Seq<u64>) -> Seq<Seq<u64>> {
    if p.len() < 3 {
        seq![]
    } else {
        Seq::new((p.len() - 2) as nat, |i: int| seq![p[0], p[i + 1], p[i + 2]])
    }
}

/// The fan triangles of the polygons of `ps`, polygon after polygon.
pub open spec fn polygons_fan(ps: Seq<Seq<u64>>) -> Seq<Seq<u64>>
    decreases ps.len(),
{
    if ps.len() == 0 {
        seq![]
    } else {
        polygons_fan(ps.drop_last()) + polygon_fan(ps.last())
    }
}

/// The values of a list of triangles.
pub open spec fn tris_view(v: Seq<[u64; 3]>) -> Seq<Seq<u64>> {
    v.map_values(|t: [u64; 3]| t@)
}

/// Splits each polygon of at least three nodes into the fan of triangles
/// from its first node: `[p0, p(i), p(i+1)]` for `i` from 1 to `n - 2`.
pub fn fan_polygons(polys: &Vec<Vec<u64>>) -> (r: Vec<[u64; 3]>)
    ensures
        tris_view(r@) == polygons_fan(lists_view(polys@)),
{
    let ghost ps = lists_view(polys@);
    let mut r: Vec<[u64; 3]> = Vec::new();
    let mut k: usize = 0;
    assert(ps.take(0) =~= Seq::<Seq<u64>>::empty());
    while k < polys.len()
        invariant
            k <= polys@.len(),
            ps == lists_view(polys@),
            tris_view(r@) == polygons_fan(ps.take(k as int)),
        decreases polys@.len() - k,
    {
        assert(ps.take(k + 1).drop_last() =~= ps.take(k as int));
        let p = &polys[k];
        assert(ps[k as int] == p@);
        let ghost before = tris_view(r@);
        if p.len() >= 3 {
            let mut i: usize = 1;
            while i < p.len() - 1
                invariant
                    1 <= i <= p@.len() - 1,
                    p@.len() >= 3,
                    tris_view(r@) == before + polygon_fan(p@).take(i - 1),
                decreases p@.len() - i,
            {
                let t = [p[0], p[i], p[i + 1]];
                let ghost prev = r@;
                r.push(t);
                assert(tris_view(r@) =~= tris_view(prev).push(t@));
                assert(t@ =~= polygon_fan(p@)[i - 1]);
                assert(polygon_fan(p@).take(i as int) =~= polygon_fan(p@).take(i - 1).push(
                    polygon_fan(p@)[i - 1],
                ));
                i = i + 1;
            }
            assert(polygon_fan(p@).take(i - 1) =~= polygon_fan(p@));
        } else {
            assert(polygon_fan(p@) =~= Seq::<Seq<u64>>::empty());
            assert(before + polygon_fan(p@) =~= before);
        }
        k = k + 1;
    }
    assert(ps.take(k as int) =~= ps);
    r
}

// ─── Boundary nodes and the inner node ───────────────────────────────────────

/// Whether some triangle of `ts` has node `id`.
pub open spec fn tri_node(ts: Seq<Seq<u64>>, id: u64) -> bool {
    exists|t: int| 0 <= t < ts.len() && (#[trigger] ts[t]).contains(id)
}

/// The IDs of `s` strictly increase.
pub open spec fn strictly_increasing(s: Seq<u64>) -> bool {
    forall|i: int, j: int| 0 <= i < j < s.len() ==> s[i] < s[j]
}

/// The distinct nodes of the triangles, in increasing order.
pub fn triangle_nodes(tris: &Vec<[u64; 3]>) -> (r: Vec<u64>)
    ensures
        strictly_increasing(r@),
        forall|id: u64| r@.contains(id) <==> tri_node(tris_view(tris@), id),
{
    let ghost ts = tris_view(tris@);
    let mut r: Vec<u64> = Vec::new();
    let mut k: usize = 0;
    while k < tris.len()
        invariant
            k <= tris@.len(),
            ts == tris_view(tris@),
            strictly_increasing(r@),
            forall|id: u64| r@.contains(id) <==> tri_node(ts.take(k as int), id),
        decreases tris@.len() - k,
    {
        let t = tris[k];
        assert(ts[k as int] == t@);
        let mut c: usize = 0;
        while c < 3
            invariant
                c <= 3,
                k < tris@.len(),
                ts == tris_view(tris@),
                ts[k as int] == t@,
                strictly_increasing(r@),
                forall|id: u64|
                    r@.contains(id) <==> (tri_node(ts.take(k as int), id) || (exists|q: int|
                        0 <= q < c && t@[q] == id)),
            decreases 3 - c,
        {
            let x = t[c];
            let mut p: usize = 0;
            while p < r.len() && r[p] < x
                invariant
                    p <= r@.len(),
                    forall|q: int| 0 <= q < p ==> r@[q] < x,
                decreases r@.len() - p,
            {
                p = p + 1;
            }
            let ghost before = r@;
            if p < r.len() && r[p] == x {
                assert(before[p as int] == x);
                assert forall|id: u64|
                    r@.contains(id) <==> (tri_node(ts.take(k as int), id) || (exists|q: int|
                        0 <= q < c + 1 && t@[q] == id)) by {
                    if id == x {
                        assert(r@[p as int] == x);
                    }
                    if exists|q: int| 0 <= q < c + 1 && t@[q] == id {
                        if id != x {
                            let q = choose|q: int| 0 <= q < c + 1 && t@[q] == id;
                            assert(q < c);
                        }
                    }
                }
            } else {
                assert forall|q: int| p <= q < before.len() implies x < before[q] by {
                    if q > p {
                        assert(before[p as int] < before[q]);
                    }
                }
                r.insert(p, x);
                assert(r@ == before.insert(p as int, x));
                assert forall|i: int, j: int| 0 <= i < j < r@.len() implies r@[i] < r@[j] by {
                    if j < p {
                    } else if j == p {
                    } else if i == p {
                        assert(r@[j] == before[j - 1]);
                    } else if i < p {
                        assert(r@[j] == before[j - 1]);
                    } else {
                        assert(r@[i] == before[i - 1] && r@[j] == before[j - 1]);
                    }
                }
                assert forall|id: u64|
                    r@.contains(id) <==> (tri_node(ts.take(k as int), id) || (exists|q: int|
                        0 <= q < c + 1 && t@[q] == id)) by {
                    if r@.contains(id) {
                        let w = choose|w: int| 0 <= w < r@.len() && r@[w] == id;
                        if w < p {
                            assert(before[w] == id);
                            assert(before.contains(id));
                        } else if w > p {
                            assert(before[w - 1] == id);
                            assert(before.contains(id));
                        } else {
                            assert(t@[c as int] == id);
                        }
                    }
                    if before.contains(id) {
                        let w = choose|w: int| 0 <= w < before.len() && before[w] == id;
                        if w < p {
                            assert(r@[w] == id);
                        } else {
                            assert(r@[w + 1] == id);
                        }
                    }
                    if id == x {
                        assert(r@[p as int] == x);
                    }
                    if exists|q: int| 0 <= q < c + 1 && t@[q] == id {
                        if id != x {
                            let q = choose|q: int| 0 <= q < c + 1 && t@[q] == id;
                            assert(q < c);
                        }
                    }
                }
            }
            c = c + 1;
        }
        assert forall|id: u64|
            tri_node(ts.take(k + 1), id) <==> (tri_node(ts.take(k as int), id) || (exists|q: int|
                0 <= q < 3 && t@[q] == id)) by {
            if tri_node(ts.take(k + 1), id) {
                let w = choose|w: int|
                    0 <= w < ts.take(k + 1).len() && (#[trigger] ts.take(k + 1)[w]).contains(id);
                if w < k {
                    assert(ts.take(k as int)[w] == ts.take(k + 1)[w]);
                } else {
                    let q = choose|q: int| 0 <= q < t@.len() && t@[q] == id;
                }
            }
            if tri_node(ts.take(k as int), id) {
                let w = choose|w: int|
                    0 <= w < ts.take(k as int).len() && (#[trigger] ts.take(k as int)[w]).contains(
                        id,
                    );
                assert(ts.take(k + 1)[w] == ts.take(k as int)[w]);
            }
            if exists|q: int| 0 <= q < 3 && t@[q] == id {
                let q = choose|q: int| 0 <= q < 3 && t@[q] == id;
                assert(ts.take(k + 1)[k as int] == t@);
                assert(t@.contains(id));
            }
        }
        k = k + 1;
    }
    assert(ts.take(k as int) =~= ts);
    r
}

/// The ID after the largest key of `nodes` (saturating), 1 for no nodes.
pub open spec fn next_id(nodes: Map<u64, PointView>) -> u64 {
    if nodes.dom().is_empty() {
        1
    } else {
        let m = choose|m: u64|
            nodes.contains_key(m) && forall|k: u64| #[trigger] nodes.contains_key(k) ==> k <= m;
        if m == u64::MAX {
            m
        } else {
            (m + 1) as u64
        }
    }
}

/// The ID after the largest node ID of a mesh (saturating), 1 for a mesh
/// without nodes.
pub fn next_node_id(mesh: &Mesh) -> (id: u64)
    requires
        mesh.wf(),
    ensures
        id == next_id(mesh@.nodes),
        mesh@.nodes.dom().is_empty() ==> id == 1,
        !mesh@.nodes.dom().is_empty() ==> exists|m: u64|
            mesh@.nodes.contains_key(m) && (forall|k: u64| #[trigger] mesh@.nodes.contains_key(k)
                ==> k <= m) && id == (if m == u64::MAX {
                m
            } else {
                (m + 1) as u64
            }),
{
    let nodes = mesh.nodes();
    proof {
        mesh.lemma_wf_distinct();
        crate::mesh::lemma_pairs_to_map(crate::mesh::node_pairs(mesh.node_seq()));
    }
    let ghost np = crate::mesh::node_pairs(mesh.node_seq());
    if nodes.len() == 0 {
        assert(mesh@.nodes.dom() =~= Set::<u64>::empty()) by {
            assert forall|k: u64| !mesh@.nodes.contains_key(k) by {
                if mesh@.nodes.contains_key(k) {
                    let j = choose|j: int| 0 <= j < np.len() && np[j].0 == k;
                }
            }
        }
        return 1;
    }
    let m = nodes[nodes.len() - 1].id;
    assert(np[np.len() - 1].0 == m);
    assert(mesh@.nodes.contains_key(m));
    assert forall|k: u64| #[trigger] mesh@.nodes.contains_key(k) implies k <= m by {
        let j = choose|j: int| 0 <= j < np.len() && np[j].0 == k;
        if j < np.len() - 1 {
            assert(mesh.node_seq()[j].id < mesh.node_seq()[np.len() - 1].id);
        }
    }
    assert(!mesh@.nodes.dom().is_empty()) by {
        assert(mesh@.nodes.dom().contains(m));
    }
    proof {
        let c = choose|c: u64|
            mesh@.nodes.contains_key(c) && forall|k: u64| #[trigger] mesh@.nodes.contains_key(k) ==> k <= c;
        assert(mesh@.nodes.contains_key(c) && forall|k: u64| #[trigger] mesh@.nodes.contains_key(k) ==> k <= c);
        assert(c <= m && m <= c);
    }
    if m == u64::MAX {
        m
    } else {
        m + 1
    }
}

// ─── Assembly ────────────────────────────────────────────────────────────────

/// The tetrahedra joining each kept triangle to node `c`, numbered from 1
/// in order.
pub open spec fn fan_tetrahedra(ts: Seq<Seq<u64>>, keep: Seq<bool>, c: u64) -> Seq<ElementView>
    decreases ts.len(),
{
    if ts.len() == 0 {
        seq![]
    } else {
        let r = fan_tetrahedra(ts.drop_last(), keep.drop_last(), c);
        if keep.last() {
            let t = ts.last();
            r.push(
                ElementView {
                    id: (r.len() + 1) as u64,
                    etype: ElementType::Tetrahedron4,
                    physical_tag: None,
                    node_ids: seq![t[0], t[1], t[2], c],
                },
            )
        } else {
            r
        }
    }
}

/// `Node {id} missing in source mesh`.
pub open spec fn missing_message(id: u64) -> Seq<char> {
    "Node "@ + dec(id as nat) + " missing in source mesh"@
}

/// `Generated tetrahedra are degenerate`.
pub open spec fn degenerate_message() -> Seq<char> {
    "Generated tetrahedra are degenerate"@
}

/// The first node of `ids` that `nodes` lacks, if any.
pub open spec fn first_absent(nodes: Map<u64, PointView>, ids: Seq<u64>) -> Option<u64>
    decreases ids.len(),
{
    if ids.len() == 0 {
        None
    } else if !nodes.contains_key(ids[0]) {
        Some(ids[0])
    } else {
        first_absent(nodes, ids.drop_first())
    }
}

/// The nodes of `ids` with their positions in `nodes`.
pub open spec fn nodes_of(nodes: Map<u64, PointView>, ids: Seq<u64>) -> Map<u64, PointView> {
    Map::new(|k: u64| ids.contains(k) && nodes.contains_key(k), |k: u64| nodes[k])
}

/// Builds the tetrahedral mesh around an inner node: the source nodes
/// `ids` (an error names the first one the source lacks), the inner node
/// `centroid_id` at `centroid`, and one tetrahedron per triangle that
/// `keep` marks, joining it to the inner node, numbered from 1. Keeping no
/// triangle is an error.
pub fn build_tetra_mesh(
    mesh: &Mesh,
    tris: &Vec<[u64; 3]>,
    ids: &Vec<u64>,
    centroid_id: u64,
    centroid: Point3,
    keep: &Vec<bool>,
) -> (r: Result<Mesh, Mesh3DError>)
    requires
        mesh.wf(),
        keep@.len() == tris@.len(),
    ensures
        match first_absent(mesh@.nodes, ids@) {
            Some(id) => r matches Err(Mesh3DError::Generation(m)) && m@ == missing_message(id),
            None => if fan_tetrahedra(tris_view(tris@), keep@, centroid_id).len() == 0 {
                r matches Err(Mesh3DError::Generation(m)) && m@ == degenerate_message()
            } else {
                r matches Ok(out) && out.wf() && out@ == (MeshView {
                    nodes: nodes_of(mesh@.nodes, ids@).insert(centroid_id, centroid@),
                    elements: fan_tetrahedra(tris_view(tris@), keep@, centroid_id),
                    physical_names: Map::empty(),
                })
            },
        },
{
    let mut out = Mesh::new();
    let mut i: usize = 0;
    assert(ids@.skip(0) =~= ids@);
    assert(nodes_of(mesh@.nodes, ids@.take(0)) =~= Map::<u64, PointView>::empty());
    while i < ids.len()
        invariant
            i <= ids@.len(),
            mesh.wf(),
            out.wf(),
            first_absent(mesh@.nodes, ids@) == first_absent(mesh@.nodes, ids@.skip(i as int)),
            out@.nodes == nodes_of(mesh@.nodes, ids@.take(i as int)),
            out@.elements == Seq::<ElementView>::empty(),
            out@.physical_names == Map::<(i32, i32), Seq<char>>::empty(),
        decreases ids@.len() - i,
    {
        assert(ids@.skip(i as int)[0] == ids@[i as int]);
        assert(ids@.skip(i as int).drop_first() =~= ids@.skip(i + 1));
        let id = ids[i];
        match mesh.get_node(id) {
            None => {
                let mut msg: Vec<char> = Vec::new();
                push_str(&mut msg, "Node ");
                push_dec(&mut msg, id);
                push_str(&mut msg, " missing in source mesh");
                assert(msg@ =~= missing_message(id));
                return Err(Mesh3DError::Generation(chars_to_string(&msg)));
            },
            Some(n) => {
                let copy = Node::new(
                    id,
                    n.position.x.clone(),
                    n.position.y.clone(),
                    n.position.z.clone(),
                );
                out.add_node(copy);
                assert forall|x: u64|
                    ids@.take(i + 1).contains(x) <==> (ids@.take(i as int).contains(x) || x
                        == id) by {
                    if ids@.take(i + 1).contains(x) {
                        let w = choose|w: int| 0 <= w < i + 1 && #[trigger] ids@.take(i + 1)[w] == x;
                        if w < i {
                            assert(ids@.take(i as int)[w] == x);
                        }
                    }
                    if ids@.take(i as int).contains(x) {
                        let w = choose|w: int| 0 <= w < i && #[trigger] ids@.take(i as int)[w] == x;
                        assert(ids@.take(i + 1)[w] == x);
                    }
                    if x == id {
                        assert(ids@.take(i + 1)[i as int] == x);
                    }
                }
                let ghost want = nodes_of(mesh@.nodes, ids@.take(i + 1));
                assert forall|x: u64| #[trigger] out@.nodes.contains_key(x) <==> want.contains_key(x) by {
                    assert(ids@.take(i + 1).contains(x) <==> (ids@.take(i as int).contains(x) || x == id));
                }
                assert forall|x: u64| #[trigger] out@.nodes.contains_key(x) implies out@.nodes[x] == want[x] by {
                    assert(ids@.take(i + 1).contains(x) <==> (ids@.take(i as int).contains(x) || x == id));
                }
                assert(out@.nodes =~= want);
            },
        }
        i = i + 1;
    }
    assert(ids@.take(i as int) =~= ids@);
    assert(ids@.skip(i as int) =~= Seq::<u64>::empty());
    out.add_node(Node { id: centroid_id, position: centroid });
    let ghost ts = tris_view(tris@);
    let mut count: u64 = 0;
    let mut t: usize = 0;
    assert(ts.take(0) =~= Seq::<Seq<u64>>::empty());
    assert(keep@.take(0) =~= Seq::<bool>::empty());
    while t < tris.len()
        invariant
            t <= tris@.len(),
            keep@.len() == tris@.len(),
            ts == tris_view(tris@),
            out.wf(),
            out@.nodes == nodes_of(mesh@.nodes, ids@).insert(centroid_id, centroid@),
            out@.physical_names == Map::<(i32, i32), Seq<char>>::empty(),
            out@.elements == fan_tetrahedra(ts.take(t as int), keep@.take(t as int), centroid_id),
            count == out@.elements.len(),
            count <= t,
        decreases tris@.len() - t,
    {
        assert(ts.take(t + 1).drop_last() =~= ts.take(t as int));
        assert(keep@.take(t + 1).drop_last() =~= keep@.take(t as int));
        if keep[t] {
            let tri = tris[t];
            assert(ts[t as int] == tri@);
            count = count + 1;
            let e = Element::new(
                count,
                ElementType::Tetrahedron4,
                vec![tri[0], tri[1], tri[2], centroid_id],
            );
            out.add_element(e);
            assert(out@.elements =~= fan_tetrahedra(
                ts.take(t + 1),
                keep@.take(t + 1),
                centroid_id,
            ));
        }
        t = t + 1;
    }
    assert(ts.take(t as int) =~= ts);
    assert(keep@.take(t as int) =~= keep@);
    if count == 0 {
        let mut msg: Vec<char> = Vec::new();
        push_str(&mut msg, "Generated tetrahedra are degenerate");
        assert(msg@ =~= degenerate_message());
        return Err(Mesh3DError::Generation(chars_to_string(&msg)));
    }
    Ok(out)
}


// ─── Filling a closed surface ────────────────────────────────────────────────

/// The polygons that bound the mesh elements `es`: the unshared faces of
/// its volume elements if it has any, else its surface polygons.
pub open spec fn bounding_polygons(es: Seq<ElementView>) -> Seq<Seq<u64>> {
    if has_volume(es) {
        spec_boundary_faces(es)
    } else {
        surface_polygons(es)
    }
}

/// `No boundary polygons found for 3D meshing`.
pub open spec fn no_polygons_message() -> Seq<char> {
    "No boundary polygons found for 3D meshing"@
}

/// `Boundary triangulation produced no triangles`.
pub open spec fn no_triangles_message() -> Seq<char> {
    "Boundary triangulation produced no triangles"@
}

/// `Node {id} not found`.
pub open spec fn not_found_message(id: u64) -> Seq<char> {
    "Node "@ + dec(id as nat) + " not found"@
}

/// Whether `id` is the smallest node of the triangles `ts` that `nodes`
/// lacks.
pub open spec fn least_absent(nodes: Map<u64, PointView>, ts: Seq<Seq<u64>>, id: u64) -> bool {
    &&& tri_node(ts, id)
    &&& !nodes.contains_key(id)
    &&& forall|k: u64| #[trigger] tri_node(ts, k) && !nodes.contains_key(k) ==> id <= k
}

/// The surface that a closed-surface fill works on: the fan triangles of
/// the boundary polygons (see `collect_boundary_polygons`) and their
/// distinct nodes in increasing order. No polygon, no triangle, or a
/// triangle node that the mesh lacks (the smallest such is named) is an
/// error.
pub fn tetra_surface(mesh: &Mesh) -> (r: Result<(Vec<[u64; 3]>, Vec<u64>), Mesh3DError>)
    requires
        mesh.wf(),
    ensures
        ({
            let es = mesh@.elements;
            let ps = bounding_polygons(es);
            let ts = polygons_fan(ps);
            if has_volume(es) && first_inconsistent(es) is Some {
                r matches Err(Mesh3DError::Generation(m)) && m@ == inconsistent_message(
                    first_inconsistent(es)->0,
                )
            } else if ps.len() == 0 {
                r matches Err(Mesh3DError::Generation(m)) && m@ == no_polygons_message()
            } else if ts.len() == 0 {
                r matches Err(Mesh3DError::Generation(m)) && m@ == no_triangles_message()
            } else if exists|k: u64| tri_node(ts, k) && !mesh@.nodes.contains_key(k) {
                exists|id: u64|
                    least_absent(mesh@.nodes, ts, id) && (r matches Err(Mesh3DError::Generation(m))
                        && m@ == not_found_message(id))
            } else {
                r matches Ok((tris, ids)) && tris_view(tris@) == ts && strictly_increasing(ids@) && (
                forall|id: u64| #[trigger] ids@.contains(id) <==> tri_node(ts, id))
            }
        }),
{
    let polys = collect_boundary_polygons(mesh)?;
    if polys.len() == 0 {
        let mut msg: Vec<char> = Vec::new();
        push_str(&mut msg, "No boundary polygons found for 3D meshing");
        return Err(Mesh3DError::Generation(chars_to_string(&msg)));
    }
    let tris = fan_polygons(&polys);
    if tris.len() == 0 {
        let mut msg: Vec<char> = Vec::new();
        push_str(&mut msg, "Boundary triangulation produced no triangles");
        return Err(Mesh3DError::Generation(chars_to_string(&msg)));
    }
    let ids = triangle_nodes(&tris);
    let ghost ts = tris_view(tris@);
    assert(lists_view(polys@) == bounding_polygons(mesh@.elements));
    assert(ts == polygons_fan(bounding_polygons(mesh@.elements)));
    let mut i: usize = 0;
    while i < ids.len()
        invariant
            i <= ids@.len(),
            mesh.wf(),
            ts == tris_view(tris@),
            ts == polygons_fan(bounding_polygons(mesh@.elements)),
            ts.len() != 0,
            bounding_polygons(mesh@.elements).len() != 0,
            !(has_volume(mesh@.elements) && first_inconsistent(mesh@.elements) is Some),
            strictly_increasing(ids@),
            forall|id: u64| ids@.contains(id) <==> tri_node(ts, id),
            forall|j: int| 0 <= j < i ==> mesh@.nodes.contains_key(#[trigger] ids@[j]),
        decreases ids@.len() - i,
    {
        let id = ids[i];
        if !mesh.contains_node(id) {
            proof {
                assert(ids@.contains(id));
                assert forall|k: u64| #[trigger]
                    tri_node(ts, k) && !mesh@.nodes.contains_key(k) implies id <= k by {
                    assert(ids@.contains(k));
                    let j = choose|j: int| 0 <= j < ids@.len() && ids@[j] == k;
                    if j < i {
                        assert(mesh@.nodes.contains_key(ids@[j]));
                    } else if j > i {
                        assert(ids@[i as int] < ids@[j]);
                    }
                }
                assert(least_absent(mesh@.nodes, ts, id));
            }
            let mut msg: Vec<char> = Vec::new();
            push_str(&mut msg, "Node ");
            push_dec(&mut msg, id);
            push_str(&mut msg, " not found");
            assert(msg@ =~= not_found_message(id));
            return Err(Mesh3DError::Generation(chars_to_string(&msg)));
        }
        i = i + 1;
    }
    proof {
        assert forall|k: u64| tri_node(ts, k) implies mesh@.nodes.contains_key(k) by {
            assert(ids@.contains(k));
            let j = choose|j: int| 0 <= j < ids@.len() && ids@[j] == k;
            assert(mesh@.nodes.contains_key(ids@[j]));
        }
    }
    Ok((tris, ids))
}

/// Fills the surface `tris` with nodes `ids` (see `tetra_surface`) with
/// tetrahedra around an inner node at `centroid`, whose ID follows the
/// largest node ID of the mesh; `keep` marks the triangles that give a
/// tetrahedron (see `build_tetra_mesh`).
pub fn tetrahedralize_around(
    mesh: &Mesh,
    tris: &Vec<[u64; 3]>,
    ids: &Vec<u64>,
    centroid: Point3,
    keep: &Vec<bool>,
) -> (r: Result<Mesh, Mesh3DError>)
    requires
        mesh.wf(),
        keep@.len() == tris@.len(),
    ensures
        ({
            let c = next_id(mesh@.nodes);
            match first_absent(mesh@.nodes, ids@) {
                Some(id) => r matches Err(Mesh3DError::Generation(m)) && m@ == missing_message(id),
                None => if fan_tetrahedra(tris_view(tris@), keep@, c).len() == 0 {
                    r matches Err(Mesh3DError::Generation(m)) && m@ == degenerate_message()
                } else {
                    r matches Ok(out) && out.wf() && out@ == (MeshView {
                        nodes: nodes_of(mesh@.nodes, ids@).insert(c, centroid@),
                        elements: fan_tetrahedra(tris_view(tris@), keep@, c),
                        physical_names: Map::empty(),
                    })
                },
            }
        }),
{
    let centroid_id = next_node_id(mesh);
    build_tetra_mesh(mesh, tris, ids, centroid_id, centroid, keep)
}

} // verus!
