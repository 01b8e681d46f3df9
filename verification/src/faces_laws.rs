//! What a classification of the surface names exists in the mesh: its
//! vertices and edges sit on mesh nodes, its geometric faces are made of
//! mesh polygons of at least three mesh nodes, and each of them bounds a
//! region of the volume elements.
use vstd::prelude::*;

use crate::boundary::{
    face_key, face_nodes, faces_consistent, first_inconsistent, insert_by_key, keys_of, lists_view, once_faces,
    own_faces, sort_by_key, spec_boundary_faces, volume_faces,
};
use crate::classify::{bounding_faces, bounds, face_in, face_keys_of, in_a_region, is_face_of, polygons_of, regions_of};
use crate::components::components_of;
use crate::element::{lemma_local_indices_in_range, spec_dimension, spec_faces, ElementView};
use crate::extract::surface_element_faces;
use crate::faces::{
    adjacency_ok, classified, corner_nodes, distinct_nodes, face_side_pairs, faces_at, feature_ends, feature_sides,
    side_table, sides_ok, smooth_graph, spec_classification_faces, tag_sides, FaceClassification,
};
use crate::mesh::{elements_of_dim, MeshView};
use crate::tetra::has_volume;
use crate::topology::GRegion;
use crate::surface_loop::{cyclic_keys, edge_key};

verus! {

/// Node `n` is a node of one of the elements `es`.
pub open spec fn element_node(es: Seq<ElementView>, n: u64) -> bool {
    exists|q: int| 0 <= q < es.len() && #[trigger] es[q].node_ids.contains(n)
}

/// `f` is at least a triangle, and each of its nodes is a node of one of
/// the elements `es`.
pub open spec fn polygon_of(es: Seq<ElementView>, f: Seq<u64>) -> bool {
    f.len() >= 3 && forall|k: int| 0 <= k < f.len() ==> element_node(es, #[trigger] f[k])
}

/// Every polygon of `fs` is one of the elements `es`.
pub open spec fn polygons_from(es: Seq<ElementView>, fs: Seq<Seq<u64>>) -> bool {
    forall|i: int| 0 <= i < fs.len() ==> polygon_of(es, #[trigger] fs[i])
}

/// Both ends of side `s` are nodes of the elements `es`.
pub open spec fn side_of(es: Seq<ElementView>, s: (u64, u64)) -> bool {
    element_node(es, s.0) && element_node(es, s.1)
}

/// Every value of `s` is a node of the elements `es`.
pub open spec fn nodes_of(es: Seq<ElementView>, s: Seq<u64>) -> bool {
    forall|i: int| 0 <= i < s.len() ==> element_node(es, #[trigger] s[i])
}

/// No element of `es` has a face that refers to a node it lacks.
proof fn lemma_all_consistent(es: Seq<ElementView>)
    requires
        first_inconsistent(es) is None,
    ensures
        forall|q: int| 0 <= q < es.len() ==> faces_consistent(#[trigger] es[q]),
    decreases es.len(),
{
    if es.len() > 0 {
        lemma_all_consistent(es.drop_first());
        assert forall|q: int| 0 <= q < es.len() implies faces_consistent(#[trigger] es[q]) by {
            if q > 0 {
                assert(es[q] == es.drop_first()[q - 1]);
            }
        }
    }
}

/// A node of the elements before the last is a node of the elements.
proof fn lemma_node_of_prefix(es: Seq<ElementView>, n: u64)
    requires
        es.len() > 0,
        element_node(es.drop_last(), n),
    ensures
        element_node(es, n),
{
    let q = choose|q: int| 0 <= q < es.drop_last().len() && #[trigger] es.drop_last()[q].node_ids.contains(n);
    assert(es[q] == es.drop_last()[q]);
}

/// The faces of the volume elements are polygons of the elements.
proof fn lemma_volume_faces(es: Seq<ElementView>)
    requires
        forall|q: int| 0 <= q < es.len() ==> faces_consistent(#[trigger] es[q]),
    ensures
        polygons_from(es, volume_faces(es)),
    decreases es.len(),
{
    if es.len() > 0 {
        let s = es.drop_last();
        assert forall|q: int| 0 <= q < s.len() implies faces_consistent(#[trigger] s[q]) by {
            assert(s[q] == es[q]);
        }
        lemma_volume_faces(s);
        let e = es.last();
        let last = es.len() - 1;
        assert(es[last] == e);
        assert(faces_consistent(es[last]));
        let own = own_faces(e);
        lemma_local_indices_in_range(e.etype);
        let all = volume_faces(s) + own;
        assert forall|i: int| 0 <= i < all.len() implies polygon_of(es, #[trigger] all[i]) by {
            if i < volume_faces(s).len() {
                assert(all[i] == volume_faces(s)[i]);
                assert(polygon_of(s, volume_faces(s)[i]));
                assert forall|k: int| 0 <= k < all[i].len() implies element_node(es, #[trigger] all[i][k]) by {
                    lemma_node_of_prefix(es, all[i][k]);
                }
            } else {
                let x = i - volume_faces(s).len();
                assert(all[i] == own[x]);
                assert(spec_dimension(e.etype) == 3);
                let lf = spec_faces(e.etype)[x];
                assert(own[x] == face_nodes(e.node_ids, lf));
                assert forall|k: int| 0 <= k < all[i].len() implies element_node(es, #[trigger] all[i][k]) by {
                    assert(lf[k] < e.node_ids.len());
                    assert(all[i][k] == e.node_ids[lf[k] as int]);
                    assert(es[last].node_ids.contains(all[i][k]));
                }
            }
        }
    }
}

/// Keeping the faces whose key occurs once keeps polygons of the elements.
proof fn lemma_once_faces(es: Seq<ElementView>, fs: Seq<Seq<u64>>, keys: Seq<Seq<u64>>)
    requires
        polygons_from(es, fs),
    ensures
        polygons_from(es, once_faces(fs, keys)),
    decreases fs.len(),
{
    if fs.len() > 0 {
        assert(polygons_from(es, fs.drop_last())) by {
            assert forall|i: int| 0 <= i < fs.drop_last().len() implies polygon_of(es, #[trigger] fs.drop_last()[i]) by {
                assert(fs.drop_last()[i] == fs[i]);
            }
        }
        lemma_once_faces(es, fs.drop_last(), keys);
        assert(polygon_of(es, fs[fs.len() - 1]));
    }
}

/// Inserting a polygon of the elements among polygons of the elements.
proof fn lemma_insert_by_key(es: Seq<ElementView>, s: Seq<Seq<u64>>, f: Seq<u64>)
    requires
        polygons_from(es, s),
        polygon_of(es, f),
    ensures
        polygons_from(es, insert_by_key(s, f)),
    decreases s.len(),
{
    if s.len() > 0 {
        assert(polygons_from(es, s.drop_last())) by {
            assert forall|i: int| 0 <= i < s.drop_last().len() implies polygon_of(es, #[trigger] s.drop_last()[i]) by {
                assert(s.drop_last()[i] == s[i]);
            }
        }
        lemma_insert_by_key(es, s.drop_last(), f);
        assert(polygon_of(es, s[s.len() - 1]));
    }
}

/// Sorting by key keeps polygons of the elements.
proof fn lemma_sort_by_key(es: Seq<ElementView>, s: Seq<Seq<u64>>)
    requires
        polygons_from(es, s),
    ensures
        polygons_from(es, sort_by_key(s)),
    decreases s.len(),
{
    if s.len() > 0 {
        assert(polygons_from(es, s.drop_last())) by {
            assert forall|i: int| 0 <= i < s.drop_last().len() implies polygon_of(es, #[trigger] s.drop_last()[i]) by {
                assert(s.drop_last()[i] == s[i]);
            }
        }
        lemma_sort_by_key(es, s.drop_last());
        assert(polygon_of(es, s[s.len() - 1]));
        lemma_insert_by_key(es, sort_by_key(s.drop_last()), s.last());
    }
}

/// The node lists of the surface elements are polygons of the elements
/// when each surface element has at least three nodes.
proof fn lemma_surface_faces(es: Seq<ElementView>)
    requires
        forall|q: int| 0 <= q < es.len() && spec_dimension(es[q].etype) == 2 ==> (#[trigger] es[q]).node_ids.len() >= 3,
    ensures
        polygons_from(es, surface_element_faces(es)),
    decreases es.len(),
{
    if es.len() > 0 {
        let s = es.drop_last();
        assert forall|q: int| 0 <= q < s.len() && spec_dimension(s[q].etype) == 2 implies (#[trigger] s[q]).node_ids.len() >= 3 by {
            assert(s[q] == es[q]);
        }
        lemma_surface_faces(s);
        let r = surface_element_faces(s);
        let last = es.len() - 1;
        assert forall|i: int| 0 <= i < r.len() implies polygon_of(es, #[trigger] r[i]) by {
            assert(polygon_of(s, r[i]));
            assert forall|k: int| 0 <= k < r[i].len() implies element_node(es, #[trigger] r[i][k]) by {
                lemma_node_of_prefix(es, r[i][k]);
            }
        }
        if spec_dimension(es.last().etype) == 2 {
            let f = es.last().node_ids;
            assert(es[last] == es.last());
            assert forall|k: int| 0 <= k < f.len() implies element_node(es, #[trigger] f[k]) by {
                assert(es[last].node_ids.contains(f[k]));
            }
            assert forall|i: int| 0 <= i < r.push(f).len() implies polygon_of(es, #[trigger] r.push(f)[i]) by {
                if i < r.len() {
                    assert(r.push(f)[i] == r[i]);
                }
            }
        }
    }
}

/// The faces that the classification starts from are polygons of the
/// elements.
proof fn lemma_classification_faces(es: Seq<ElementView>)
    requires
        first_inconsistent(es) is None,
        forall|q: int| 0 <= q < es.len() && spec_dimension(es[q].etype) == 2 ==> (#[trigger] es[q]).node_ids.len() >= 3,
    ensures
        polygons_from(es, spec_classification_faces(es)),
{
    lemma_all_consistent(es);
    lemma_volume_faces(es);
    lemma_once_faces(es, volume_faces(es), crate::boundary::keys_of(volume_faces(es)));
    lemma_sort_by_key(es, once_faces(volume_faces(es), crate::boundary::keys_of(volume_faces(es))));
    lemma_surface_faces(es);
}

/// The sides of a polygon of the elements join nodes of the elements.
proof fn lemma_cyclic_keys(es: Seq<ElementView>, f: Seq<u64>)
    requires
        polygon_of(es, f),
    ensures
        forall|i: int| 0 <= i < cyclic_keys(f).len() ==> side_of(es, #[trigger] cyclic_keys(f)[i]),
{
    let n = f.len() as int;
    assert forall|i: int| 0 <= i < cyclic_keys(f).len() implies side_of(es, #[trigger] cyclic_keys(f)[i]) by {
        let j = (i + 1) % n;
        if i + 1 < n {
            vstd::arithmetic::div_mod::lemma_small_mod((i + 1) as nat, n as nat);
        } else {
            vstd::arithmetic::div_mod::lemma_mod_self_0(n);
        }
        assert(0 <= j < n);
        assert(element_node(es, f[i]));
        assert(element_node(es, f[j]));
        assert(cyclic_keys(f)[i] == edge_key(f[i], f[j]));
    }
}

/// The sides of polygons of the elements join nodes of the elements.
proof fn lemma_face_side_pairs(es: Seq<ElementView>, faces: Seq<Seq<u64>>)
    requires
        polygons_from(es, faces),
    ensures
        forall|p: int| 0 <= p < face_side_pairs(faces).len() ==> side_of(es, (#[trigger] face_side_pairs(faces)[p]).0),
    decreases faces.len(),
{
    if faces.len() > 0 {
        let s = faces.drop_last();
        assert(polygons_from(es, s)) by {
            assert forall|i: int| 0 <= i < s.len() implies polygon_of(es, #[trigger] s[i]) by {
                assert(s[i] == faces[i]);
            }
        }
        lemma_face_side_pairs(es, s);
        let f = faces[faces.len() - 1];
        lemma_cyclic_keys(es, f);
        let a = face_side_pairs(s);
        let b = tag_sides(cyclic_keys(f), (faces.len() - 1) as usize);
        assert forall|p: int| 0 <= p < (a + b).len() implies side_of(es, (#[trigger] (a + b)[p]).0) by {
            if p < a.len() {
                assert((a + b)[p] == a[p]);
            } else {
                assert((a + b)[p] == b[p - a.len()]);
                assert(b[p - a.len()].0 == cyclic_keys(f)[p - a.len()]);
            }
        }
    }
}

/// The sides of the table are sides of the pairs.
proof fn lemma_side_table(es: Seq<ElementView>, pairs: Seq<((u64, u64), usize)>)
    requires
        forall|p: int| 0 <= p < pairs.len() ==> side_of(es, (#[trigger] pairs[p]).0),
    ensures
        forall|x: int| 0 <= x < side_table(pairs).0.len() ==> side_of(es, #[trigger] side_table(pairs).0[x]),
    decreases pairs.len(),
{
    if pairs.len() > 0 {
        let s = pairs.drop_last();
        assert forall|p: int| 0 <= p < s.len() implies side_of(es, (#[trigger] s[p]).0) by {
            assert(s[p] == pairs[p]);
        }
        lemma_side_table(es, s);
        let ks = side_table(s).0;
        let k = pairs.last().0;
        assert(side_of(es, pairs[pairs.len() - 1].0));
        if !ks.contains(k) {
            assert forall|x: int| 0 <= x < ks.push(k).len() implies side_of(es, #[trigger] ks.push(k)[x]) by {
                if x < ks.len() {
                    assert(ks.push(k)[x] == ks[x]);
                }
            }
        }
    }
}

/// The feature sides among the first `n` are below `n`.
proof fn lemma_feature_sides_below(lists: Seq<Seq<usize>>, ms: Seq<Seq<int>>, n: nat)
    ensures
        forall|e: int| 0 <= e < feature_sides(lists, ms, n).len() ==> 0 <= #[trigger] feature_sides(lists, ms, n)[e] < n,
    decreases n,
{
    if n > 0 {
        lemma_feature_sides_below(lists, ms, (n - 1) as nat);
        let r = feature_sides(lists, ms, (n - 1) as nat);
        assert forall|e: int| 0 <= e < r.push(n - 1).len() implies 0 <= #[trigger] r.push(n - 1)[e] < n by {
            if e < r.len() {
                assert(r.push(n - 1)[e] == r[e]);
            }
        }
    }
}

/// The ends of sides of the elements are nodes of the elements.
proof fn lemma_feature_ends(es: Seq<ElementView>, sides: Seq<(u64, u64)>, fs: Seq<int>)
    requires
        forall|x: int| 0 <= x < sides.len() ==> side_of(es, #[trigger] sides[x]),
        forall|e: int| 0 <= e < fs.len() ==> 0 <= #[trigger] fs[e] < sides.len(),
    ensures
        nodes_of(es, feature_ends(sides, fs)),
    decreases fs.len(),
{
    if fs.len() > 0 {
        let s = fs.drop_last();
        assert forall|e: int| 0 <= e < s.len() implies 0 <= #[trigger] s[e] < sides.len() by {
            assert(s[e] == fs[e]);
        }
        lemma_feature_ends(es, sides, s);
        let a = feature_ends(sides, s);
        let x = fs[fs.len() - 1];
        assert(side_of(es, sides[x]));
        let b = seq![sides[x].0, sides[x].1];
        assert forall|i: int| 0 <= i < (a + b).len() implies element_node(es, #[trigger] (a + b)[i]) by {
            if i < a.len() {
                assert((a + b)[i] == a[i]);
            } else {
                assert((a + b)[i] == b[i - a.len()]);
            }
        }
    }
}

/// The distinct values of `s` are values of `s`.
proof fn lemma_distinct_nodes(es: Seq<ElementView>, s: Seq<u64>)
    requires
        nodes_of(es, s),
    ensures
        nodes_of(es, distinct_nodes(s)),
    decreases s.len(),
{
    if s.len() > 0 {
        assert(nodes_of(es, s.drop_last())) by {
            assert forall|i: int| 0 <= i < s.drop_last().len() implies element_node(es, #[trigger] s.drop_last()[i]) by {
                assert(s.drop_last()[i] == s[i]);
            }
        }
        lemma_distinct_nodes(es, s.drop_last());
        let r = distinct_nodes(s.drop_last());
        assert(element_node(es, s[s.len() - 1]));
        assert forall|i: int| 0 <= i < r.push(s.last()).len() implies element_node(es, #[trigger] r.push(s.last())[i]) by {
            if i < r.len() {
                assert(r.push(s.last())[i] == r[i]);
            }
        }
    }
}

/// The corners among `d` are values of `d`.
proof fn lemma_corner_nodes(es: Seq<ElementView>, d: Seq<u64>, ends: Seq<u64>)
    requires
        nodes_of(es, d),
    ensures
        nodes_of(es, corner_nodes(d, ends)),
    decreases d.len(),
{
    if d.len() > 0 {
        assert(nodes_of(es, d.drop_last())) by {
            assert forall|i: int| 0 <= i < d.drop_last().len() implies element_node(es, #[trigger] d.drop_last()[i]) by {
                assert(d.drop_last()[i] == d[i]);
            }
        }
        lemma_corner_nodes(es, d.drop_last(), ends);
        let r = corner_nodes(d.drop_last(), ends);
        assert(element_node(es, d[d.len() - 1]));
        assert forall|i: int| 0 <= i < r.push(d.last()).len() implies element_node(es, #[trigger] r.push(d.last())[i]) by {
            if i < r.len() {
                assert(r.push(d.last())[i] == r[i]);
            }
        }
    }
}

/// What the classification of a mesh's surface names exists in the mesh,
/// where every node of every element is a node of the mesh, no face of a
/// volume element refers to a node its element lacks, and every surface
/// element has at least three nodes: each geometric vertex sits on a mesh
/// node, each geometric edge runs between mesh nodes, and each geometric
/// face is made of mesh polygons of at least three mesh nodes. `sides`,
/// `lists`, `adj`, `flags`, `ms` and `r` are what `face_adjacency` and
/// `classify_faces` state of the faces that `classification_faces` gives.
pub proof fn lemma_classification_in_mesh(
    m: MeshView,
    sides: Seq<(u64, u64)>,
    lists: Seq<Seq<usize>>,
    adj: Seq<Seq<(usize, (u64, u64))>>,
    flags: Seq<Seq<bool>>,
    ms: Seq<Seq<int>>,
    r: FaceClassification,
)
    requires
        forall|q: int, k: int|
            0 <= q < m.elements.len() && 0 <= k < m.elements[q].node_ids.len() ==> m.nodes.contains_key(
                #[trigger] m.elements[q].node_ids[k],
            ),
        first_inconsistent(m.elements) is None,
        forall|q: int|
            0 <= q < m.elements.len() && spec_dimension(m.elements[q].etype) == 2 ==> (#[trigger] m.elements[q]).node_ids.len()
                >= 3,
        (sides, lists) == side_table(face_side_pairs(spec_classification_faces(m.elements))),
        sides_ok(sides, lists, spec_classification_faces(m.elements).len() as int),
        adjacency_ok(adj, spec_classification_faces(m.elements).len() as int, sides, lists),
        components_of(smooth_graph(adj, flags), ms),
        classified(r, spec_classification_faces(m.elements), sides, lists, ms),
    ensures
        forall|v: int| 0 <= v < r.vertices@.len() ==> m.nodes.contains_key(#[trigger] r.vertices@[v].node_id),
        forall|e: int, k: int|
            0 <= e < r.edges@.len() && 0 <= k < r.edges@[e].node_ids@.len() ==> m.nodes.contains_key(
                #[trigger] r.edges@[e].node_ids@[k],
            ),
        forall|t: int, p: int|
            0 <= t < r.faces@.len() && 0 <= p < r.faces@[t].mesh_faces@.len() ==> (#[trigger] r.faces@[t].mesh_faces@[p])@.len()
                >= 3,
        forall|t: int, p: int, k: int|
            0 <= t < r.faces@.len() && 0 <= p < r.faces@[t].mesh_faces@.len() && 0 <= k < r.faces@[t].mesh_faces@[p]@.len()
                ==> m.nodes.contains_key(#[trigger] r.faces@[t].mesh_faces@[p]@[k]),
{
    let es = m.elements;
    let faces = spec_classification_faces(es);
    lemma_classification_faces(es);
    lemma_face_side_pairs(es, faces);
    lemma_side_table(es, face_side_pairs(faces));
    assert forall|x: int| 0 <= x < sides.len() implies side_of(es, #[trigger] sides[x]) by {
        assert(sides[x] == side_table(face_side_pairs(faces)).0[x]);
    }
    let fs = feature_sides(lists, ms, lists.len());
    lemma_feature_sides_below(lists, ms, lists.len());
    assert forall|e: int| 0 <= e < fs.len() implies 0 <= #[trigger] fs[e] < sides.len() by {}
    let ends = feature_ends(sides, fs);
    lemma_feature_ends(es, sides, fs);
    lemma_distinct_nodes(es, ends);
    lemma_corner_nodes(es, distinct_nodes(ends), ends);
    let cs = corner_nodes(distinct_nodes(ends), ends);
    assert forall|n: u64| element_node(es, n) implies m.nodes.contains_key(n) by {
        let q = choose|q: int| 0 <= q < es.len() && #[trigger] es[q].node_ids.contains(n);
        let k = choose|k: int| 0 <= k < es[q].node_ids.len() && es[q].node_ids[k] == n;
        assert(m.nodes.contains_key(es[q].node_ids[k]));
    }
    assert forall|v: int| 0 <= v < r.vertices@.len() implies m.nodes.contains_key(#[trigger] r.vertices@[v].node_id) by {
        assert(r.vertices@[v].node_id == cs[v]);
        assert(element_node(es, cs[v]));
    }
    assert forall|e: int, k: int|
        0 <= e < r.edges@.len() && 0 <= k < r.edges@[e].node_ids@.len() implies m.nodes.contains_key(
            #[trigger] r.edges@[e].node_ids@[k],
        ) by {
        assert(side_of(es, sides[fs[e]]));
    }
    assert(smooth_graph(adj, flags).len() == faces.len());
    assert forall|t: int, p: int|
        0 <= t < r.faces@.len() && 0 <= p < r.faces@[t].mesh_faces@.len() implies polygon_of(
            es,
            (#[trigger] r.faces@[t].mesh_faces@[p])@,
        ) by {
        assert(lists_view(r.faces@[t].mesh_faces@) == faces_at(faces, ms[t]));
        assert(lists_view(r.faces@[t].mesh_faces@)[p] == r.faces@[t].mesh_faces@[p]@);
        let x = ms[t][p];
        assert(0 <= x < faces.len());
        assert(r.faces@[t].mesh_faces@[p]@ == faces[x]);
    }
}

// ─── Every geometric face bounds a region ───────────────────────────────────

/// Inserting `f` by key places `f` among the faces of `s`.
proof fn lemma_insert_members(s: Seq<Seq<u64>>, f: Seq<u64>)
    ensures
        forall|i: int| 0 <= i < insert_by_key(s, f).len() ==> #[trigger] insert_by_key(s, f)[i] == f || s.contains(insert_by_key(s, f)[i]),
    decreases s.len(),
{
    if s.len() > 0 && !crate::boundary::lex_le(face_key(s.last()), face_key(f)) {
        let t = s.drop_last();
        lemma_insert_members(t, f);
        let r = insert_by_key(t, f);
        assert forall|i: int| 0 <= i < r.push(s.last()).len() implies #[trigger] r.push(s.last())[i] == f || s.contains(r.push(s.last())[i]) by {
            if i < r.len() {
                assert(r.push(s.last())[i] == r[i]);
                if r[i] != f {
                    let q = choose|q: int| 0 <= q < t.len() && t[q] == r[i];
                    assert(s[q] == r[i]);
                }
            } else {
                assert(s[s.len() - 1] == s.last());
            }
        }
    } else if s.len() > 0 {
        assert forall|i: int| 0 <= i < s.push(f).len() implies #[trigger] s.push(f)[i] == f || s.contains(s.push(f)[i]) by {
            if i < s.len() {
                assert(s.push(f)[i] == s[i]);
            }
        }
    }
}

/// Sorting by key keeps only faces of `s`.
proof fn lemma_sort_members(s: Seq<Seq<u64>>)
    ensures
        forall|i: int| 0 <= i < sort_by_key(s).len() ==> s.contains(#[trigger] sort_by_key(s)[i]),
    decreases s.len(),
{
    if s.len() > 0 {
        let t = s.drop_last();
        lemma_sort_members(t);
        lemma_insert_members(sort_by_key(t), s.last());
        let r = sort_by_key(s);
        assert forall|i: int| 0 <= i < r.len() implies s.contains(#[trigger] r[i]) by {
            if r[i] == s.last() {
                assert(s[s.len() - 1] == s.last());
            } else {
                assert(sort_by_key(t).contains(r[i]));
                let a = choose|a: int| 0 <= a < sort_by_key(t).len() && sort_by_key(t)[a] == r[i];
                assert(t.contains(sort_by_key(t)[a]));
                let q = choose|q: int| 0 <= q < t.len() && t[q] == r[i];
                assert(s[q] == r[i]);
            }
        }
    }
}

/// The faces whose key occurs once are faces of `fs`.
proof fn lemma_once_members(fs: Seq<Seq<u64>>, keys: Seq<Seq<u64>>)
    ensures
        forall|i: int| 0 <= i < once_faces(fs, keys).len() ==> fs.contains(#[trigger] once_faces(fs, keys)[i]),
    decreases fs.len(),
{
    if fs.len() > 0 {
        let t = fs.drop_last();
        lemma_once_members(t, keys);
        let r = once_faces(t, keys);
        assert forall|i: int| 0 <= i < r.len() implies fs.contains(#[trigger] r[i]) by {
            let q = choose|q: int| 0 <= q < t.len() && t[q] == r[i];
            assert(fs[q] == r[i]);
        }
        assert forall|i: int| 0 <= i < r.push(fs.last()).len() implies fs.contains(#[trigger] r.push(fs.last())[i]) by {
            if i < r.len() {
                assert(r.push(fs.last())[i] == r[i]);
            } else {
                assert(fs[fs.len() - 1] == fs.last());
            }
        }
    }
}

/// `f` is a face of a volume element of `es`.
pub open spec fn volume_face(es: Seq<ElementView>, f: Seq<u64>) -> bool {
    exists|q: int| 0 <= q < es.len() && spec_dimension(es[q].etype) == 3 && #[trigger] own_faces(es[q]).contains(f)
}

/// The faces of the volume elements are faces of volume elements.
proof fn lemma_volume_members(es: Seq<ElementView>)
    ensures
        forall|i: int| 0 <= i < volume_faces(es).len() ==> volume_face(es, #[trigger] volume_faces(es)[i]),
    decreases es.len(),
{
    if es.len() > 0 {
        let s = es.drop_last();
        lemma_volume_members(s);
        let a = volume_faces(s);
        let own = own_faces(es.last());
        let last = es.len() - 1;
        assert(es[last] == es.last());
        assert forall|i: int| 0 <= i < (a + own).len() implies volume_face(es, #[trigger] (a + own)[i]) by {
            if i < a.len() {
                assert((a + own)[i] == a[i]);
                assert(volume_face(s, a[i]));
                let q = choose|q: int| 0 <= q < s.len() && spec_dimension(s[q].etype) == 3 && #[trigger] own_faces(s[q]).contains(a[i]);
                assert(es[q] == s[q]);
            } else {
                let x = i - a.len();
                assert((a + own)[i] == own[x]);
                assert(own.contains(own[x]));
                assert(spec_dimension(es.last().etype) == 3);
            }
        }
    }
}

/// A volume element of `es` is one of its elements of dimension 3.
proof fn lemma_in_volume_elements(es: Seq<ElementView>, q: int)
    requires
        0 <= q < es.len(),
        spec_dimension(es[q].etype) == 3,
    ensures
        elements_of_dim(es, 3).contains(es[q]),
    decreases es.len(),
{
    let s = es.drop_last();
    if q < es.len() - 1 {
        assert(s[q] == es[q]);
        lemma_in_volume_elements(s, q);
        let r = elements_of_dim(s, 3);
        let a = choose|a: int| 0 <= a < r.len() && r[a] == es[q];
        if spec_dimension(es.last().etype) == 3 {
            assert(r.push(es.last())[a] == es[q]);
        }
    } else {
        let r = elements_of_dim(s, 3);
        assert(r.push(es.last())[r.len() as int] == es[q]);
    }
}

/// The boundary faces of the volume elements are faces of elements of
/// dimension 3.
proof fn lemma_boundary_face_of_volume(es: Seq<ElementView>, f: Seq<u64>)
    requires
        first_inconsistent(es) is None,
        spec_boundary_faces(es).contains(f),
    ensures
        exists|i: int| 0 <= i < elements_of_dim(es, 3).len() && #[trigger] is_face_of(f, elements_of_dim(es, 3)[i]),
{
    let vf = volume_faces(es);
    let once = once_faces(vf, keys_of(vf));
    lemma_sort_members(once);
    lemma_once_members(vf, keys_of(vf));
    lemma_volume_members(es);
    lemma_all_consistent(es);
    let a = choose|a: int| 0 <= a < sort_by_key(once).len() && sort_by_key(once)[a] == f;
    assert(once.contains(sort_by_key(once)[a]));
    let b = choose|b: int| 0 <= b < once.len() && once[b] == f;
    assert(vf.contains(once[b]));
    let c = choose|c: int| 0 <= c < vf.len() && vf[c] == f;
    assert(volume_face(es, vf[c]));
    let q = choose|q: int| 0 <= q < es.len() && spec_dimension(es[q].etype) == 3 && #[trigger] own_faces(es[q]).contains(f);
    let e = es[q];
    assert(faces_consistent(e));
    let x = choose|x: int| 0 <= x < own_faces(e).len() && own_faces(e)[x] == f;
    assert(face_keys_of(e) == keys_of(own_faces(e)));
    assert(face_keys_of(e)[x] == face_key(f));
    assert(is_face_of(f, e));
    lemma_in_volume_elements(es, q);
    let i = choose|i: int| 0 <= i < elements_of_dim(es, 3).len() && elements_of_dim(es, 3)[i] == e;
    assert(is_face_of(f, elements_of_dim(es, 3)[i]));
}

/// A face at `t` below `n` whose polygons bound the elements is listed.
proof fn lemma_bounding_contains(gp: Seq<Seq<Seq<u64>>>, vs: Seq<ElementView>, m: Seq<int>, n: nat, t: int)
    requires
        0 <= t < n <= usize::MAX,
        bounds(gp[t], vs, m),
    ensures
        bounding_faces(gp, vs, m, n).contains(t as usize),
    decreases n,
{
    let r = bounding_faces(gp, vs, m, (n - 1) as nat);
    if t < n - 1 {
        lemma_bounding_contains(gp, vs, m, (n - 1) as nat, t);
        let a = choose|a: int| 0 <= a < r.len() && r[a] == t as usize;
        if bounds(gp[n - 1], vs, m) {
            assert(r.push((n - 1) as usize)[a] == t as usize);
        }
    } else {
        assert(r.push((n - 1) as usize)[r.len() as int] == t as usize);
    }
}

/// Every geometric face of the surface of a volume mesh bounds a region:
/// where the mesh has volume elements and no face of one refers to a node
/// its element lacks, each geometric face that `classify_faces` gives is
/// among the faces of one of the regions that `classify_volumes` gives
/// with those geometric faces. `sides`, `lists`, `adj`, `flags`, `ms` and
/// `r` are what `face_adjacency` and `classify_faces` state of the faces
/// that `classification_faces` gives, and `regions` is what
/// `classify_volumes` states of the regions.
pub proof fn lemma_every_face_bounds_a_region(
    m: MeshView,
    sides: Seq<(u64, u64)>,
    lists: Seq<Seq<usize>>,
    adj: Seq<Seq<(usize, (u64, u64))>>,
    flags: Seq<Seq<bool>>,
    ms: Seq<Seq<int>>,
    r: FaceClassification,
    regions: Seq<GRegion>,
)
    requires
        first_inconsistent(m.elements) is None,
        has_volume(m.elements),
        adjacency_ok(adj, spec_classification_faces(m.elements).len() as int, sides, lists),
        components_of(smooth_graph(adj, flags), ms),
        classified(r, spec_classification_faces(m.elements), sides, lists, ms),
        r.faces@.len() <= usize::MAX,
        exists|rms: Seq<Seq<int>>|
            #![trigger regions_of(elements_of_dim(m.elements, 3), rms)]
            regions_of(elements_of_dim(m.elements, 3), rms) && rms.len() == regions.len() && forall|j: int|
                0 <= j < regions.len() ==> (#[trigger] regions[j]).face_ids@ == bounding_faces(
                    polygons_of(r.faces@),
                    elements_of_dim(m.elements, 3),
                    rms[j],
                    r.faces@.len(),
                ),
    ensures
        forall|t: usize| t < r.faces@.len() ==> #[trigger] face_of_a_region(regions, t),
{
    let es = m.elements;
    let vs = elements_of_dim(es, 3);
    let faces = spec_classification_faces(es);
    let gp = polygons_of(r.faces@);
    let rms = choose|rms: Seq<Seq<int>>|
        #![trigger regions_of(elements_of_dim(m.elements, 3), rms)]
        regions_of(elements_of_dim(m.elements, 3), rms) && rms.len() == regions.len() && forall|j: int|
            0 <= j < regions.len() ==> (#[trigger] regions[j]).face_ids@ == bounding_faces(
                polygons_of(r.faces@),
                elements_of_dim(m.elements, 3),
                rms[j],
                r.faces@.len(),
            );
    assert(faces == spec_boundary_faces(es));
    assert(smooth_graph(adj, flags).len() == faces.len());
    assert forall|t: usize| t < r.faces@.len() implies #[trigger] face_of_a_region(regions, t) by {
        let t = t as int;
        assert(ms[t].len() > 0);
        let x = ms[t][0];
        assert(0 <= x < faces.len());
        let f = faces[x];
        assert(lists_view(r.faces@[t].mesh_faces@) == crate::faces::faces_at(faces, ms[t]));
        assert(gp[t] == lists_view(r.faces@[t].mesh_faces@));
        assert(gp[t][0] == f);
        assert(faces.contains(f));
        lemma_boundary_face_of_volume(es, f);
        let i = choose|i: int| 0 <= i < vs.len() && #[trigger] is_face_of(f, vs[i]);
        assert(in_a_region(rms, i));
        let j = choose|j: int| 0 <= j < rms.len() && #[trigger] rms[j].contains(i);
        let u = choose|u: int| 0 <= u < rms[j].len() && rms[j][u] == i;
        assert(is_face_of(gp[t][0], vs[rms[j][u]]));
        assert(face_in(gp[t][0], vs, rms[j]));
        assert(bounds(gp[t], vs, rms[j]));
        lemma_bounding_contains(gp, vs, rms[j], r.faces@.len(), t);
        assert(regions[j].face_ids@.contains(t as usize));
    }
}

/// One of the regions `regions` lists the geometric face `t` among its
/// faces.
pub open spec fn face_of_a_region(regions: Seq<GRegion>, t: usize) -> bool {
    exists|j: int| 0 <= j < regions.len() && #[trigger] regions[j].face_ids@.contains(t)
}

} // verus!
