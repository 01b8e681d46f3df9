//! Classifying the surface of a mesh into smooth geometric faces bounded by
//! sharp or open edges, with corner vertices where such edges do not simply
//! continue one another. Whether two neighbouring mesh faces are smooth
//! across their common side is the caller's measure; the grouping that
//! follows from it is computed here.
use vstd::prelude::*;

use std::collections::HashMap;

use crate::boundary::{boundary_faces, copy_ids, first_inconsistent, lists_view, spec_boundary_faces};
use crate::element::spec_dimension;
use crate::extract::surface_element_faces;
use crate::mesh::{elements_view, Mesh};
use crate::surface_loop::{cyclic_keys, edge_key, key_code, lemma_key_code_injective};
use crate::tetra::has_volume;
use crate::topology::{GEdge, GFace, GVertex};
use crate::components::{
    as_ints, bfs_components, components_of, connected_components, graph_view, in_a_component, in_range, linked, lists_as_ints,
    symmetric,
};

verus! {

broadcast use vstd::std_specs::hash::group_hash_axioms;

// ─── The mesh faces to classify ─────────────────────────────────────────────

/// The mesh faces of the surface: the boundary faces of the volume elements
/// where there are volume elements, the node lists of the surface elements
/// otherwise.
pub open spec fn spec_classification_faces(es: Seq<crate::element::ElementView>) -> Seq<Seq<u64>> {
    if has_volume(es) {
        spec_boundary_faces(es)
    } else {
        surface_element_faces(es)
    }
}

/// The mesh faces of the surface: the boundary faces of the volume elements
/// where there are volume elements, the node lists of the surface elements
/// otherwise. Every face of a volume element refers to nodes it has.
pub fn classification_faces(mesh: &Mesh) -> (r: Vec<Vec<u64>>)
    requires
        first_inconsistent(mesh@.elements) is None,
    ensures
        lists_view(r@) == spec_classification_faces(mesh@.elements),
{
    let elems = mesh.elements();
    let ghost es = mesh@.elements;
    let mut k: usize = 0;
    let mut volume = false;
    while k < elems.len()
        invariant
            es == elements_view(elems@),
            k <= elems@.len(),
            volume == exists|q: int| 0 <= q < k && spec_dimension((#[trigger] es[q]).etype) == 3,
        decreases elems@.len() - k,
    {
        assert(es[k as int] == elems@[k as int]@);
        if elems[k].dimension() == 3 {
            volume = true;
        }
        k = k + 1;
    }
    if volume {
        match boundary_faces(mesh) {
            Ok(fs) => fs,
            Err(_) => Vec::new(),
        }
    } else {
        let mut out: Vec<Vec<u64>> = Vec::new();
        let mut i: usize = 0;
        while i < elems.len()
            invariant
                es == elements_view(elems@),
                i <= elems@.len(),
                lists_view(out@) == surface_element_faces(es.take(i as int)),
            decreases elems@.len() - i,
        {
            assert(es.take(i + 1).drop_last() =~= es.take(i as int));
            assert(es.take(i + 1).last() == elems@[i as int]@);
            let e = &elems[i];
            if e.dimension() == 2 {
                let copy = e.duplicate();
                let ghost before = out@;
                out.push(copy.node_ids);
                assert(lists_view(out@) =~= lists_view(before).push(e.node_ids@));
            }
            i = i + 1;
        }
        assert(es.take(i as int) =~= es);
        out
    }
}

// ─── Sides and neighbouring faces ────────────────────────────────────────────

/// The sides `ks`, each with the face index `f`.
pub open spec fn tag_sides(ks: Seq<(u64, u64)>, f: usize) -> Seq<((u64, u64), usize)> {
    ks.map_values(|k: (u64, u64)| (k, f))
}

/// The sides of the faces, each with the index of its face, face after
/// face.
pub open spec fn face_side_pairs(faces: Seq<Seq<u64>>) -> Seq<((u64, u64), usize)>
    decreases faces.len(),
{
    if faces.len() == 0 {
        seq![]
    } else {
        face_side_pairs(faces.drop_last()) + tag_sides(cyclic_keys(faces.last()), (faces.len() - 1) as usize)
    }
}

/// The distinct sides of `pairs` in the order first met, and for each the
/// faces that have it, in order.
pub open spec fn side_table(pairs: Seq<((u64, u64), usize)>) -> (Seq<(u64, u64)>, Seq<Seq<usize>>)
    decreases pairs.len(),
{
    if pairs.len() == 0 {
        (seq![], seq![])
    } else {
        let (ks, ls) = side_table(pairs.drop_last());
        let (k, f) = pairs.last();
        if ks.contains(k) {
            let x = ks.index_of(k);
            (ks, ls.update(x, ls[x].push(f)))
        } else {
            (ks.push(k), ls.push(seq![f]))
        }
    }
}

/// Face `g` lies across side `e` from face `f`: the list of that side
/// holds both, at two places.
pub open spec fn across(sides: Seq<(u64, u64)>, lists: Seq<Seq<usize>>, f: int, g: int, e: (u64, u64)) -> bool {
    exists|x: int, i: int, j: int|
        0 <= x < sides.len() && sides[x] == e && 0 <= i < lists[x].len() && 0 <= j < lists[x].len()
            && i != j && #[trigger] lists[x][i] as int == f && #[trigger] lists[x][j] as int == g
}

/// The neighbour entries `adj` of `nf` faces are, face by face, the faces
/// across a side from it, with the side.
pub open spec fn adjacency_ok(
    adj: Seq<Seq<(usize, (u64, u64))>>,
    nf: int,
    sides: Seq<(u64, u64)>,
    lists: Seq<Seq<usize>>,
) -> bool {
    &&& adj.len() == nf
    &&& forall|f: int, k: int|
        0 <= f < nf && 0 <= k < adj[f].len() ==> #[trigger] across(sides, lists, f, adj[f][k].0 as int, adj[f][k].1)
    &&& forall|f: int, g: int, e: (u64, u64)|
        0 <= f < nf && #[trigger] across(sides, lists, f, g, e) ==> exists|k: int|
            0 <= k < adj[f].len() && adj[f][k].0 as int == g && adj[f][k].1 == e
}

/// The neighbour entries of a list of faces, face by face.
pub open spec fn adj_view(adj: Seq<Vec<(usize, (u64, u64))>>) -> Seq<Seq<(usize, (u64, u64))>> {
    adj.map_values(|v: Vec<(usize, (u64, u64))>| v@)
}

/// The face lists of the sides.
pub open spec fn index_lists(ls: Seq<Vec<usize>>) -> Seq<Seq<usize>> {
    ls.map_values(|v: Vec<usize>| v@)
}

/// `v` with `x` appended.
fn pushed(v: &Vec<usize>, x: usize) -> (r: Vec<usize>)
    ensures
        r@ == v@.push(x),
{
    let mut r: Vec<usize> = Vec::new();
    let mut i: usize = 0;
    while i < v.len()
        invariant
            i <= v@.len(),
            r@ == v@.take(i as int),
        decreases v@.len() - i,
    {
        r.push(v[i]);
        i = i + 1;
        assert(r@ =~= v@.take(i as int));
    }
    assert(v@.take(i as int) =~= v@);
    r.push(x);
    r
}

/// Appends the face index `fi` to the list of side `x`.
fn add_to_list(lists: &mut Vec<Vec<usize>>, x: usize, fi: usize)
    requires
        x < old(lists)@.len(),
    ensures
        final(lists)@.len() == old(lists)@.len(),
        index_lists(final(lists)@) == index_lists(old(lists)@).update(x as int, index_lists(old(lists)@)[x as int].push(fi)),
{
    let l = pushed(&lists[x], fi);
    lists.set(x, l);
    assert(index_lists(lists@) =~= index_lists(old(lists)@).update(x as int, index_lists(old(lists)@)[x as int].push(fi)));
}

/// The distinct sides of the faces in the order first met, and for each
/// the faces that have it, in order.
fn side_lists(faces: &Vec<Vec<u64>>) -> (r: (Vec<(u64, u64)>, Vec<Vec<usize>>))
    ensures
        (r.0@, index_lists(r.1@)) == side_table(face_side_pairs(lists_view(faces@))),
        r.0@.no_duplicates(),
        r.0@.len() == r.1@.len(),
        forall|x: int, i: int| 0 <= x < r.1@.len() && 0 <= i < r.1@[x]@.len() ==> #[trigger] r.1@[x]@[i] < faces@.len(),
{
    let ghost fv = lists_view(faces@);
    let mut codes: HashMap<u128, usize> = HashMap::new();
    let mut sides: Vec<(u64, u64)> = Vec::new();
    let mut lists: Vec<Vec<usize>> = Vec::new();
    let mut fi: usize = 0;
    assert(fv.take(0) =~= Seq::<Seq<u64>>::empty());
    while fi < faces.len()
        invariant
            fv == lists_view(faces@),
            fi <= faces@.len(),
            (sides@, index_lists(lists@)) == side_table(face_side_pairs(fv.take(fi as int))),
            sides@.no_duplicates(),
            sides@.len() == lists@.len(),
            forall|x: int, i: int| 0 <= x < lists@.len() && 0 <= i < lists@[x]@.len() ==> #[trigger] lists@[x]@[i] < fi,
            forall|k: (u64, u64)| #[trigger] codes@.contains_key(key_code(k) as u128) <==> sides@.contains(k),
            forall|k: (u64, u64)| sides@.contains(k) ==> codes@[#[trigger] key_code(k) as u128] as int == sides@.index_of(k),
        decreases faces@.len() - fi,
    {
        let face = &faces[fi];
        let n = face.len();
        let ghost before = face_side_pairs(fv.take(fi as int));
        let ghost ck = cyclic_keys(face@);
        assert(fv[fi as int] == face@);
        let mut i: usize = 0;
        assert(ck.take(0) =~= Seq::<(u64, u64)>::empty());
        assert(before + tag_sides(ck.take(0), fi) =~= before);
        while i < n
            invariant
                fv == lists_view(faces@),
                fi < faces@.len(),
                face@ == fv[fi as int],
                n == face@.len(),
                ck == cyclic_keys(face@),
                i <= n,
                (sides@, index_lists(lists@)) == side_table(before + tag_sides(ck.take(i as int), fi)),
                sides@.no_duplicates(),
                sides@.len() == lists@.len(),
                forall|x: int, j: int| 0 <= x < lists@.len() && 0 <= j < lists@[x]@.len() ==> #[trigger] lists@[x]@[j] < fi + 1,
                forall|k: (u64, u64)| #[trigger] codes@.contains_key(key_code(k) as u128) <==> sides@.contains(k),
                forall|k: (u64, u64)| sides@.contains(k) ==> codes@[#[trigger] key_code(k) as u128] as int == sides@.index_of(k),
            decreases n - i,
        {
            let a = face[i];
            let b = face[(i + 1) % n];
            let k = if a < b {
                (a, b)
            } else {
                (b, a)
            };
            assert(k == ck[i as int]);
            let code: u128 = (k.0 as u128) * 0x1_0000_0000_0000_0000 + (k.1 as u128);
            assert(code as int == key_code(k)) by (nonlinear_arith)
                requires
                    code == (k.0 as u128) * 0x1_0000_0000_0000_0000 + (k.1 as u128),
            ;
            let ghost prev = before + tag_sides(ck.take(i as int), fi);
            assert(before + tag_sides(ck.take(i + 1), fi) =~= prev.push((k, fi)));
            assert(prev.push((k, fi)).drop_last() =~= prev);
            let ghost old_sides = sides@;
            let ghost old_lists = index_lists(lists@);
            match codes.get(&code) {
                Some(x) => {
                    let x = *x;
                    assert(sides@.contains(k));
                    proof {
                        let w = sides@.index_of(k);
                        assert(0 <= w < sides@.len() && sides@[w] == k);
                    }
                    add_to_list(&mut lists, x, fi);
                    assert forall|y: int, j: int| 0 <= y < lists@.len() && 0 <= j < lists@[y]@.len() implies #[trigger] lists@[y]@[j] < fi + 1 by {
                        assert(index_lists(lists@)[y] == lists@[y]@);
                        assert(old_lists.len() == lists@.len());
                        if y != x {
                            assert(lists@[y]@ == old_lists[y]);
                        } else if j < old_lists[y].len() {
                            assert(lists@[y]@[j] == old_lists[y][j]);
                        }
                    }
                },
                None => {
                    assert(!sides@.contains(k));
                    let x = sides.len();
                    sides.push(k);
                    let mut l: Vec<usize> = Vec::new();
                    l.push(fi);
                    lists.push(l);
                    assert(index_lists(lists@) =~= old_lists.push(seq![fi]));
                    codes.insert(code, x);
                    assert(sides@.no_duplicates()) by {
                        assert forall|p: int, q: int| 0 <= p < sides@.len() && 0 <= q < sides@.len() && p != q implies sides@[p] != sides@[q] by {
                            if p == x as int {
                                assert(old_sides.contains(sides@[q]) ==> sides@[q] != k);
                                assert(old_sides[q] == sides@[q]);
                            } else if q == x as int {
                                assert(old_sides[p] == sides@[p]);
                            } else {
                                assert(old_sides[p] == sides@[p] && old_sides[q] == sides@[q]);
                            }
                        }
                    }
                    assert forall|kk: (u64, u64)| #[trigger] codes@.contains_key(key_code(kk) as u128) <==> sides@.contains(kk) by {
                        lemma_key_code_injective(kk, k);
                        assert(key_code(kk) as u128 == key_code(k) as u128 ==> key_code(kk) == key_code(k)) by {
                            lemma_key_code_range(kk);
                            lemma_key_code_range(k);
                        }
                        if sides@.contains(kk) && kk != k {
                            let w = choose|w: int| 0 <= w < sides@.len() && sides@[w] == kk;
                            assert(old_sides[w] == kk);
                        }
                        if old_sides.contains(kk) {
                            let w = choose|w: int| 0 <= w < old_sides.len() && old_sides[w] == kk;
                            assert(sides@[w] == kk);
                        }
                        if kk == k {
                            assert(sides@[x as int] == k);
                        }
                    }
                    assert forall|kk: (u64, u64)| sides@.contains(kk) implies codes@[#[trigger] key_code(kk) as u128] as int == sides@.index_of(kk) by {
                        lemma_key_code_injective(kk, k);
                        lemma_key_code_range(kk);
                        lemma_key_code_range(k);
                        let w = sides@.index_of(kk);
                        assert(0 <= w < sides@.len() && sides@[w] == kk);
                        if kk == k {
                            if w != x as int {
                                assert(old_sides[w] == k);
                            }
                        } else {
                            assert(w != x as int);
                            assert(old_sides[w] == kk);
                            assert(old_sides.contains(kk));
                            let w0 = old_sides.index_of(kk);
                            assert(0 <= w0 < old_sides.len() && old_sides[w0] == kk);
                            assert(sides@[w0] == kk);
                            if w0 != w {
                                assert(sides@[w0] == sides@[w]);
                            }
                        }
                    }
                },
            }
            i = i + 1;
        }
        proof {
            assert(ck.take(n as int) =~= ck);
            assert(fv.take(fi + 1).drop_last() =~= fv.take(fi as int));
            assert(fv.take(fi + 1).last() == face@);
        }
        fi = fi + 1;
    }
    assert(fv.take(fi as int) =~= fv);
    (sides, lists)
}

/// The number of a side fits in 128 bits.
proof fn lemma_key_code_range(k: (u64, u64))
    ensures
        0 <= key_code(k) < 0x1_0000_0000_0000_0000_0000_0000_0000_0000,
        key_code(k) as u128 as int == key_code(k),
{
    let (a, b) = (k.0 as int, k.1 as int);
    assert(0 <= a * 0x1_0000_0000_0000_0000 + b < 0x1_0000_0000_0000_0000_0000_0000_0000_0000) by (nonlinear_arith)
        requires
            0 <= a < 0x1_0000_0000_0000_0000,
            0 <= b < 0x1_0000_0000_0000_0000,
    ;
}

/// The sides are distinct, each with a list of faces, each face one of the
/// `nf` faces.
pub open spec fn sides_ok(sides: Seq<(u64, u64)>, lists: Seq<Seq<usize>>, nf: int) -> bool {
    &&& sides.no_duplicates()
    &&& sides.len() == lists.len()
    &&& forall|x: int, i: int| 0 <= x < lists.len() && 0 <= i < lists[x].len() ==> #[trigger] lists[x][i] < nf
}

/// Face `f` has the entry `(g, e)`.
pub open spec fn has_entry(adj: Seq<Seq<(usize, (u64, u64))>>, f: int, g: int, e: (u64, u64)) -> bool {
    exists|k: int| 0 <= k < adj[f].len() && adj[f][k].0 as int == g && adj[f][k].1 == e
}

/// The pair of places `a`, `b` of the list of side `x2` comes before place
/// pair `(i, j)` of side `x`.
pub open spec fn pair_done(x: int, i: int, j: int, x2: int, a: int, b: int) -> bool {
    let lo = if a < b {
        a
    } else {
        b
    };
    let hi = if a < b {
        b
    } else {
        a
    };
    x2 < x || (x2 == x && (lo < i || (lo == i && hi < j)))
}

/// The entries that the pairs of places `(i, j2)`, `i < j2 < j`, of the
/// list `l` of side `e` add, pair by pair: `l[j2]` to the list of `l[i]`,
/// then `l[i]` to the list of `l[j2]`.
pub open spec fn pair_entries(l: Seq<usize>, e: (u64, u64), i: int, j: int) -> Seq<(usize, (usize, (u64, u64)))>
    decreases j - i,
{
    if j <= i + 1 {
        seq![]
    } else {
        pair_entries(l, e, i, j - 1) + seq![(l[i], (l[j - 1], e)), (l[j - 1], (l[i], e))]
    }
}

/// The entries that the places before `i` of the list `l` of side `e` add
/// with the places after them.
pub open spec fn side_entries(l: Seq<usize>, e: (u64, u64), i: nat) -> Seq<(usize, (usize, (u64, u64)))>
    decreases i,
{
    if i == 0 {
        seq![]
    } else {
        side_entries(l, e, (i - 1) as nat) + pair_entries(l, e, i - 1, l.len() as int)
    }
}

/// The entries that the first `x` sides add, side by side.
pub open spec fn sides_entries(sides: Seq<(u64, u64)>, lists: Seq<Seq<usize>>, x: nat) -> Seq<(usize, (usize, (u64, u64)))>
    decreases x,
{
    if x == 0 {
        seq![]
    } else {
        sides_entries(sides, lists, (x - 1) as nat) + side_entries(lists[x - 1], sides[x - 1], lists[x - 1].len())
    }
}

/// The entries of `es` added to the list of face `f`, in order.
pub open spec fn entries_of(es: Seq<(usize, (usize, (u64, u64)))>, f: usize) -> Seq<(usize, (u64, u64))>
    decreases es.len(),
{
    if es.len() == 0 {
        seq![]
    } else {
        entries_of(es.drop_last(), f) + if es.last().0 == f {
            seq![es.last().1]
        } else {
            seq![]
        }
    }
}

/// The lists of the `nf` faces after the entries `es`.
pub open spec fn entries_table(es: Seq<(usize, (usize, (u64, u64)))>, nf: nat) -> Seq<Seq<(usize, (u64, u64))>> {
    Seq::new(nf, |f: int| entries_of(es, f as usize))
}

/// The neighbour entries of the `nf` faces with the sides `sides` and
/// their face lists `lists`: for each side in order, for each pair of
/// places in its list, each face of the pair gets the other.
pub open spec fn neighbour_entries(sides: Seq<(u64, u64)>, lists: Seq<Seq<usize>>, nf: nat) -> Seq<Seq<(usize, (u64, u64))>> {
    entries_table(sides_entries(sides, lists, sides.len()), nf)
}

/// Appending an entry appends it to the list of its face.
proof fn lemma_entries_push(es: Seq<(usize, (usize, (u64, u64)))>, t: (usize, (usize, (u64, u64))), nf: nat)
    requires
        t.0 < nf <= usize::MAX,
    ensures
        entries_table(es.push(t), nf) == entries_table(es, nf).update(
            t.0 as int,
            entries_table(es, nf)[t.0 as int].push(t.1),
        ),
{
    assert forall|f: int| 0 <= f < nf implies #[trigger] entries_table(es.push(t), nf)[f] == entries_table(es, nf).update(
        t.0 as int,
        entries_table(es, nf)[t.0 as int].push(t.1),
    )[f] by {
        assert(es.push(t).drop_last() =~= es);
        if f == t.0 as int {
            assert(entries_of(es.push(t), f as usize) =~= entries_of(es, f as usize).push(t.1));
        } else {
            assert(entries_of(es.push(t), f as usize) =~= entries_of(es, f as usize));
        }
    }
    assert(entries_table(es.push(t), nf) =~= entries_table(es, nf).update(
        t.0 as int,
        entries_table(es, nf)[t.0 as int].push(t.1),
    ));
}

/// An entry stays when another is appended.
proof fn lemma_entry_kept(
    adj: Seq<Seq<(usize, (u64, u64))>>,
    f: int,
    g: usize,
    e: (u64, u64),
    f2: int,
    g2: int,
    e2: (u64, u64),
)
    requires
        0 <= f < adj.len(),
        0 <= f2 < adj.len(),
        has_entry(adj, f2, g2, e2),
    ensures
        has_entry(adj.update(f, adj[f].push((g, e))), f2, g2, e2),
{
    let k = choose|k: int| 0 <= k < adj[f2].len() && adj[f2][k].0 as int == g2 && adj[f2][k].1 == e2;
    let a2 = adj.update(f, adj[f].push((g, e)));
    if f2 == f {
        assert(a2[f2][k] == adj[f2][k]);
    } else {
        assert(a2[f2] == adj[f2]);
    }
}

/// Appends the entry `(g, e)` to face `f`.
fn add_entry(adj: &mut Vec<Vec<(usize, (u64, u64))>>, f: usize, g: usize, e: (u64, u64))
    requires
        f < old(adj)@.len(),
    ensures
        final(adj)@.len() == old(adj)@.len(),
        adj_view(final(adj)@) == adj_view(old(adj)@).update(f as int, adj_view(old(adj)@)[f as int].push((g, e))),
{
    let mut r: Vec<(usize, (u64, u64))> = Vec::new();
    let mut i: usize = 0;
    while i < adj[f].len()
        invariant
            f < adj@.len(),
            adj@ == old(adj)@,
            i <= adj@[f as int]@.len(),
            r@ == adj@[f as int]@.take(i as int),
        decreases adj@[f as int]@.len() - i,
    {
        r.push(adj[f][i]);
        i = i + 1;
        assert(r@ =~= adj@[f as int]@.take(i as int));
    }
    assert(adj@[f as int]@.take(i as int) =~= adj@[f as int]@);
    r.push((g, e));
    adj.set(f, r);
    assert(adj_view(adj@) =~= adj_view(old(adj)@).update(f as int, adj_view(old(adj)@)[f as int].push((g, e))));
}

/// The neighbour entries of `nf` faces: for each side, in order, and each
/// two places of its list, the face at each place gets the face at the
/// other with the side.
fn face_neighbours(nf: usize, sides: &Vec<(u64, u64)>, lists: &Vec<Vec<usize>>) -> (adj: Vec<Vec<(usize, (u64, u64))>>)
    requires
        sides@.len() == lists@.len(),
        forall|x: int, i: int| 0 <= x < lists@.len() && 0 <= i < lists@[x]@.len() ==> #[trigger] lists@[x]@[i] < nf,
    ensures
        adjacency_ok(adj_view(adj@), nf as int, sides@, index_lists(lists@)),
        adj_view(adj@) == neighbour_entries(sides@, index_lists(lists@), nf as nat),
{
    let ghost ls = index_lists(lists@);
    let mut adj: Vec<Vec<(usize, (u64, u64))>> = Vec::new();
    let mut f: usize = 0;
    while f < nf
        invariant
            f <= nf,
            adj@.len() == f,
            forall|q: int| 0 <= q < f ==> (#[trigger] adj@[q])@.len() == 0,
        decreases nf - f,
    {
        adj.push(Vec::new());
        f = f + 1;
    }
    assert forall|q: int| 0 <= q < nf implies #[trigger] adj_view(adj@)[q] == entries_table(sides_entries(sides@, ls, 0), nf as nat)[q] by {
        assert(adj@[q]@.len() == 0);
        assert(adj_view(adj@)[q] =~= Seq::<(usize, (u64, u64))>::empty());
    }
    assert(adj_view(adj@) =~= entries_table(sides_entries(sides@, ls, 0), nf as nat));
    let mut x: usize = 0;
    while x < sides.len()
        invariant
            adj_view(adj@) == entries_table(sides_entries(sides@, ls, x as nat), nf as nat),
            ls == index_lists(lists@),
            sides@.len() == lists@.len(),
            forall|y: int, i: int| 0 <= y < lists@.len() && 0 <= i < lists@[y]@.len() ==> #[trigger] lists@[y]@[i] < nf,
            adj@.len() == nf,
            x <= sides@.len(),
            forall|q: int, k: int|
                0 <= q < nf && 0 <= k < adj_view(adj@)[q].len() ==> #[trigger] across(
                    sides@,
                    ls,
                    q,
                    adj_view(adj@)[q][k].0 as int,
                    adj_view(adj@)[q][k].1,
                ),
            forall|x2: int, a: int, b: int|
                0 <= x2 < sides@.len() && 0 <= a < ls[x2].len() && 0 <= b < ls[x2].len() && a != b
                    && #[trigger] pair_done(x as int, 0, 0, x2, a, b) ==> has_entry(
                    adj_view(adj@),
                    ls[x2][a] as int,
                    ls[x2][b] as int,
                    sides@[x2],
                ),
        decreases sides@.len() - x,
    {
        let e = sides[x];
        let l = &lists[x];
        assert(ls[x as int] == l@);
        let ghost done = sides_entries(sides@, ls, x as nat);
        assert(done + side_entries(l@, e, 0) =~= done);
        let mut i: usize = 0;
        while i < l.len()
            invariant
                adj_view(adj@) == entries_table(done + side_entries(l@, e, i as nat), nf as nat),
                done == sides_entries(sides@, ls, x as nat),
                ls == index_lists(lists@),
                sides@.len() == lists@.len(),
                forall|y: int, p: int| 0 <= y < lists@.len() && 0 <= p < lists@[y]@.len() ==> #[trigger] lists@[y]@[p] < nf,
                adj@.len() == nf,
                x < sides@.len(),
                e == sides@[x as int],
                ls[x as int] == l@,
                i <= l@.len(),
                forall|q: int, k: int|
                    0 <= q < nf && 0 <= k < adj_view(adj@)[q].len() ==> #[trigger] across(
                        sides@,
                        ls,
                        q,
                        adj_view(adj@)[q][k].0 as int,
                        adj_view(adj@)[q][k].1,
                    ),
                forall|x2: int, a: int, b: int|
                    0 <= x2 < sides@.len() && 0 <= a < ls[x2].len() && 0 <= b < ls[x2].len() && a != b
                        && #[trigger] pair_done(x as int, i as int, 0, x2, a, b) ==> has_entry(
                        adj_view(adj@),
                        ls[x2][a] as int,
                        ls[x2][b] as int,
                        sides@[x2],
                    ),
            decreases l@.len() - i,
        {
            let mut j: usize = i + 1;
            let ghost before_i = done + side_entries(l@, e, i as nat);
            assert(before_i + pair_entries(l@, e, i as int, j as int) =~= before_i);
            assert forall|x2: int, a: int, b: int|
                0 <= x2 < sides@.len() && 0 <= a < ls[x2].len() && 0 <= b < ls[x2].len() && a != b
                    && #[trigger] pair_done(x as int, i as int, j as int, x2, a, b) implies has_entry(
                    adj_view(adj@),
                    ls[x2][a] as int,
                    ls[x2][b] as int,
                    sides@[x2],
                ) by {
                assert(pair_done(x as int, i as int, 0, x2, a, b));
            }
            while j < l.len()
                invariant
                    adj_view(adj@) == entries_table(before_i + pair_entries(l@, e, i as int, j as int), nf as nat),
                    before_i == done + side_entries(l@, e, i as nat),
                    ls == index_lists(lists@),
                    sides@.len() == lists@.len(),
                    forall|y: int, p: int| 0 <= y < lists@.len() && 0 <= p < lists@[y]@.len() ==> #[trigger] lists@[y]@[p] < nf,
                    adj@.len() == nf,
                    x < sides@.len(),
                    e == sides@[x as int],
                    ls[x as int] == l@,
                    i < l@.len(),
                    i + 1 <= j <= l@.len(),
                    forall|q: int, k: int|
                        0 <= q < nf && 0 <= k < adj_view(adj@)[q].len() ==> #[trigger] across(
                            sides@,
                            ls,
                            q,
                            adj_view(adj@)[q][k].0 as int,
                            adj_view(adj@)[q][k].1,
                        ),
                    forall|x2: int, a: int, b: int|
                        0 <= x2 < sides@.len() && 0 <= a < ls[x2].len() && 0 <= b < ls[x2].len() && a != b
                            && #[trigger] pair_done(x as int, i as int, j as int, x2, a, b) ==> has_entry(
                            adj_view(adj@),
                            ls[x2][a] as int,
                            ls[x2][b] as int,
                            sides@[x2],
                        ),
                decreases l@.len() - j,
            {
                let fa = l[i];
                let fb = l[j];
                assert(fa < nf && fb < nf) by {
                    assert(lists@[x as int]@[i as int] == fa);
                    assert(lists@[x as int]@[j as int] == fb);
                }
                let ghost a0 = adj_view(adj@);
                add_entry(&mut adj, fa, fb, e);
                let ghost a1 = adj_view(adj@);
                add_entry(&mut adj, fb, fa, e);
                let ghost a2 = adj_view(adj@);
                proof {
                    let p0 = before_i + pair_entries(l@, e, i as int, j as int);
                    let t1 = (fa, (fb, e));
                    let t2 = (fb, (fa, e));
                    lemma_entries_push(p0, t1, nf as nat);
                    lemma_entries_push(p0.push(t1), t2, nf as nat);
                    assert(l@[i as int] == fa && l@[j as int] == fb);
                    assert(pair_entries(l@, e, i as int, j + 1) == pair_entries(l@, e, i as int, j as int) + seq![t1, t2]);
                    assert(before_i + pair_entries(l@, e, i as int, j + 1) =~= p0.push(t1).push(t2));
                }
                assert(across(sides@, ls, fa as int, fb as int, e)) by {
                    assert(ls[x as int][i as int] == fa && ls[x as int][j as int] == fb);
                }
                assert(across(sides@, ls, fb as int, fa as int, e)) by {
                    assert(ls[x as int][j as int] == fb && ls[x as int][i as int] == fa);
                }
                assert forall|q: int, k: int|
                    0 <= q < nf && 0 <= k < a2[q].len() implies #[trigger] across(
                        sides@,
                        ls,
                        q,
                        a2[q][k].0 as int,
                        a2[q][k].1,
                    ) by {
                    if q == fb as int && k == a1[q].len() {
                    } else {
                        assert(a2[q][k] == a1[q][k]);
                        if q == fa as int && k == a0[q].len() {
                        } else {
                            assert(a1[q][k] == a0[q][k]);
                        }
                    }
                }
                assert forall|x2: int, a: int, b: int|
                    0 <= x2 < sides@.len() && 0 <= a < ls[x2].len() && 0 <= b < ls[x2].len() && a != b
                        && #[trigger] pair_done(x as int, i as int, j + 1, x2, a, b) implies has_entry(
                        a2,
                        ls[x2][a] as int,
                        ls[x2][b] as int,
                        sides@[x2],
                    ) by {
                    if pair_done(x as int, i as int, j as int, x2, a, b) {
                        lemma_entry_kept(a0, fa as int, fb, e, ls[x2][a] as int, ls[x2][b] as int, sides@[x2]);
                        lemma_entry_kept(a1, fb as int, fa, e, ls[x2][a] as int, ls[x2][b] as int, sides@[x2]);
                    } else {
                        assert(x2 == x);
                        if a == i as int {
                            assert(b == j as int);
                            assert(a1[fa as int][a0[fa as int].len() as int] == (fb, e));
                            assert(has_entry(a1, fa as int, fb as int, e));
                            lemma_entry_kept(a1, fb as int, fa, e, fa as int, fb as int, e);
                        } else {
                            assert(b == i as int && a == j as int);
                            assert(a2[fb as int][a1[fb as int].len() as int] == (fa, e));
                        }
                    }
                }
                j = j + 1;
            }
            assert forall|x2: int, a: int, b: int|
                0 <= x2 < sides@.len() && 0 <= a < ls[x2].len() && 0 <= b < ls[x2].len() && a != b
                    && #[trigger] pair_done(x as int, i + 1, 0, x2, a, b) implies has_entry(
                    adj_view(adj@),
                    ls[x2][a] as int,
                    ls[x2][b] as int,
                    sides@[x2],
                ) by {
                assert(pair_done(x as int, i as int, j as int, x2, a, b));
            }
            assert(done + side_entries(l@, e, (i + 1) as nat) =~= before_i + pair_entries(l@, e, i as int, j as int));
            i = i + 1;
        }
        assert forall|x2: int, a: int, b: int|
            0 <= x2 < sides@.len() && 0 <= a < ls[x2].len() && 0 <= b < ls[x2].len() && a != b
                && #[trigger] pair_done(x + 1, 0, 0, x2, a, b) implies has_entry(
                adj_view(adj@),
                ls[x2][a] as int,
                ls[x2][b] as int,
                sides@[x2],
            ) by {
            assert(pair_done(x as int, i as int, 0, x2, a, b));
        }
        assert(sides_entries(sides@, ls, (x + 1) as nat) == done + side_entries(l@, e, i as nat));
        x = x + 1;
    }
    assert forall|q: int, g: int, e: (u64, u64)|
        0 <= q < nf && #[trigger] across(sides@, ls, q, g, e) implies exists|k: int|
            0 <= k < adj_view(adj@)[q].len() && adj_view(adj@)[q][k].0 as int == g && adj_view(adj@)[q][k].1 == e by {
        let (x2, a, b) = choose|x2: int, a: int, b: int|
            0 <= x2 < sides@.len() && sides@[x2] == e && 0 <= a < ls[x2].len() && 0 <= b < ls[x2].len()
                && a != b && #[trigger] ls[x2][a] as int == q && #[trigger] ls[x2][b] as int == g;
        assert(pair_done(x as int, 0, 0, x2, a, b));
    }
    adj
}

/// The sides of the faces and the faces across each side from each face:
/// the distinct sides in the order first met with, for each, the faces that
/// have it; and, for each face, its entries (neighbour, side), one for
/// each other place where the list of one of its sides holds it, added side
/// by side and, within a side's list, pair of places by pair of places
/// (see `neighbour_entries`).
pub fn face_adjacency(faces: &Vec<Vec<u64>>) -> (r: (Vec<(u64, u64)>, Vec<Vec<usize>>, Vec<Vec<(usize, (u64, u64))>>))
    ensures
        (r.0@, index_lists(r.1@)) == side_table(face_side_pairs(lists_view(faces@))),
        sides_ok(r.0@, index_lists(r.1@), faces@.len() as int),
        adjacency_ok(adj_view(r.2@), faces@.len() as int, r.0@, index_lists(r.1@)),
        adj_view(r.2@) == neighbour_entries(r.0@, index_lists(r.1@), faces@.len() as nat),
{
    let (sides, lists) = side_lists(faces);
    let adj = face_neighbours(faces.len(), &sides, &lists);
    assert(sides_ok(sides@, index_lists(lists@), faces@.len() as int)) by {
        assert forall|x: int, i: int| 0 <= x < index_lists(lists@).len() && 0 <= i < index_lists(lists@)[x].len() implies #[trigger] index_lists(lists@)[x][i] < faces@.len() by {
            assert(index_lists(lists@)[x] == lists@[x]@);
        }
    }
    (sides, lists, adj)
}

// ─── Smooth faces ────────────────────────────────────────────────────────────

/// The neighbours of the entries `a` that the flags `fl` mark smooth, in
/// order.
pub open spec fn smooth_list(a: Seq<(usize, (u64, u64))>, fl: Seq<bool>) -> Seq<usize>
    decreases a.len(),
{
    if a.len() == 0 {
        seq![]
    } else {
        let r = smooth_list(a.drop_last(), fl);
        if fl[a.len() - 1] {
            r.push(a.last().0)
        } else {
            r
        }
    }
}

/// The graph of faces joined across a side where the flags mark them
/// smooth.
pub open spec fn smooth_graph(adj: Seq<Seq<(usize, (u64, u64))>>, flags: Seq<Seq<bool>>) -> Seq<Seq<usize>> {
    Seq::new(adj.len(), |f: int| smooth_list(adj[f], flags[f]))
}

/// The flags of a list of faces.
pub open spec fn flags_view(flags: Seq<Vec<bool>>) -> Seq<Seq<bool>> {
    flags.map_values(|v: Vec<bool>| v@)
}

/// The flags are given entry by entry, and two entries between the same
/// two faces, either way round, have the same flag.
pub open spec fn flags_ok(adj: Seq<Seq<(usize, (u64, u64))>>, flags: Seq<Seq<bool>>) -> bool {
    &&& flags.len() == adj.len()
    &&& forall|f: int| 0 <= f < adj.len() ==> (#[trigger] flags[f]).len() == adj[f].len()
    &&& forall|f: int, k: int, g: int, k2: int|
        0 <= f < adj.len() && 0 <= k < adj[f].len() && 0 <= g < adj.len() && 0 <= k2 < adj[g].len()
            && #[trigger] adj[f][k].0 as int == g && #[trigger] adj[g][k2].0 as int == f ==> flags[f][k] == flags[g][k2]
}

/// What the smooth neighbours of a face hold.
proof fn lemma_smooth_list(a: Seq<(usize, (u64, u64))>, fl: Seq<bool>)
    requires
        fl.len() == a.len(),
    ensures
        forall|g: usize| #[trigger] smooth_list(a, fl).contains(g) <==> exists|k: int| 0 <= k < a.len() && a[k].0 == g && fl[k],
        forall|t: int| 0 <= t < smooth_list(a, fl).len() ==> exists|k: int| 0 <= k < a.len() && a[k].0 == #[trigger] smooth_list(a, fl)[t],
    decreases a.len(),
{
    if a.len() > 0 {
        let d = a.drop_last();
        let fd = fl.drop_last();
        lemma_smooth_list(d, fd);
        assert(smooth_list(d, fl) == smooth_list(d, fd)) by {
            lemma_smooth_list_prefix(d, fl, fd);
        }
        let r = smooth_list(d, fl);
        assert forall|g: usize| #[trigger] smooth_list(a, fl).contains(g) <==> exists|k: int| 0 <= k < a.len() && a[k].0 == g && fl[k] by {
            if smooth_list(a, fl).contains(g) {
                let t = choose|t: int| 0 <= t < smooth_list(a, fl).len() && smooth_list(a, fl)[t] == g;
                if t < r.len() {
                    assert(r[t] == g);
                    assert(r.contains(g));
                    let k = choose|k: int| 0 <= k < d.len() && d[k].0 == g && fd[k];
                    assert(a[k] == d[k] && fl[k] == fd[k]);
                } else {
                    assert(a[a.len() - 1].0 == g);
                }
            }
            if exists|k: int| 0 <= k < a.len() && a[k].0 == g && fl[k] {
                let k = choose|k: int| 0 <= k < a.len() && a[k].0 == g && fl[k];
                if k < a.len() - 1 {
                    assert(d[k] == a[k] && fd[k] == fl[k]);
                    assert(r.contains(g));
                    let t = choose|t: int| 0 <= t < r.len() && r[t] == g;
                    assert(smooth_list(a, fl)[t] == g);
                } else {
                    assert(smooth_list(a, fl)[r.len() as int] == g);
                }
            }
        }
        assert forall|t: int| 0 <= t < smooth_list(a, fl).len() implies exists|k: int| 0 <= k < a.len() && a[k].0 == #[trigger] smooth_list(a, fl)[t] by {
            if t < r.len() {
                let k = choose|k: int| 0 <= k < d.len() && d[k].0 == #[trigger] r[t];
                assert(a[k] == d[k]);
            } else {
                assert(a[a.len() - 1].0 == smooth_list(a, fl)[t]);
            }
        }
    }
}

/// Only the flags of the entries matter.
proof fn lemma_smooth_list_prefix(a: Seq<(usize, (u64, u64))>, fl: Seq<bool>, fl2: Seq<bool>)
    requires
        fl.len() >= a.len(),
        fl2.len() >= a.len(),
        forall|k: int| 0 <= k < a.len() ==> fl[k] == fl2[k],
    ensures
        smooth_list(a, fl) == smooth_list(a, fl2),
    decreases a.len(),
{
    if a.len() > 0 {
        lemma_smooth_list_prefix(a.drop_last(), fl, fl2);
    }
}

/// The smooth neighbours, face by face.
fn smooth_neighbours(adj: &Vec<Vec<(usize, (u64, u64))>>, flags: &Vec<Vec<bool>>) -> (g: Vec<Vec<usize>>)
    requires
        flags_ok(adj_view(adj@), flags_view(flags@)),
    ensures
        graph_view(g@) == smooth_graph(adj_view(adj@), flags_view(flags@)),
{
    let ghost av = adj_view(adj@);
    let ghost fv = flags_view(flags@);
    let mut out: Vec<Vec<usize>> = Vec::new();
    let mut f: usize = 0;
    while f < adj.len()
        invariant
            av == adj_view(adj@),
            fv == flags_view(flags@),
            flags_ok(av, fv),
            f <= adj@.len(),
            out@.len() == f,
            forall|q: int| 0 <= q < f ==> (#[trigger] out@[q])@ == smooth_list(av[q], fv[q]),
        decreases adj@.len() - f,
    {
        let a = &adj[f];
        let fl = &flags[f];
        assert(av[f as int] == a@ && fv[f as int] == fl@);
        assert(fl@.len() == a@.len());
        let mut l: Vec<usize> = Vec::new();
        let mut k: usize = 0;
        while k < a.len()
            invariant
                fl@.len() == a@.len(),
                k <= a@.len(),
                l@ == smooth_list(a@.take(k as int), fl@),
            decreases a@.len() - k,
        {
            assert(a@.take(k + 1).drop_last() =~= a@.take(k as int));
            assert(a@.take(k + 1).last() == a@[k as int]);
            if fl[k] {
                l.push(a[k].0);
            }
            k = k + 1;
        }
        assert(a@.take(k as int) =~= a@);
        out.push(l);
        f = f + 1;
    }
    assert(graph_view(out@) =~= smooth_graph(av, fv)) by {
        assert forall|q: int| 0 <= q < out@.len() implies #[trigger] graph_view(out@)[q] == smooth_graph(av, fv)[q] by {
            assert(out@[q]@ == smooth_list(av[q], fv[q]));
        }
    }
    out
}

/// Across-side neighbours with consistent flags give a graph of faces that
/// is symmetric and names only faces.
proof fn lemma_smooth_graph_ok(
    adj: Seq<Seq<(usize, (u64, u64))>>,
    nf: int,
    sides: Seq<(u64, u64)>,
    lists: Seq<Seq<usize>>,
    flags: Seq<Seq<bool>>,
)
    requires
        adjacency_ok(adj, nf, sides, lists),
        sides_ok(sides, lists, nf),
        flags_ok(adj, flags),
    ensures
        symmetric(smooth_graph(adj, flags)),
        in_range(smooth_graph(adj, flags)),
        smooth_graph(adj, flags).len() == nf,
{
    let g = smooth_graph(adj, flags);
    assert forall|f: int| 0 <= f < nf implies #[trigger] g[f] == smooth_list(adj[f], flags[f]) by {}
    assert forall|a: int, k: int| 0 <= a < g.len() && 0 <= k < g[a].len() implies #[trigger] g[a][k] < g.len() by {
        lemma_smooth_list(adj[a], flags[a]);
        let k2 = choose|k2: int| 0 <= k2 < adj[a].len() && adj[a][k2].0 == #[trigger] smooth_list(adj[a], flags[a])[k];
        assert(across(sides, lists, a, adj[a][k2].0 as int, adj[a][k2].1));
        let (x, i, j) = choose|x: int, i: int, j: int|
            0 <= x < sides.len() && sides[x] == adj[a][k2].1 && 0 <= i < lists[x].len() && 0 <= j < lists[x].len()
                && i != j && #[trigger] lists[x][i] as int == a && #[trigger] lists[x][j] as int == adj[a][k2].0 as int;
        assert(lists[x][j] < nf);
    }
    assert forall|a: int, b: int| 0 <= a < g.len() && 0 <= b < g.len() && #[trigger] linked(g, a, b) implies linked(g, b, a) by {
        lemma_smooth_list(adj[a], flags[a]);
        lemma_smooth_list(adj[b], flags[b]);
        let t = choose|t: int| 0 <= t < g[a].len() && g[a][t] as int == b;
        assert(smooth_list(adj[a], flags[a]).contains(b as usize)) by {
            assert(smooth_list(adj[a], flags[a])[t] == b as usize);
        }
        let k = choose|k: int| 0 <= k < adj[a].len() && adj[a][k].0 == b as usize && flags[a][k];
        let e = adj[a][k].1;
        assert(across(sides, lists, a, b, e));
        let (x, i, j) = choose|x: int, i: int, j: int|
            0 <= x < sides.len() && sides[x] == e && 0 <= i < lists[x].len() && 0 <= j < lists[x].len()
                && i != j && #[trigger] lists[x][i] as int == a && #[trigger] lists[x][j] as int == b;
        assert(across(sides, lists, b, a, e));
        let k2 = choose|k2: int| 0 <= k2 < adj[b].len() && adj[b][k2].0 as int == a && adj[b][k2].1 == e;
        assert(flags[b][k2] == flags[a][k]);
        assert(smooth_list(adj[b], flags[b]).contains(a as usize));
        let t2 = choose|t2: int| 0 <= t2 < g[b].len() && g[b][t2] == a as usize;
        assert(g[b][t2] as int == a);
    }
}

// ─── Components, feature sides and the edges of each face ────────────────────

/// The component of `ms` that holds face `f`.
pub open spec fn comp_of(ms: Seq<Seq<int>>, f: int) -> int {
    choose|j: int| 0 <= j < ms.len() && ms[j].contains(f)
}

/// A feature side: it has one face only, or faces of different components.
pub open spec fn is_feature(l: Seq<usize>, ms: Seq<Seq<int>>) -> bool {
    l.len() == 1 || exists|i: int, j: int|
        0 <= i < l.len() && 0 <= j < l.len() && #[trigger] comp_of(ms, l[i] as int) != #[trigger] comp_of(ms, l[j] as int)
}

/// The feature sides among the first `n` sides, in order.
pub open spec fn feature_sides(lists: Seq<Seq<usize>>, ms: Seq<Seq<int>>, n: nat) -> Seq<int>
    decreases n,
{
    if n == 0 {
        seq![]
    } else {
        let r = feature_sides(lists, ms, (n - 1) as nat);
        if is_feature(lists[n - 1], ms) {
            r.push(n - 1)
        } else {
            r
        }
    }
}

/// Feature side `x` borders component `t`: one of its faces is there.
pub open spec fn borders(l: Seq<usize>, ms: Seq<Seq<int>>, t: int) -> bool {
    exists|i: int| 0 <= i < l.len() && #[trigger] comp_of(ms, l[i] as int) == t
}

/// The edges among the first `n` feature edges that border component `t`,
/// in order.
pub open spec fn face_edge_list(lists: Seq<Seq<usize>>, fs: Seq<int>, ms: Seq<Seq<int>>, t: int, n: nat) -> Seq<usize>
    decreases n,
{
    if n == 0 {
        seq![]
    } else {
        let r = face_edge_list(lists, fs, ms, t, (n - 1) as nat);
        if borders(lists[fs[n - 1]], ms, t) {
            r.push((n - 1) as usize)
        } else {
            r
        }
    }
}

/// In a split into components, the component of a member is its list.
proof fn lemma_comp_of(g: Seq<Seq<usize>>, ms: Seq<Seq<int>>, j: int, t: int)
    requires
        components_of(g, ms),
        0 <= j < ms.len(),
        0 <= t < ms[j].len(),
    ensures
        comp_of(ms, ms[j][t]) == j,
{
    let f = ms[j][t];
    assert(ms[j].contains(f));
    let c = comp_of(ms, f);
    assert(0 <= c < ms.len() && ms[c].contains(f));
    let t2 = choose|t2: int| 0 <= t2 < ms[c].len() && ms[c][t2] == f;
    assert(ms[c][t2] == ms[j][t]);
}

/// The component of each face.
fn component_index(nf: usize, comps: &Vec<Vec<usize>>, Ghost(g): Ghost<Seq<Seq<usize>>>) -> (topo: Vec<usize>)
    requires
        g.len() == nf,
        components_of(g, lists_as_ints(comps@)),
    ensures
        topo@.len() == nf,
        forall|f: int| 0 <= f < nf ==> #[trigger] topo@[f] as int == comp_of(lists_as_ints(comps@), f),
{
    let ghost ms = lists_as_ints(comps@);
    let mut topo: Vec<usize> = Vec::new();
    let mut f: usize = 0;
    while f < nf
        invariant
            f <= nf,
            topo@.len() == f,
        decreases nf - f,
    {
        topo.push(0);
        f = f + 1;
    }
    let mut j: usize = 0;
    while j < comps.len()
        invariant
            g.len() == nf,
            ms == lists_as_ints(comps@),
            components_of(g, ms),
            topo@.len() == nf,
            j <= comps@.len(),
            forall|j2: int, t: int| 0 <= j2 < j && 0 <= t < ms[j2].len() ==> topo@[#[trigger] ms[j2][t]] == j2,
        decreases comps@.len() - j,
    {
        let c = &comps[j];
        assert(ms[j as int] == crate::components::as_ints(c@));
        let mut t: usize = 0;
        while t < c.len()
            invariant
                g.len() == nf,
                ms == lists_as_ints(comps@),
                components_of(g, ms),
                topo@.len() == nf,
                j < comps@.len(),
                ms[j as int] == crate::components::as_ints(c@),
                t <= c@.len(),
                forall|j2: int, t2: int| 0 <= j2 < j && 0 <= t2 < ms[j2].len() ==> topo@[#[trigger] ms[j2][t2]] == j2,
                forall|t2: int| 0 <= t2 < t ==> topo@[#[trigger] ms[j as int][t2]] == j,
            decreases c@.len() - t,
        {
            let fi = c[t];
            assert(ms[j as int][t as int] == fi as int);
            assert(fi < nf);
            let ghost before = topo@;
            topo.set(fi, j);
            assert forall|j2: int, t2: int| 0 <= j2 < j && 0 <= t2 < ms[j2].len() implies topo@[#[trigger] ms[j2][t2]] == j2 by {
                if ms[j2][t2] == fi as int {
                    assert(ms[j2][t2] == ms[j as int][t as int]);
                }
                assert(before[ms[j2][t2]] == j2);
            }
            assert forall|t2: int| 0 <= t2 < t + 1 implies topo@[#[trigger] ms[j as int][t2]] == j by {
                if t2 < t {
                    assert(before[ms[j as int][t2]] == j);
                }
            }
            t = t + 1;
        }
        j = j + 1;
    }
    assert forall|f: int| 0 <= f < nf implies #[trigger] topo@[f] as int == comp_of(ms, f) by {
        assert(in_a_component(ms, f));
        let j2 = choose|j2: int| 0 <= j2 < ms.len() && #[trigger] ms[j2].contains(f);
        let t2 = choose|t2: int| 0 <= t2 < ms[j2].len() && ms[j2][t2] == f;
        lemma_comp_of(g, ms, j2, t2);
        assert(topo@[ms[j2][t2]] == j2);
    }
    topo
}

/// Whether the side with the faces `l` is a feature side.
fn feature_side(l: &Vec<usize>, topo: &Vec<usize>, Ghost(ms): Ghost<Seq<Seq<int>>>) -> (b: bool)
    requires
        forall|i: int| 0 <= i < l@.len() ==> #[trigger] l@[i] < topo@.len(),
        forall|i: int| 0 <= i < l@.len() ==> topo@[#[trigger] l@[i] as int] as int == comp_of(ms, l@[i] as int),
    ensures
        b == is_feature(l@, ms),
{
    if l.len() == 1 {
        return true;
    }
    if l.len() == 0 {
        return false;
    }
    let first = topo[l[0]];
    let mut i: usize = 1;
    while i < l.len()
        invariant
            l@.len() >= 2,
            forall|q: int| 0 <= q < l@.len() ==> #[trigger] l@[q] < topo@.len(),
            forall|q: int| 0 <= q < l@.len() ==> topo@[#[trigger] l@[q] as int] as int == comp_of(ms, l@[q] as int),
            first as int == comp_of(ms, l@[0] as int),
            1 <= i <= l@.len(),
            forall|q: int| 0 <= q < i ==> comp_of(ms, #[trigger] l@[q] as int) == first as int,
        decreases l@.len() - i,
    {
        if topo[l[i]] != first {
            assert(comp_of(ms, l@[i as int] as int) != comp_of(ms, l@[0] as int));
            return true;
        }
        i = i + 1;
    }
    assert(!is_feature(l@, ms)) by {
        assert forall|a: int, c: int| 0 <= a < l@.len() && 0 <= c < l@.len() implies #[trigger] comp_of(ms, l@[a] as int) == #[trigger] comp_of(ms, l@[c] as int) by {
            assert(comp_of(ms, l@[a] as int) == first as int);
            assert(comp_of(ms, l@[c] as int) == first as int);
        }
    }
    false
}

/// The indices of the feature sides, in order.
fn feature_side_indices(lists: &Vec<Vec<usize>>, topo: &Vec<usize>, Ghost(ms): Ghost<Seq<Seq<int>>>) -> (fs: Vec<usize>)
    requires
        forall|x: int, i: int| 0 <= x < lists@.len() && 0 <= i < lists@[x]@.len() ==> #[trigger] lists@[x]@[i] < topo@.len(),
        forall|f: int| 0 <= f < topo@.len() ==> #[trigger] topo@[f] as int == comp_of(ms, f),
    ensures
        as_ints(fs@) == feature_sides(index_lists(lists@), ms, lists@.len()),
        forall|e: int| 0 <= e < fs@.len() ==> #[trigger] fs@[e] < lists@.len(),
{
    let ghost ls = index_lists(lists@);
    let mut fs: Vec<usize> = Vec::new();
    let mut x: usize = 0;
    while x < lists.len()
        invariant
            ls == index_lists(lists@),
            forall|y: int, i: int| 0 <= y < lists@.len() && 0 <= i < lists@[y]@.len() ==> #[trigger] lists@[y]@[i] < topo@.len(),
            forall|f: int| 0 <= f < topo@.len() ==> #[trigger] topo@[f] as int == comp_of(ms, f),
            x <= lists@.len(),
            as_ints(fs@) == feature_sides(ls, ms, x as nat),
            forall|e: int| 0 <= e < fs@.len() ==> #[trigger] fs@[e] < x,
        decreases lists@.len() - x,
    {
        let l = &lists[x];
        assert(ls[x as int] == l@);
        assert forall|i: int| 0 <= i < l@.len() implies #[trigger] l@[i] < topo@.len() by {
            assert(lists@[x as int]@[i] == l@[i]);
        }
        let b = feature_side(l, topo, Ghost(ms));
        if b {
            let ghost before = fs@;
            fs.push(x);
            assert(as_ints(fs@) =~= as_ints(before).push(x as int));
        }
        x = x + 1;
    }
    fs
}

/// `v` with `e` appended.
fn pushed_id(v: &Vec<usize>, e: usize) -> (r: Vec<usize>)
    ensures
        r@ == v@.push(e),
{
    pushed(v, e)
}

/// For each of the `ncomp` components, the feature edges that border it, in
/// order.
fn face_edge_lists(
    lists: &Vec<Vec<usize>>,
    fs: &Vec<usize>,
    topo: &Vec<usize>,
    ncomp: usize,
    Ghost(ms): Ghost<Seq<Seq<int>>>,
) -> (fe: Vec<Vec<usize>>)
    requires
        ms.len() == ncomp,
        forall|x: int, i: int| 0 <= x < lists@.len() && 0 <= i < lists@[x]@.len() ==> #[trigger] lists@[x]@[i] < topo@.len(),
        forall|f: int| 0 <= f < topo@.len() ==> #[trigger] topo@[f] as int == comp_of(ms, f),
        forall|f: int| 0 <= f < topo@.len() ==> #[trigger] topo@[f] < ncomp,
        forall|e: int| 0 <= e < fs@.len() ==> #[trigger] fs@[e] < lists@.len(),
    ensures
        fe@.len() == ncomp,
        forall|t: int| 0 <= t < ncomp ==> (#[trigger] fe@[t])@ == face_edge_list(index_lists(lists@), as_ints(fs@), ms, t, fs@.len()),
{
    let ghost ls = index_lists(lists@);
    let ghost fsi = as_ints(fs@);
    let mut fe: Vec<Vec<usize>> = Vec::new();
    let mut t: usize = 0;
    while t < ncomp
        invariant
            t <= ncomp,
            fe@.len() == t,
            forall|q: int| 0 <= q < t ==> (#[trigger] fe@[q])@ == Seq::<usize>::empty(),
        decreases ncomp - t,
    {
        fe.push(Vec::new());
        t = t + 1;
    }
    let mut e: usize = 0;
    while e < fs.len()
        invariant
            ms.len() == ncomp,
            ls == index_lists(lists@),
            fsi == as_ints(fs@),
            forall|x: int, i: int| 0 <= x < lists@.len() && 0 <= i < lists@[x]@.len() ==> #[trigger] lists@[x]@[i] < topo@.len(),
            forall|f: int| 0 <= f < topo@.len() ==> #[trigger] topo@[f] as int == comp_of(ms, f),
            forall|f: int| 0 <= f < topo@.len() ==> #[trigger] topo@[f] < ncomp,
            forall|q: int| 0 <= q < fs@.len() ==> #[trigger] fs@[q] < lists@.len(),
            fe@.len() == ncomp,
            e <= fs@.len(),
            forall|q: int| 0 <= q < ncomp ==> (#[trigger] fe@[q])@ == face_edge_list(ls, fsi, ms, q, e as nat),
        decreases fs@.len() - e,
    {
        let x = fs[e];
        let l = &lists[x];
        assert(ls[fsi[e as int]] == l@);
        // The distinct components of the faces of this side.
        let mut d: Vec<usize> = Vec::new();
        let mut i: usize = 0;
        while i < l.len()
            invariant
                forall|f: int| 0 <= f < topo@.len() ==> #[trigger] topo@[f] as int == comp_of(ms, f),
                forall|f: int| 0 <= f < topo@.len() ==> #[trigger] topo@[f] < ncomp,
                forall|q: int| 0 <= q < l@.len() ==> #[trigger] l@[q] < topo@.len(),
                i <= l@.len(),
                d@.no_duplicates(),
                forall|c: usize| #[trigger] d@.contains(c) <==> exists|q: int| 0 <= q < i && comp_of(ms, l@[q] as int) == c,
                forall|k: int| 0 <= k < d@.len() ==> #[trigger] d@[k] < ncomp,
            decreases l@.len() - i,
        {
            let c = topo[l[i]];
            let mut found = false;
            let mut k: usize = 0;
            while k < d.len()
                invariant
                    k <= d@.len(),
                    found == exists|q: int| 0 <= q < k && d@[q] == c,
                decreases d@.len() - k,
            {
                if d[k] == c {
                    found = true;
                }
                k = k + 1;
            }
            let ghost before = d@;
            if !found {
                d.push(c);
                assert(d@.no_duplicates()) by {
                    assert forall|p: int, q: int| 0 <= p < d@.len() && 0 <= q < d@.len() && p != q implies d@[p] != d@[q] by {
                        if p < before.len() && q < before.len() {
                            assert(d@[p] == before[p] && d@[q] == before[q]);
                        } else if p < before.len() {
                            assert(d@[p] == before[p]);
                        } else {
                            assert(d@[q] == before[q]);
                        }
                    }
                }
            }
            assert forall|cc: usize| #[trigger] d@.contains(cc) <==> exists|q: int| 0 <= q < i + 1 && comp_of(ms, l@[q] as int) == cc by {
                if d@.contains(cc) {
                    let w = choose|w: int| 0 <= w < d@.len() && d@[w] == cc;
                    if w < before.len() {
                        assert(before[w] == cc);
                        assert(before.contains(cc));
                    } else {
                        assert(comp_of(ms, l@[i as int] as int) == cc);
                    }
                }
                if exists|q: int| 0 <= q < i + 1 && comp_of(ms, l@[q] as int) == cc {
                    let q = choose|q: int| 0 <= q < i + 1 && comp_of(ms, l@[q] as int) == cc;
                    if q < i {
                        assert(before.contains(cc));
                        let w = choose|w: int| 0 <= w < before.len() && before[w] == cc;
                        assert(d@[w] == cc);
                    } else if found {
                        let w = choose|w: int| 0 <= w < before.len() && before[w] == c;
                        assert(d@[w] == cc);
                    } else {
                        assert(d@[before.len() as int] == cc);
                    }
                }
            }
            i = i + 1;
        }
        let ghost fe0 = fe@;
        let mut k: usize = 0;
        while k < d.len()
            invariant
                fe@.len() == ncomp,
                d@.no_duplicates(),
                forall|q: int| 0 <= q < d@.len() ==> #[trigger] d@[q] < ncomp,
                fe0.len() == ncomp,
                k <= d@.len(),
                forall|q: int| 0 <= q < ncomp ==> (#[trigger] fe@[q])@ == if d@.take(k as int).contains(q as usize) {
                    fe0[q]@.push(e)
                } else {
                    fe0[q]@
                },
            decreases d@.len() - k,
        {
            let c = d[k];
            let ghost before = fe@;
            let nl = pushed_id(&fe[c], e);
            fe.set(c, nl);
            assert forall|q: int| 0 <= q < ncomp implies (#[trigger] fe@[q])@ == if d@.take(k + 1).contains(q as usize) {
                fe0[q]@.push(e)
            } else {
                fe0[q]@
            } by {
                assert(d@.take(k + 1) =~= d@.take(k as int).push(c));
                if q == c as int {
                    assert(!d@.take(k as int).contains(c)) by {
                        if d@.take(k as int).contains(c) {
                            let w = choose|w: int| 0 <= w < k && #[trigger] d@.take(k as int)[w] == c;
                            assert(d@[w] == d@[k as int]);
                        }
                    }
                    assert(d@.take(k + 1)[k as int] == c);
                } else {
                    assert(before[q] == fe@[q]);
                    if d@.take(k as int).contains(q as usize) {
                        let w = choose|w: int| 0 <= w < k && #[trigger] d@.take(k as int)[w] == q as usize;
                        assert(d@.take(k + 1)[w] == q as usize);
                    }
                    if d@.take(k + 1).contains(q as usize) {
                        let w = choose|w: int| 0 <= w < k + 1 && #[trigger] d@.take(k + 1)[w] == q as usize;
                        if w == k {
                            assert(q as usize == c);
                        }
                        assert(d@.take(k as int)[w] == q as usize);
                    }
                }
            }
            k = k + 1;
        }
        assert(d@.take(k as int) =~= d@);
        assert forall|q: int| 0 <= q < ncomp implies (#[trigger] fe@[q])@ == face_edge_list(ls, fsi, ms, q, (e + 1) as nat) by {
            assert(fsi[e as int] == x as int);
            assert(borders(ls[fsi[e as int]], ms, q) <==> d@.contains(q as usize)) by {
                if borders(l@, ms, q) {
                    let i2 = choose|i2: int| 0 <= i2 < l@.len() && #[trigger] comp_of(ms, l@[i2] as int) == q;
                    assert(comp_of(ms, l@[i2] as int) == (q as usize) as int);
                }
                if d@.contains(q as usize) {
                    let i2 = choose|i2: int| 0 <= i2 < l@.len() && comp_of(ms, l@[i2] as int) == q as usize;
                    assert(comp_of(ms, l@[i2] as int) == q);
                }
            }
        }
        e = e + 1;
    }
    fe
}

// ─── Corners ─────────────────────────────────────────────────────────────────

/// The node IDs at the ends of the feature sides `fs`, side after side.
pub open spec fn feature_ends(sides: Seq<(u64, u64)>, fs: Seq<int>) -> Seq<u64>
    decreases fs.len(),
{
    if fs.len() == 0 {
        seq![]
    } else {
        feature_ends(sides, fs.drop_last()) + seq![sides[fs.last()].0, sides[fs.last()].1]
    }
}

/// How often `n` occurs in `s`.
pub open spec fn count_node(s: Seq<u64>, n: u64) -> nat
    decreases s.len(),
{
    if s.len() == 0 {
        0
    } else {
        count_node(s.drop_last(), n) + if s.last() == n {
            1nat
        } else {
            0nat
        }
    }
}

/// The distinct entries of `s`, in the order first met.
pub open spec fn distinct_nodes(s: Seq<u64>) -> Seq<u64>
    decreases s.len(),
{
    if s.len() == 0 {
        seq![]
    } else {
        let r = distinct_nodes(s.drop_last());
        if r.contains(s.last()) {
            r
        } else {
            r.push(s.last())
        }
    }
}

/// The entries of `d` that do not occur exactly twice in `ends`, in order.
pub open spec fn corner_nodes(d: Seq<u64>, ends: Seq<u64>) -> Seq<u64>
    decreases d.len(),
{
    if d.len() == 0 {
        seq![]
    } else {
        let r = corner_nodes(d.drop_last(), ends);
        if count_node(ends, d.last()) != 2 {
            r.push(d.last())
        } else {
            r
        }
    }
}

/// The place of node `n` among the corners `cs`, if it is one.
pub open spec fn vertex_of(cs: Seq<u64>, n: u64) -> Option<usize> {
    if cs.contains(n) {
        Some(cs.index_of(n) as usize)
    } else {
        None
    }
}

/// The count that `counts` keeps for node `n`, 0 for none.
pub open spec fn node_count_in(counts: Map<u64, usize>, n: u64) -> nat {
    if counts.contains_key(n) {
        counts[n] as nat
    } else {
        0
    }
}

/// A node occurs at most as often as `s` is long.
proof fn lemma_count_node_bound(s: Seq<u64>, n: u64)
    ensures
        count_node(s, n) <= s.len(),
    decreases s.len(),
{
    if s.len() > 0 {
        lemma_count_node_bound(s.drop_last(), n);
    }
}

/// The corners among the ends `ends`: the distinct ends in the order first
/// met that are not the end of exactly two sides.
fn corner_list(ends: &Vec<u64>) -> (cs: Vec<u64>)
    ensures
        cs@ == corner_nodes(distinct_nodes(ends@), ends@),
        cs@.no_duplicates(),
{
    let mut counts: HashMap<u64, usize> = HashMap::new();
    let mut d: Vec<u64> = Vec::new();
    let mut i: usize = 0;
    while i < ends.len()
        invariant
            i <= ends@.len(),
            d@ == distinct_nodes(ends@.take(i as int)),
            d@.no_duplicates(),
            forall|n: u64| #[trigger] node_count_in(counts@, n) == count_node(ends@.take(i as int), n),
            forall|n: u64| #[trigger] counts@.contains_key(n) <==> d@.contains(n),
        decreases ends@.len() - i,
    {
        let n = ends[i];
        assert(ends@.take(i + 1).drop_last() =~= ends@.take(i as int));
        assert(ends@.take(i + 1).last() == n);
        proof {
            lemma_count_node_bound(ends@.take(i as int), n);
        }
        let ghost before = counts@;
        let ghost d0 = d@;
        match counts.get(&n) {
            Some(c) => {
                let c = *c;
                assert(c as nat == node_count_in(before, n));
                counts.insert(n, c + 1);
            },
            None => {
                counts.insert(n, 1);
                d.push(n);
                assert(d@.no_duplicates()) by {
                    assert forall|p: int, q: int| 0 <= p < d@.len() && 0 <= q < d@.len() && p != q implies d@[p] != d@[q] by {
                        if p < d0.len() && q < d0.len() {
                            assert(d@[p] == d0[p] && d@[q] == d0[q]);
                        } else if p < d0.len() {
                            assert(d@[p] == d0[p]);
                            assert(d0.contains(d0[p]));
                        } else {
                            assert(d@[q] == d0[q]);
                            assert(d0.contains(d0[q]));
                        }
                    }
                }
            },
        }
        assert forall|m: u64| #[trigger] node_count_in(counts@, m) == count_node(ends@.take(i + 1), m) by {
            assert(count_node(ends@.take(i + 1), m) == count_node(ends@.take(i as int), m) + if ends@.take(i + 1).last() == m {
                1nat
            } else {
                0nat
            });
            if m != n {
                assert(node_count_in(counts@, m) == node_count_in(before, m));
            }
        }
        assert forall|m: u64| #[trigger] counts@.contains_key(m) <==> d@.contains(m) by {
            if m == n && !d0.contains(n) {
                assert(d@[d0.len() as int] == n);
            }
            if d@.contains(m) && m != n {
                let w = choose|w: int| 0 <= w < d@.len() && d@[w] == m;
                if w < d0.len() {
                    assert(d0[w] == m);
                }
            }
            if d0.contains(m) {
                let w = choose|w: int| 0 <= w < d0.len() && d0[w] == m;
                assert(d@[w] == m);
            }
        }
        i = i + 1;
    }
    assert(ends@.take(i as int) =~= ends@);
    let mut cs: Vec<u64> = Vec::new();
    let mut k: usize = 0;
    while k < d.len()
        invariant
            d@ == distinct_nodes(ends@),
            d@.no_duplicates(),
            forall|n: u64| #[trigger] node_count_in(counts@, n) == count_node(ends@, n),
            forall|n: u64| #[trigger] counts@.contains_key(n) <==> d@.contains(n),
            k <= d@.len(),
            cs@ == corner_nodes(d@.take(k as int), ends@),
            cs@.no_duplicates(),
            forall|m: u64| #[trigger] cs@.contains(m) ==> d@.take(k as int).contains(m),
        decreases d@.len() - k,
    {
        let n = d[k];
        assert(d@.take(k + 1).drop_last() =~= d@.take(k as int));
        assert(d@.take(k + 1).last() == n);
        assert(d@.contains(n)) by {
            assert(d@[k as int] == n);
        }
        let c: usize = match counts.get(&n) {
            Some(c) => *c,
            None => 0,
        };
        assert(c == count_node(ends@, n)) by {
            assert(node_count_in(counts@, n) == count_node(ends@, n));
        }
        let ghost c0 = cs@;
        if c != 2 {
            cs.push(n);
            assert(!c0.contains(n)) by {
                if c0.contains(n) {
                    assert(d@.take(k as int).contains(n));
                    let w = choose|w: int| 0 <= w < k && #[trigger] d@.take(k as int)[w] == n;
                    assert(d@[w] == d@[k as int]);
                }
            }
            assert(cs@.no_duplicates()) by {
                assert forall|p: int, q: int| 0 <= p < cs@.len() && 0 <= q < cs@.len() && p != q implies cs@[p] != cs@[q] by {
                    if p < c0.len() && q < c0.len() {
                        assert(cs@[p] == c0[p] && cs@[q] == c0[q]);
                    } else if p < c0.len() {
                        assert(cs@[p] == c0[p]);
                        assert(c0.contains(c0[p]));
                    } else {
                        assert(cs@[q] == c0[q]);
                        assert(c0.contains(c0[q]));
                    }
                }
            }
        }
        assert forall|m: u64| #[trigger] cs@.contains(m) implies d@.take(k + 1).contains(m) by {
            let w = choose|w: int| 0 <= w < cs@.len() && cs@[w] == m;
            if w < c0.len() {
                assert(c0[w] == m);
                assert(c0.contains(m));
                assert(d@.take(k as int).contains(m));
                let w2 = choose|w2: int| 0 <= w2 < k && #[trigger] d@.take(k as int)[w2] == m;
                assert(d@.take(k + 1)[w2] == m);
            } else {
                assert(d@.take(k + 1)[k as int] == m);
            }
        }
        k = k + 1;
    }
    assert(d@.take(k as int) =~= d@);
    cs
}

/// The places of the corners, node by node.
fn corner_places(cs: &Vec<u64>) -> (m: HashMap<u64, usize>)
    requires
        cs@.no_duplicates(),
    ensures
        forall|n: u64| #[trigger] m@.contains_key(n) <==> cs@.contains(n),
        forall|n: u64| cs@.contains(n) ==> #[trigger] m@[n] as int == cs@.index_of(n),
{
    let mut m: HashMap<u64, usize> = HashMap::new();
    let mut k: usize = 0;
    while k < cs.len()
        invariant
            cs@.no_duplicates(),
            k <= cs@.len(),
            forall|n: u64| #[trigger] m@.contains_key(n) <==> cs@.take(k as int).contains(n),
            forall|n: u64| cs@.take(k as int).contains(n) ==> #[trigger] m@[n] as int == cs@.index_of(n),
        decreases cs@.len() - k,
    {
        let n = cs[k];
        let ghost before = m@;
        m.insert(n, k);
        assert(cs@.take(k + 1) =~= cs@.take(k as int).push(n));
        assert(cs@.index_of(n) == k as int) by {
            let w = cs@.index_of(n);
            assert(cs@.contains(n)) by {
                assert(cs@[k as int] == n);
            }
            assert(0 <= w < cs@.len() && cs@[w] == n);
            if w != k as int {
                assert(cs@[w] == cs@[k as int]);
            }
        }
        assert forall|x: u64| #[trigger] m@.contains_key(x) <==> cs@.take(k + 1).contains(x) by {
            if cs@.take(k + 1).contains(x) && x != n {
                let w = choose|w: int| 0 <= w < k + 1 && #[trigger] cs@.take(k + 1)[w] == x;
                assert(cs@.take(k as int)[w] == x);
            }
            if cs@.take(k as int).contains(x) {
                let w = choose|w: int| 0 <= w < k && #[trigger] cs@.take(k as int)[w] == x;
                assert(cs@.take(k + 1)[w] == x);
            }
            if x == n {
                assert(cs@.take(k + 1)[k as int] == n);
            }
        }
        assert forall|x: u64| cs@.take(k + 1).contains(x) implies #[trigger] m@[x] as int == cs@.index_of(x) by {
            if x != n {
                let w = choose|w: int| 0 <= w < k + 1 && #[trigger] cs@.take(k + 1)[w] == x;
                assert(cs@.take(k as int)[w] == x);
                assert(cs@.take(k as int).contains(x));
            }
        }
        k = k + 1;
    }
    assert(cs@.take(k as int) =~= cs@);
    m
}

// ─── The classification ─────────────────────────────────────────────────────

/// The geometric vertices, edges and faces of a classified surface.
pub struct FaceClassification {
    pub vertices: Vec<GVertex>,
    pub edges: Vec<GEdge>,
    pub faces: Vec<GFace>,
}

/// The mesh faces at the indices `is`.
pub open spec fn faces_at(faces: Seq<Seq<u64>>, is: Seq<int>) -> Seq<Seq<u64>> {
    is.map_values(|f: int| faces[f])
}

/// `r` classifies the mesh faces `faces`, with sides `sides` and side lists
/// `lists`, into the components `ms` of their smooth graph: geometric face
/// `t` is component `t`, its mesh faces in the component's order, bordered
/// by the feature edges that have a face in it; geometric edge `e` is the
/// `e`-th feature side, from its smaller to its larger node ID, each end a
/// corner or not; the corners are the ends of feature sides that are not
/// the end of exactly two, in the order first met.
pub open spec fn classified(
    r: FaceClassification,
    faces: Seq<Seq<u64>>,
    sides: Seq<(u64, u64)>,
    lists: Seq<Seq<usize>>,
    ms: Seq<Seq<int>>,
) -> bool {
    let fs = feature_sides(lists, ms, lists.len());
    let ends = feature_ends(sides, fs);
    let cs = corner_nodes(distinct_nodes(ends), ends);
    &&& r.faces@.len() == ms.len()
    &&& forall|t: int|
        0 <= t < ms.len() ==> (#[trigger] r.faces@[t]).id == t && lists_view(r.faces@[t].mesh_faces@)
            == faces_at(faces, ms[t]) && r.faces@[t].edge_ids@ == face_edge_list(lists, fs, ms, t, fs.len())
    &&& r.edges@.len() == fs.len()
    &&& forall|e: int|
        0 <= e < fs.len() ==> (#[trigger] r.edges@[e]).id == e && r.edges@[e].node_ids@ == seq![
            sides[fs[e]].0,
            sides[fs[e]].1,
        ] && r.edges@[e].vertex_ids@ == seq![vertex_of(cs, sides[fs[e]].0), vertex_of(cs, sides[fs[e]].1)]
    &&& r.vertices@.len() == cs.len()
    &&& forall|v: int| 0 <= v < cs.len() ==> (#[trigger] r.vertices@[v]).id == v && r.vertices@[v].node_id == cs[v]
}

/// What a classification names exists in it: each vertex an edge names is
/// one of its vertices, placed at that end node of the edge, and each edge a
/// face names is one of its edges.
pub open spec fn references_valid(r: FaceClassification) -> bool {
    &&& forall|e: int, k: int|
        0 <= e < r.edges@.len() && 0 <= k < 2 && (#[trigger] r.edges@[e].vertex_ids@[k]) is Some ==> {
            let v = r.edges@[e].vertex_ids@[k]->0;
            &&& v < r.vertices@.len()
            &&& r.vertices@[v as int].node_id == r.edges@[e].node_ids@[k]
        }
    &&& forall|t: int, k: int|
        0 <= t < r.faces@.len() && 0 <= k < r.faces@[t].edge_ids@.len() ==> #[trigger] r.faces@[t].edge_ids@[k] < r.edges@.len()
}

/// The end nodes of the geometric edges `es`, edge after edge.
pub open spec fn edge_end_nodes(es: Seq<GEdge>) -> Seq<u64>
    decreases es.len(),
{
    if es.len() == 0 {
        seq![]
    } else {
        edge_end_nodes(es.drop_last()) + es.last().node_ids@
    }
}

/// Some geometric vertex of `r` sits on mesh node `n`.
pub open spec fn has_vertex_at(r: FaceClassification, n: u64) -> bool {
    exists|v: int| 0 <= v < r.vertices@.len() && (#[trigger] r.vertices@[v]).node_id == n
}

/// Counting over a concatenation adds the counts.
proof fn lemma_count_node_concat(a: Seq<u64>, b: Seq<u64>, n: u64)
    ensures
        count_node(a + b, n) == count_node(a, n) + count_node(b, n),
    decreases b.len(),
{
    if b.len() == 0 {
        assert(a + b =~= a);
    } else {
        lemma_count_node_concat(a, b.drop_last(), n);
        assert((a + b).drop_last() =~= a + b.drop_last());
    }
}

/// A node occurs in `s` exactly when it is counted there at least once.
proof fn lemma_count_node_contains(s: Seq<u64>, n: u64)
    ensures
        s.contains(n) <==> count_node(s, n) > 0,
    decreases s.len(),
{
    if s.len() > 0 {
        lemma_count_node_contains(s.drop_last(), n);
        if s.drop_last().contains(n) {
            let i = choose|i: int| 0 <= i < s.drop_last().len() && s.drop_last()[i] == n;
            assert(s[i] == n);
        }
        if s.contains(n) {
            let i = choose|i: int| 0 <= i < s.len() && s[i] == n;
            if i < s.len() - 1 {
                assert(s.drop_last()[i] == n);
            }
        }
        if s.last() == n {
            assert(s[s.len() - 1] == n);
        }
    }
}

/// The distinct entries of `s` are the entries of `s`.
proof fn lemma_distinct_nodes_contains(s: Seq<u64>, n: u64)
    ensures
        distinct_nodes(s).contains(n) <==> s.contains(n),
    decreases s.len(),
{
    if s.len() > 0 {
        lemma_distinct_nodes_contains(s.drop_last(), n);
        let r = distinct_nodes(s.drop_last());
        if r.push(s.last()).contains(n) && !r.contains(n) {
            let i = choose|i: int| 0 <= i < r.push(s.last()).len() && r.push(s.last())[i] == n;
            assert(i == r.len());
        }
        if s.contains(n) {
            let i = choose|i: int| 0 <= i < s.len() && s[i] == n;
            if i < s.len() - 1 {
                assert(s.drop_last()[i] == n);
            }
        }
        if s.drop_last().contains(n) {
            let i = choose|i: int| 0 <= i < s.drop_last().len() && s.drop_last()[i] == n;
            assert(s[i] == n);
        }
        if r.contains(n) {
            let i = choose|i: int| 0 <= i < r.len() && r[i] == n;
            assert(r.push(s.last())[i] == n);
        }
        if n == s.last() {
            assert(s[s.len() - 1] == n);
            assert(r.push(s.last())[r.len() as int] == n);
        }
    }
}

/// The corners among `d` are the entries of `d` not counted exactly twice
/// in `ends`.
proof fn lemma_corner_nodes_contains(d: Seq<u64>, ends: Seq<u64>, n: u64)
    ensures
        corner_nodes(d, ends).contains(n) <==> (d.contains(n) && count_node(ends, n) != 2),
    decreases d.len(),
{
    if d.len() > 0 {
        lemma_corner_nodes_contains(d.drop_last(), ends, n);
        let r = corner_nodes(d.drop_last(), ends);
        if r.push(d.last()).contains(n) && !r.contains(n) {
            let i = choose|i: int| 0 <= i < r.push(d.last()).len() && r.push(d.last())[i] == n;
            assert(i == r.len());
        }
        if d.contains(n) {
            let i = choose|i: int| 0 <= i < d.len() && d[i] == n;
            if i < d.len() - 1 {
                assert(d.drop_last()[i] == n);
            }
        }
        if d.drop_last().contains(n) {
            let i = choose|i: int| 0 <= i < d.drop_last().len() && d.drop_last()[i] == n;
            assert(d[i] == n);
        }
        if r.contains(n) {
            let i = choose|i: int| 0 <= i < r.len() && r[i] == n;
            assert(r.push(d.last())[i] == n);
        }
        if n == d.last() {
            assert(d[d.len() - 1] == n);
            assert(r.push(d.last())[r.len() as int] == n);
        }
    }
}

/// The distinct entries of a sequence occur once each.
proof fn lemma_distinct_nodes_unique(s: Seq<u64>)
    ensures
        distinct_nodes(s).no_duplicates(),
    decreases s.len(),
{
    if s.len() > 0 {
        lemma_distinct_nodes_unique(s.drop_last());
        let r = distinct_nodes(s.drop_last());
        if !r.contains(s.last()) {
            assert forall|i: int, j: int| 0 <= i < r.push(s.last()).len() && 0 <= j < r.push(s.last()).len() && i != j
                implies r.push(s.last())[i] != r.push(s.last())[j] by {
                if i < r.len() && j < r.len() {
                } else if i < r.len() {
                    assert(r.contains(r[i]));
                } else if j < r.len() {
                    assert(r.contains(r[j]));
                }
            }
        }
    }
}

/// The corners among entries that occur once each occur once each.
proof fn lemma_corner_nodes_unique(d: Seq<u64>, ends: Seq<u64>)
    requires
        d.no_duplicates(),
    ensures
        corner_nodes(d, ends).no_duplicates(),
    decreases d.len(),
{
    if d.len() > 0 {
        let t = d.drop_last();
        assert(t.no_duplicates()) by {
            assert forall|i: int, j: int| 0 <= i < t.len() && 0 <= j < t.len() && i != j implies t[i] != t[j] by {
                assert(t[i] == d[i] && t[j] == d[j]);
            }
        }
        lemma_corner_nodes_unique(t, ends);
        let r = corner_nodes(t, ends);
        lemma_corner_nodes_contains(t, ends, d.last());
        if !t.contains(d.last()) {
            assert(!r.contains(d.last()));
        } else {
            let i = choose|i: int| 0 <= i < t.len() && t[i] == d.last();
            assert(d[i] == d[d.len() - 1]);
        }
        if count_node(ends, d.last()) != 2 {
            assert forall|i: int, j: int| 0 <= i < r.push(d.last()).len() && 0 <= j < r.push(d.last()).len() && i != j
                implies r.push(d.last())[i] != r.push(d.last())[j] by {
                if i < r.len() && j < r.len() {
                } else if i < r.len() {
                    assert(r.contains(r[i]));
                } else if j < r.len() {
                    assert(r.contains(r[j]));
                }
            }
        }
    }
}

/// The end nodes of the first `t` geometric edges of a classification are
/// the ends of the first `t` feature sides.
proof fn lemma_edge_end_nodes_prefix(
    r: FaceClassification,
    sides: Seq<(u64, u64)>,
    fs: Seq<int>,
    t: int,
)
    requires
        0 <= t <= fs.len(),
        r.edges@.len() == fs.len(),
        forall|e: int|
            0 <= e < fs.len() ==> (#[trigger] r.edges@[e]).node_ids@ == seq![sides[fs[e]].0, sides[fs[e]].1],
    ensures
        edge_end_nodes(r.edges@.take(t)) == feature_ends(sides, fs.take(t)),
    decreases t,
{
    if t == 0 {
        assert(r.edges@.take(0) =~= Seq::<GEdge>::empty());
        assert(fs.take(0) =~= Seq::<int>::empty());
    } else {
        lemma_edge_end_nodes_prefix(r, sides, fs, t - 1);
        assert(r.edges@.take(t).drop_last() =~= r.edges@.take(t - 1));
        assert(fs.take(t).drop_last() =~= fs.take(t - 1));
        assert(r.edges@.take(t).last() == r.edges@[t - 1]);
        assert(fs.take(t).last() == fs[t - 1]);
    }
}

/// Where the geometric edges of a classification meet: a mesh node carries
/// a geometric vertex exactly when it is the end of at least one geometric
/// edge and the end of a number of them other than two, an end of a
/// geometric edge names a vertex exactly when its node carries one, and no
/// two vertices sit on the same node.
pub proof fn lemma_vertices_where_edges_meet(
    r: FaceClassification,
    faces: Seq<Seq<u64>>,
    sides: Seq<(u64, u64)>,
    lists: Seq<Seq<usize>>,
    ms: Seq<Seq<int>>,
)
    requires
        classified(r, faces, sides, lists, ms),
    ensures
        forall|n: u64|
            #[trigger] has_vertex_at(r, n) <==> (count_node(edge_end_nodes(r.edges@), n) > 0 && count_node(
                edge_end_nodes(r.edges@),
                n,
            ) != 2),
        forall|e: int, k: int|
            0 <= e < r.edges@.len() && 0 <= k < 2 ==> ((#[trigger] r.edges@[e].vertex_ids@[k]) is Some
                <==> has_vertex_at(r, r.edges@[e].node_ids@[k])),
        forall|v: int, w: int|
            0 <= v < w < r.vertices@.len() ==> (#[trigger] r.vertices@[v]).node_id != (
            #[trigger] r.vertices@[w]).node_id,
{
    let fs = feature_sides(lists, ms, lists.len());
    let ends = feature_ends(sides, fs);
    let d = distinct_nodes(ends);
    let cs = corner_nodes(d, ends);
    lemma_edge_end_nodes_prefix(r, sides, fs, fs.len() as int);
    assert(r.edges@.take(fs.len() as int) =~= r.edges@);
    assert(fs.take(fs.len() as int) =~= fs);
    assert(edge_end_nodes(r.edges@) == ends);
    lemma_distinct_nodes_unique(ends);
    lemma_corner_nodes_unique(d, ends);
    assert forall|v: int, w: int| 0 <= v < w < r.vertices@.len() implies (#[trigger] r.vertices@[v]).node_id != (
        #[trigger] r.vertices@[w]).node_id by {
        assert(r.vertices@[v].node_id == cs[v] && r.vertices@[w].node_id == cs[w]);
    }
    assert forall|n: u64| #[trigger] has_vertex_at(r, n) <==> cs.contains(n) by {
        if has_vertex_at(r, n) {
            let v = choose|v: int| 0 <= v < r.vertices@.len() && (#[trigger] r.vertices@[v]).node_id == n;
            assert(r.vertices@[v].node_id == cs[v]);
        }
        if cs.contains(n) {
            let v = choose|v: int| 0 <= v < cs.len() && cs[v] == n;
            assert(r.vertices@[v].node_id == cs[v]);
        }
    }
    assert forall|n: u64|
        #[trigger] has_vertex_at(r, n) <==> (count_node(edge_end_nodes(r.edges@), n) > 0 && count_node(
            edge_end_nodes(r.edges@),
            n,
        ) != 2) by {
        lemma_corner_nodes_contains(d, ends, n);
        lemma_distinct_nodes_contains(ends, n);
        lemma_count_node_contains(ends, n);
    }
    assert forall|e: int, k: int|
        0 <= e < r.edges@.len() && 0 <= k < 2 implies ((#[trigger] r.edges@[e].vertex_ids@[k]) is Some
            <==> has_vertex_at(r, r.edges@[e].node_ids@[k])) by {
        assert(r.edges@[e].vertex_ids@ == seq![vertex_of(cs, sides[fs[e]].0), vertex_of(cs, sides[fs[e]].1)]);
        assert(has_vertex_at(r, r.edges@[e].node_ids@[k]) <==> cs.contains(r.edges@[e].node_ids@[k]));
    }
}

/// The edges a component borders are among the first `n`.
proof fn lemma_face_edge_list_below(lists: Seq<Seq<usize>>, fs: Seq<int>, ms: Seq<Seq<int>>, t: int, n: nat)
    requires
        n <= usize::MAX,
    ensures
        forall|k: int| 0 <= k < face_edge_list(lists, fs, ms, t, n).len() ==> #[trigger] face_edge_list(lists, fs, ms, t, n)[k] < n,
    decreases n,
{
    if n > 0 {
        lemma_face_edge_list_below(lists, fs, ms, t, (n - 1) as nat);
        let r = face_edge_list(lists, fs, ms, t, (n - 1) as nat);
        if borders(lists[fs[n - 1]], ms, t) {
            assert forall|k: int| 0 <= k < r.push((n - 1) as usize).len() implies #[trigger] r.push((n - 1) as usize)[k] < n by {
                if k < r.len() {
                    assert(r.push((n - 1) as usize)[k] == r[k]);
                }
            }
        }
    }
}

/// A classification whose lists fit in memory names only what it holds.
proof fn lemma_classified_references(
    r: FaceClassification,
    faces: Seq<Seq<u64>>,
    sides: Seq<(u64, u64)>,
    lists: Seq<Seq<usize>>,
    ms: Seq<Seq<int>>,
)
    requires
        classified(r, faces, sides, lists, ms),
        r.vertices@.len() <= usize::MAX,
        r.edges@.len() <= usize::MAX,
    ensures
        references_valid(r),
{
    let fs = feature_sides(lists, ms, lists.len());
    let ends = feature_ends(sides, fs);
    let cs = corner_nodes(distinct_nodes(ends), ends);
    assert forall|e: int, k: int|
        0 <= e < r.edges@.len() && 0 <= k < 2 && (#[trigger] r.edges@[e].vertex_ids@[k]) is Some implies {
            let v = r.edges@[e].vertex_ids@[k]->0;
            &&& v < r.vertices@.len()
            &&& r.vertices@[v as int].node_id == r.edges@[e].node_ids@[k]
        } by {
        let n = r.edges@[e].node_ids@[k];
        let s = sides[fs[e]];
        if k == 0 {
            assert(n == s.0);
            assert(r.edges@[e].vertex_ids@[k] == vertex_of(cs, s.0));
        } else {
            assert(n == s.1);
            assert(r.edges@[e].vertex_ids@[k] == vertex_of(cs, s.1));
        }
        assert(cs.contains(n));
        let i = cs.index_of(n);
        assert(0 <= i < cs.len() && cs[i] == n);
        assert(r.vertices@[i].node_id == cs[i]);
    }
    lemma_face_edge_list_below(lists, fs, ms, 0, fs.len());
    assert forall|t: int, k: int|
        0 <= t < r.faces@.len() && 0 <= k < r.faces@[t].edge_ids@.len() implies #[trigger] r.faces@[t].edge_ids@[k] < r.edges@.len() by {
        lemma_face_edge_list_below(lists, fs, ms, t, fs.len());
        assert(r.faces@[t].edge_ids@ == face_edge_list(lists, fs, ms, t, fs.len()));
    }
}

/// A copy of a list of indices.
pub(crate) fn copy_indices(v: &Vec<usize>) -> (r: Vec<usize>)
    ensures
        r@ == v@,
{
    let mut r: Vec<usize> = Vec::new();
    let mut i: usize = 0;
    while i < v.len()
        invariant
            i <= v@.len(),
            r@ == v@.take(i as int),
        decreases v@.len() - i,
    {
        r.push(v[i]);
        i = i + 1;
        assert(r@ =~= v@.take(i as int));
    }
    assert(v@.take(i as int) =~= v@);
    r
}

/// Every face is in a component with an index below their number.
proof fn lemma_comp_of_range(g: Seq<Seq<usize>>, ms: Seq<Seq<int>>, f: int)
    requires
        components_of(g, ms),
        0 <= f < g.len(),
    ensures
        0 <= comp_of(ms, f) < ms.len(),
        ms[comp_of(ms, f)].contains(f),
{
    assert(in_a_component(ms, f));
}

/// Classifies the mesh faces `faces` into geometric faces, edges and
/// vertices. `sides`, `lists` and `adj` are the sides, their face lists and
/// the faces' neighbour entries that `face_adjacency` gives for `faces`;
/// `flags` marks, entry by entry, whether the two faces are smooth across
/// their side, the same either way round. The geometric faces are the
/// components of the faces joined where smooth, in the order of their
/// first faces, each with its faces in the order a breadth-first search
/// from the first meets them; the geometric edges are the sides that only
/// one face has or whose faces lie in different geometric faces, in the
/// order the sides are first met, bordering the geometric faces of their
/// faces; the geometric vertices are the ends of those edges that are not
/// the end of exactly two of them, in the order first met. Every vertex an
/// edge names and every edge a face names is one of the result's.
pub fn classify_faces(
    faces: &Vec<Vec<u64>>,
    sides: &Vec<(u64, u64)>,
    lists: &Vec<Vec<usize>>,
    adj: &Vec<Vec<(usize, (u64, u64))>>,
    flags: &Vec<Vec<bool>>,
) -> (r: FaceClassification)
    requires
        sides_ok(sides@, index_lists(lists@), faces@.len() as int),
        adjacency_ok(adj_view(adj@), faces@.len() as int, sides@, index_lists(lists@)),
        flags_ok(adj_view(adj@), flags_view(flags@)),
    ensures
        exists|ms: Seq<Seq<int>>|
            #![trigger classified(r, lists_view(faces@), sides@, index_lists(lists@), ms)]
            components_of(smooth_graph(adj_view(adj@), flags_view(flags@)), ms) && ms == bfs_components(
                smooth_graph(adj_view(adj@), flags_view(flags@)),
            ) && classified(r, lists_view(faces@), sides@, index_lists(lists@), ms),
        references_valid(r),
        forall|n: u64|
            #[trigger] has_vertex_at(r, n) <==> (count_node(edge_end_nodes(r.edges@), n) > 0 && count_node(
                edge_end_nodes(r.edges@),
                n,
            ) != 2),
        forall|e: int, k: int|
            0 <= e < r.edges@.len() && 0 <= k < 2 ==> ((#[trigger] r.edges@[e].vertex_ids@[k]) is Some
                <==> has_vertex_at(r, r.edges@[e].node_ids@[k])),
        forall|v: int, w: int|
            0 <= v < w < r.vertices@.len() ==> (#[trigger] r.vertices@[v]).node_id != (
            #[trigger] r.vertices@[w]).node_id,
{
    let ghost fv = lists_view(faces@);
    let ghost ls = index_lists(lists@);
    let nf = faces.len();
    let g = smooth_neighbours(adj, flags);
    let ghost gv = graph_view(g@);
    proof {
        lemma_smooth_graph_ok(adj_view(adj@), nf as int, sides@, ls, flags_view(flags@));
    }
    let comps = connected_components(&g);
    let ghost ms = lists_as_ints(comps@);
    let topo = component_index(nf, &comps, Ghost(gv));
    assert forall|f: int| 0 <= f < topo@.len() implies #[trigger] topo@[f] < comps@.len() by {
        lemma_comp_of_range(gv, ms, f);
    }
    assert forall|x: int, i: int| 0 <= x < lists@.len() && 0 <= i < lists@[x]@.len() implies #[trigger] lists@[x]@[i] < topo@.len() by {
        assert(ls[x] == lists@[x]@);
    }
    let fs = feature_side_indices(lists, &topo, Ghost(ms));
    let ghost fsi = as_ints(fs@);
    let fe = face_edge_lists(lists, &fs, &topo, comps.len(), Ghost(ms));
    // The ends of the feature sides.
    let mut ends: Vec<u64> = Vec::new();
    let mut e: usize = 0;
    assert(fsi.take(0) =~= Seq::<int>::empty());
    while e < fs.len()
        invariant
            fsi == as_ints(fs@),
            forall|q: int| 0 <= q < fs@.len() ==> #[trigger] fs@[q] < lists@.len(),
            sides@.len() == lists@.len(),
            e <= fs@.len(),
            ends@ == feature_ends(sides@, fsi.take(e as int)),
        decreases fs@.len() - e,
    {
        let x = fs[e];
        let (a, b) = sides[x];
        assert(fsi.take(e + 1).drop_last() =~= fsi.take(e as int));
        assert(fsi.take(e + 1).last() == x as int);
        ends.push(a);
        ends.push(b);
        e = e + 1;
        assert(ends@ =~= feature_ends(sides@, fsi.take(e as int)));
    }
    assert(fsi.take(e as int) =~= fsi);
    let cs = corner_list(&ends);
    let places = corner_places(&cs);
    // Vertices.
    let mut vertices: Vec<GVertex> = Vec::new();
    let mut v: usize = 0;
    while v < cs.len()
        invariant
            v <= cs@.len(),
            vertices@.len() == v,
            forall|q: int| 0 <= q < v ==> (#[trigger] vertices@[q]).id == q && vertices@[q].node_id == cs@[q],
        decreases cs@.len() - v,
    {
        vertices.push(GVertex { id: v, node_id: cs[v] });
        v = v + 1;
    }
    // Edges.
    let mut edges: Vec<GEdge> = Vec::new();
    let mut e: usize = 0;
    while e < fs.len()
        invariant
            fsi == as_ints(fs@),
            forall|q: int| 0 <= q < fs@.len() ==> #[trigger] fs@[q] < lists@.len(),
            sides@.len() == lists@.len(),
            forall|n: u64| #[trigger] places@.contains_key(n) <==> cs@.contains(n),
            forall|n: u64| cs@.contains(n) ==> #[trigger] places@[n] as int == cs@.index_of(n),
            e <= fs@.len(),
            edges@.len() == e,
            forall|q: int|
                0 <= q < e ==> (#[trigger] edges@[q]).id == q && edges@[q].node_ids@ == seq![
                    sides@[fsi[q]].0,
                    sides@[fsi[q]].1,
                ] && edges@[q].vertex_ids@ == seq![
                    vertex_of(cs@, sides@[fsi[q]].0),
                    vertex_of(cs@, sides@[fsi[q]].1),
                ],
        decreases fs@.len() - e,
    {
        let x = fs[e];
        let (a, b) = sides[x];
        let va: Option<usize> = match places.get(&a) {
            Some(p) => Some(*p),
            None => None,
        };
        let vb: Option<usize> = match places.get(&b) {
            Some(p) => Some(*p),
            None => None,
        };
        assert(va == vertex_of(cs@, a));
        assert(vb == vertex_of(cs@, b));
        let mut node_ids: Vec<u64> = Vec::new();
        node_ids.push(a);
        node_ids.push(b);
        let edge = GEdge { id: e, vertex_ids: [va, vb], node_ids };
        assert(edge.node_ids@ =~= seq![a, b]);
        assert(edge.vertex_ids@ =~= seq![va, vb]);
        edges.push(edge);
        e = e + 1;
    }
    // Faces.
    let mut gfaces: Vec<GFace> = Vec::new();
    let mut t: usize = 0;
    while t < comps.len()
        invariant
            fv == lists_view(faces@),
            ms == lists_as_ints(comps@),
            components_of(gv, ms),
            gv.len() == faces@.len(),
            fe@.len() == comps@.len(),
            forall|q: int| 0 <= q < comps@.len() ==> (#[trigger] fe@[q])@ == face_edge_list(ls, fsi, ms, q, fs@.len()),
            t <= comps@.len(),
            gfaces@.len() == t,
            forall|q: int|
                0 <= q < t ==> (#[trigger] gfaces@[q]).id == q && lists_view(gfaces@[q].mesh_faces@)
                    == faces_at(fv, ms[q]) && gfaces@[q].edge_ids@ == face_edge_list(ls, fsi, ms, q, fs@.len()),
        decreases comps@.len() - t,
    {
        let c = &comps[t];
        assert(ms[t as int] == as_ints(c@));
        let mut mesh_faces: Vec<Vec<u64>> = Vec::new();
        let mut k: usize = 0;
        while k < c.len()
            invariant
                fv == lists_view(faces@),
                ms == lists_as_ints(comps@),
                components_of(gv, ms),
                gv.len() == faces@.len(),
                t < comps@.len(),
                ms[t as int] == as_ints(c@),
                k <= c@.len(),
                lists_view(mesh_faces@) == faces_at(fv, ms[t as int].take(k as int)),
            decreases c@.len() - k,
        {
            let f = c[k];
            assert(ms[t as int][k as int] == f as int);
            assert(f < faces.len());
            let copy = copy_ids(&faces[f]);
            let ghost before = mesh_faces@;
            mesh_faces.push(copy);
            assert(lists_view(mesh_faces@) =~= faces_at(fv, ms[t as int].take(k + 1))) by {
                assert(ms[t as int].take(k + 1) =~= ms[t as int].take(k as int).push(f as int));
                assert(fv[f as int] == faces@[f as int]@);
                assert(lists_view(mesh_faces@) =~= lists_view(before).push(copy@));
                assert(faces_at(fv, ms[t as int].take(k + 1)) =~= faces_at(fv, ms[t as int].take(k as int)).push(
                    fv[f as int],
                ));
            }
            k = k + 1;
        }
        assert(ms[t as int].take(k as int) =~= ms[t as int]);
        let edge_ids = copy_indices(&fe[t]);
        gfaces.push(GFace { id: t, edge_ids, mesh_faces });
        t = t + 1;
    }
    // Both lengths fit in `usize`, which the statement on references needs.
    let _vertex_count = vertices.len();
    let _edge_count = edges.len();
    let r = FaceClassification { vertices, edges, faces: gfaces };
    assert(classified(r, fv, sides@, ls, ms));
    proof {
        lemma_classified_references(r, fv, sides@, ls, ms);
        lemma_vertices_where_edges_meet(r, fv, sides@, ls, ms);
    }
    r
}

} // verus!
