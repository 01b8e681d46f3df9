//! Connectivity that Laplacian smoothing works from: the triangular faces
//! of elements, the neighbours of each node, and the nodes on the boundary.
use vstd::prelude::*;
use std::collections::{HashMap, HashSet};

use crate::element::ElementView;
use crate::mesh::{elements_view, Mesh};

verus! {

broadcast use vstd::std_specs::hash::group_hash_axioms;

/// The smoothing weighting scheme.
#[derive(Debug, Clone, Copy, PartialEq, Eq, Structural)]
pub enum LaplacianVariant {
    /// Unweighted centroid average (fastest, may shrink the mesh).
    Uniform,
    /// Cotangent-weighted (preserves the area of 2-D triangle meshes better).
    Cotangent,
    /// Taubin λ/μ scheme: alternating positive and negative steps against
    /// shrinkage.
    Taubin {
        /// Positive step size.
        lambda: u32,
        /// Negative step size, in thousandths.
        mu_milli: i32,
    },
}

impl Default for LaplacianVariant {
    fn default() -> (v: Self)
        ensures
            v == LaplacianVariant::Uniform,
    {
        LaplacianVariant::Uniform
    }
}

// ─── Faces ───────────────────────────────────────────────────────────────────

/// The three values in increasing order.
pub open spec fn sort3(a: u64, b: u64, c: u64) -> Seq<u64> {
    if a <= b {
        if b <= c {
            seq![a, b, c]
        } else if a <= c {
            seq![a, c, b]
        } else {
            seq![c, a, b]
        }
    } else {
        if a <= c {
            seq![b, a, c]
        } else if b <= c {
            seq![b, c, a]
        } else {
            seq![c, b, a]
        }
    }
}

/// The triangular faces of an element with nodes `n`, each sorted: the
/// four faces of a four-node element, the first three nodes of any other
/// element with at least three, none otherwise.
pub open spec fn spec_element_faces(n: Seq<u64>) -> Seq<Seq<u64>> {
    if n.len() == 4 {
        seq![
            sort3(n[0], n[1], n[2]),
            sort3(n[0], n[1], n[3]),
            sort3(n[0], n[2], n[3]),
            sort3(n[1], n[2], n[3]),
        ]
    } else if n.len() >= 3 {
        seq![sort3(n[0], n[1], n[2])]
    } else {
        seq![]
    }
}

/// A sorted triple is in increasing order and holds the same values.
pub proof fn lemma_sort3(a: u64, b: u64, c: u64)
    ensures
        sort3(a, b, c).len() == 3,
        sort3(a, b, c)[0] <= sort3(a, b, c)[1] <= sort3(a, b, c)[2],
        sort3(a, b, c).to_multiset() =~= seq![a, b, c].to_multiset(),
{
    broadcast use vstd::seq_lib::group_to_multiset_ensures;

    let e = Seq::<u64>::empty();
    assert(seq![a, b, c] =~= e.push(a).push(b).push(c));
    let r = sort3(a, b, c);
    assert(r =~= e.push(r[0]).push(r[1]).push(r[2]));
    assert(e.to_multiset() =~= vstd::multiset::Multiset::empty());
}

/// Every face of an element is sorted and made of three of its nodes; a
/// four-node element has four faces, any other element with at least three
/// nodes one, and a smaller one none.
pub proof fn lemma_element_faces_sorted(n: Seq<u64>)
    ensures
        spec_element_faces(n).len() == (if n.len() == 4 {
            4int
        } else if n.len() >= 3 {
            1int
        } else {
            0int
        }),
        forall|t: int|
            0 <= t < spec_element_faces(n).len() ==> (#[trigger] spec_element_faces(n)[t]).len() == 3
                && spec_element_faces(n)[t][0] <= spec_element_faces(n)[t][1]
                <= spec_element_faces(n)[t][2] && n.contains(spec_element_faces(n)[t][0])
                && n.contains(spec_element_faces(n)[t][1]) && n.contains(spec_element_faces(n)[t][2]),
{
    if n.len() >= 3 {
        assert(n.contains(n[0]) && n.contains(n[1]) && n.contains(n[2]));
        lemma_sort3(n[0], n[1], n[2]);
    }
    if n.len() == 4 {
        assert(n.contains(n[3]));
        lemma_sort3(n[0], n[1], n[3]);
        lemma_sort3(n[0], n[2], n[3]);
        lemma_sort3(n[1], n[2], n[3]);
    }
}

fn sort3_exec(a: u64, b: u64, c: u64) -> (r: [u64; 3])
    ensures
        r@ == sort3(a, b, c),
{
    let r = if a <= b {
        if b <= c {
            [a, b, c]
        } else if a <= c {
            [a, c, b]
        } else {
            [c, a, b]
        }
    } else {
        if a <= c {
            [b, a, c]
        } else if b <= c {
            [b, c, a]
        } else {
            [c, b, a]
        }
    };
    assert(r@ =~= sort3(a, b, c));
    r
}

/// The values of a sequence of triples.
pub open spec fn triples_view(s: Seq<[u64; 3]>) -> Seq<Seq<u64>> {
    s.map_values(|f: [u64; 3]| f@)
}

/// The triangular faces of an element given its node list, each with its
/// nodes sorted: four faces for a four-node element, the first three nodes
/// for any other element with at least three, none for fewer.
pub fn element_faces(nodes: &[u64]) -> (r: Vec<[u64; 3]>)
    ensures
        triples_view(r@) == spec_element_faces(nodes@),
{
    let n = nodes.len();
    let mut r: Vec<[u64; 3]> = Vec::new();
    if n == 4 {
        let (a, b, c, d) = (nodes[0], nodes[1], nodes[2], nodes[3]);
        r.push(sort3_exec(a, b, c));
        r.push(sort3_exec(a, b, d));
        r.push(sort3_exec(a, c, d));
        r.push(sort3_exec(b, c, d));
    } else if n >= 3 {
        r.push(sort3_exec(nodes[0], nodes[1], nodes[2]));
    }
    assert(triples_view(r@) =~= spec_element_faces(nodes@));
    r
}

// ─── Neighbours ──────────────────────────────────────────────────────────────

/// `a` and `b` stand at two different positions of `ids`, `a` first or
/// second.
pub open spec fn linked_in(ids: Seq<u64>, a: u64, b: u64) -> bool {
    exists|i: int, j: int|
        0 <= i < j < ids.len() && ((ids[i] == a && ids[j] == b) || (ids[i] == b && ids[j] == a))
}

/// Some element of `es` links `a` and `b`.
pub open spec fn linked(es: Seq<ElementView>, a: u64, b: u64) -> bool {
    exists|k: int| 0 <= k < es.len() && linked_in(#[trigger] es[k].node_ids, a, b)
}

/// The links found in element nodes `ids` with the pairs of positions
/// before `(i, j)` done.
pub open spec fn linked_upto(ids: Seq<u64>, i: int, j: int, a: u64, b: u64) -> bool {
    exists|i2: int, j2: int|
        #![trigger ids[i2], ids[j2]]
        0 <= i2 < j2 < ids.len() && (i2 < i || (i2 == i && j2 < j)) && ((ids[i2] == a && ids[j2]
            == b) || (ids[i2] == b && ids[j2] == a))
}

/// The links found so far: elements before `k` done, and in element `k`
/// the pairs of positions before `(i, j)`.
pub open spec fn links_before(es: Seq<ElementView>, k: int, i: int, j: int, a: u64, b: u64) -> bool {
    linked(es.take(k), a, b) || (k < es.len() && linked_upto(es[k].node_ids, i, j, a, b))
}

proof fn lemma_links_step(es: Seq<ElementView>, k: int, i: int, j: int)
    requires
        0 <= k < es.len(),
        0 <= i < j < es[k].node_ids.len(),
    ensures
        forall|x: u64, y: u64|
            #[trigger] links_before(es, k, i, j + 1, x, y) <==> (links_before(es, k, i, j, x, y) || (x
                == es[k].node_ids[i] && y == es[k].node_ids[j]) || (x == es[k].node_ids[j] && y
                == es[k].node_ids[i])),
{
    let ids = es[k].node_ids;
    assert forall|x: u64, y: u64|
        #[trigger] linked_upto(ids, i, j + 1, x, y) <==> (linked_upto(ids, i, j, x, y) || (x
            == ids[i] && y == ids[j]) || (x == ids[j] && y == ids[i])) by {
        if linked_upto(ids, i, j + 1, x, y) {
            let (i2, j2) = choose|i2: int, j2: int|
                #![trigger ids[i2], ids[j2]]
                0 <= i2 < j2 < ids.len() && (i2 < i || (i2 == i && j2 < j + 1)) && ((ids[i2] == x
                    && ids[j2] == y) || (ids[i2] == y && ids[j2] == x));
            if !(i2 == i && j2 == j) {
                assert(linked_upto(ids, i, j, x, y));
            }
        }
        if linked_upto(ids, i, j, x, y) {
            let (i2, j2) = choose|i2: int, j2: int|
                #![trigger ids[i2], ids[j2]]
                0 <= i2 < j2 < ids.len() && (i2 < i || (i2 == i && j2 < j)) && ((ids[i2] == x
                    && ids[j2] == y) || (ids[i2] == y && ids[j2] == x));
            assert(linked_upto(ids, i, j + 1, x, y));
        }
        if (x == ids[i] && y == ids[j]) || (x == ids[j] && y == ids[i]) {
            assert(ids[i] == ids[i] && ids[j] == ids[j]);
        }
    }
}

proof fn lemma_links_row(es: Seq<ElementView>, k: int, i: int)
    requires
        0 <= k < es.len(),
        0 <= i < es[k].node_ids.len(),
    ensures
        forall|x: u64, y: u64|
            #[trigger] links_before(es, k, i, i + 1, x, y) == links_before(es, k, i, 0, x, y),
        forall|x: u64, y: u64|
            #[trigger] links_before(es, k, i + 1, 0, x, y) == links_before(
                es,
                k,
                i,
                es[k].node_ids.len() as int,
                x,
                y,
            ),
{
    let ids = es[k].node_ids;
    let n = ids.len() as int;
    assert forall|x: u64, y: u64|
        #[trigger] linked_upto(ids, i, i + 1, x, y) == linked_upto(ids, i, 0, x, y) by {
        if linked_upto(ids, i, i + 1, x, y) {
            let (i2, j2) = choose|i2: int, j2: int|
                #![trigger ids[i2], ids[j2]]
                0 <= i2 < j2 < ids.len() && (i2 < i || (i2 == i && j2 < i + 1)) && ((ids[i2] == x
                    && ids[j2] == y) || (ids[i2] == y && ids[j2] == x));
            assert(linked_upto(ids, i, 0, x, y));
        }
    }
    assert forall|x: u64, y: u64|
        #[trigger] linked_upto(ids, i + 1, 0, x, y) == linked_upto(ids, i, n, x, y) by {
        if linked_upto(ids, i + 1, 0, x, y) {
            let (i2, j2) = choose|i2: int, j2: int|
                #![trigger ids[i2], ids[j2]]
                0 <= i2 < j2 < ids.len() && (i2 < i + 1 || (i2 == i + 1 && j2 < 0)) && ((ids[i2]
                    == x && ids[j2] == y) || (ids[i2] == y && ids[j2] == x));
            assert(linked_upto(ids, i, n, x, y));
        }
        if linked_upto(ids, i, n, x, y) {
            let (i2, j2) = choose|i2: int, j2: int|
                #![trigger ids[i2], ids[j2]]
                0 <= i2 < j2 < ids.len() && (i2 < i || (i2 == i && j2 < n)) && ((ids[i2] == x
                    && ids[j2] == y) || (ids[i2] == y && ids[j2] == x));
            assert(linked_upto(ids, i + 1, 0, x, y));
        }
    }
}

proof fn lemma_links_element(es: Seq<ElementView>, k: int)
    requires
        0 <= k < es.len(),
    ensures
        forall|x: u64, y: u64|
            #[trigger] links_before(es, k + 1, 0, 0, x, y) == links_before(
                es,
                k,
                es[k].node_ids.len() as int,
                0,
                x,
                y,
            ),
{
    let ids = es[k].node_ids;
    let n = ids.len() as int;
    assert forall|x: u64, y: u64|
        #[trigger] links_before(es, k + 1, 0, 0, x, y) == links_before(es, k, n, 0, x, y) by {
        let t = es.take(k + 1);
        if linked(t, x, y) {
            let k2 = choose|k2: int| 0 <= k2 < t.len() && linked_in(#[trigger] t[k2].node_ids, x, y);
            if k2 < k {
                assert(es.take(k)[k2] == t[k2]);
                assert(linked(es.take(k), x, y));
            } else {
                let (i2, j2) = choose|i2: int, j2: int|
                    0 <= i2 < j2 < ids.len() && ((ids[i2] == x && ids[j2] == y) || (ids[i2] == y
                        && ids[j2] == x));
                assert(ids[i2] == ids[i2] && ids[j2] == ids[j2]);
                assert(linked_upto(ids, n, 0, x, y));
            }
        }
        if linked(es.take(k), x, y) {
            let k2 = choose|k2: int|
                0 <= k2 < es.take(k).len() && linked_in(#[trigger] es.take(k)[k2].node_ids, x, y);
            assert(t[k2] == es.take(k)[k2]);
            assert(linked(t, x, y));
        }
        if linked_upto(ids, n, 0, x, y) {
            let (i2, j2) = choose|i2: int, j2: int|
                #![trigger ids[i2], ids[j2]]
                0 <= i2 < j2 < ids.len() && (i2 < n || (i2 == n && j2 < 0)) && ((ids[i2] == x
                    && ids[j2] == y) || (ids[i2] == y && ids[j2] == x));
            assert(linked_in(ids, x, y));
            assert(t[k] == es[k]);
            assert(linked(t, x, y));
        }
        if k + 1 < es.len() && linked_upto(es[k + 1].node_ids, 0, 0, x, y) {
            let ids1 = es[k + 1].node_ids;
            let (i2, j2) = choose|i2: int, j2: int|
                #![trigger ids1[i2], ids1[j2]]
                0 <= i2 < j2 < ids1.len() && (i2 < 0 || (i2 == 0 && j2 < 0)) && ((ids1[i2] == x
                    && ids1[j2] == y) || (ids1[i2] == y && ids1[j2] == x));
        }
    }
}

/// The map holds for each node the list, without repeats, of the nodes
/// that `rel` relates it to, and no node that `rel` relates to nothing.
pub open spec fn adjacency_of(m: Map<u64, Vec<u64>>, rel: spec_fn(u64, u64) -> bool) -> bool {
    &&& forall|a: u64| #[trigger] m.contains_key(a) ==> m[a]@.no_duplicates() && m[a]@.len() > 0
    &&& forall|a: u64, b: u64| #[trigger] has_link(m, a, b) <==> rel(a, b)
}

/// Whether `v` holds `b`.
fn contains_id(v: &Vec<u64>, b: u64) -> (r: bool)
    ensures
        r == v@.contains(b),
{
    let mut t: usize = 0;
    while t < v.len()
        invariant
            t <= v@.len(),
            forall|q: int| 0 <= q < t ==> v@[q] != b,
        decreases v@.len() - t,
    {
        if v[t] == b {
            assert(v@[t as int] == b);
            return true;
        }
        t = t + 1;
    }
    false
}

/// The entry of `x` in `m` holds `y`.
pub open spec fn has_link(m: Map<u64, Vec<u64>>, x: u64, y: u64) -> bool {
    m.contains_key(x) && m[x]@.contains(y)
}

/// `m2` relates what `m1` relates, and `a` to `b`.
pub open spec fn adds_pair(m1: Map<u64, Vec<u64>>, m2: Map<u64, Vec<u64>>, a: u64, b: u64) -> bool {
    forall|x: u64, y: u64| #[trigger] has_link(m2, x, y) <==> (has_link(m1, x, y) || (x == a && y == b))
}

/// Adds `b` to the neighbours of `a`.
fn add_neighbour(adj: &mut HashMap<u64, Vec<u64>>, a: u64, b: u64)
    requires
        lists_ok(old(adj)@),
    ensures
        lists_ok(final(adj)@),
        adds_pair(old(adj)@, final(adj)@, a, b),
{
    let ghost before = adj@;
    let ghost had = before.contains_key(a);
    let v = match adj.remove(&a) {
        Some(v) => {
            let mut v = v;
            let found = contains_id(&v, b);
            let ghost old_v = v@;
            assert(old_v == before[a]@);
            if !found {
                v.push(b);
                assert forall|p: int, q: int| 0 <= p < q < v@.len() implies v@[p] != v@[q] by {
                    if q == v@.len() - 1 {
                        assert(v@[p] == old_v[p]);
                        assert(old_v.contains(old_v[p]));
                    }
                }
                assert(v@[v@.len() - 1] == b);
                assert forall|y: u64| v@.contains(y) <==> (old_v.contains(y) || y == b) by {
                    if v@.contains(y) && y != b {
                        let p = choose|p: int| 0 <= p < v@.len() && v@[p] == y;
                        assert(old_v[p] == y);
                    }
                    if old_v.contains(y) {
                        let p = choose|p: int| 0 <= p < old_v.len() && old_v[p] == y;
                        assert(v@[p] == y);
                    }
                }
            }
            v
        },
        None => {
            let v = vec![b];
            assert(v@[0] == b);
            assert forall|y: u64| v@.contains(y) <==> y == b by {
                if v@.contains(y) {
                    let p = choose|p: int| 0 <= p < v@.len() && v@[p] == y;
                }
            }
            v
        },
    };
    assert(forall|y: u64| v@.contains(y) <==> ((had && before[a]@.contains(y)) || y == b));
    assert(adj@ == before.remove(a));
    adj.insert(a, v);
    assert(adj@ == before.insert(a, v));
}

/// Being neighbours is symmetric.
pub proof fn lemma_linked_symmetric(es: Seq<ElementView>, a: u64, b: u64)
    ensures
        linked(es, a, b) == linked(es, b, a),
{
    if linked(es, a, b) {
        let k = choose|k: int| 0 <= k < es.len() && linked_in(#[trigger] es[k].node_ids, a, b);
        assert(linked_in(es[k].node_ids, b, a));
    }
    if linked(es, b, a) {
        let k = choose|k: int| 0 <= k < es.len() && linked_in(#[trigger] es[k].node_ids, b, a);
        assert(linked_in(es[k].node_ids, a, b));
    }
}

/// The entries of `m` are lists without repeats, none of them empty.
pub open spec fn lists_ok(m: Map<u64, Vec<u64>>) -> bool {
    forall|x: u64| #[trigger] m.contains_key(x) ==> m[x]@.no_duplicates() && m[x]@.len() > 0
}

/// The entries of `m` relate exactly the pairs that the links found so far
/// relate.
pub open spec fn holds_links(m: Map<u64, Vec<u64>>, es: Seq<ElementView>, k: int, i: int, j: int) -> bool {
    forall|x: u64, y: u64| #[trigger] has_link(m, x, y) <==> links_before(es, k, i, j, x, y)
}

proof fn lemma_holds_row(m: Map<u64, Vec<u64>>, es: Seq<ElementView>, k: int, i: int)
    requires
        0 <= k < es.len(),
        0 <= i < es[k].node_ids.len(),
        holds_links(m, es, k, i, 0),
    ensures
        holds_links(m, es, k, i, i + 1),
{
    lemma_links_row(es, k, i);
}

proof fn lemma_holds_row_end(m: Map<u64, Vec<u64>>, es: Seq<ElementView>, k: int, i: int)
    requires
        0 <= k < es.len(),
        0 <= i < es[k].node_ids.len(),
        holds_links(m, es, k, i, es[k].node_ids.len() as int),
    ensures
        holds_links(m, es, k, i + 1, 0),
{
    lemma_links_row(es, k, i);
}

proof fn lemma_holds_element_end(m: Map<u64, Vec<u64>>, es: Seq<ElementView>, k: int)
    requires
        0 <= k < es.len(),
        holds_links(m, es, k, es[k].node_ids.len() as int, 0),
    ensures
        holds_links(m, es, k + 1, 0, 0),
{
    lemma_links_element(es, k);
}

proof fn lemma_holds_step(
    m0: Map<u64, Vec<u64>>,
    m1: Map<u64, Vec<u64>>,
    m2: Map<u64, Vec<u64>>,
    es: Seq<ElementView>,
    k: int,
    i: int,
    j: int,
)
    requires
        0 <= k < es.len(),
        0 <= i < j < es[k].node_ids.len(),
        holds_links(m0, es, k, i, j),
        adds_pair(m0, m1, es[k].node_ids[i], es[k].node_ids[j]),
        adds_pair(m1, m2, es[k].node_ids[j], es[k].node_ids[i]),
    ensures
        holds_links(m2, es, k, i, j + 1),
{
    lemma_links_step(es, k, i, j);
    assert forall|x: u64, y: u64| #[trigger] has_link(m2, x, y) <==> links_before(es, k, i, j + 1, x, y) by {
        assert(has_link(m2, x, y) <==> (has_link(m1, x, y) || (x == es[k].node_ids[j] && y == es[k].node_ids[i])));
        assert(has_link(m1, x, y) <==> (has_link(m0, x, y) || (x == es[k].node_ids[i] && y == es[k].node_ids[j])));
        assert(has_link(m0, x, y) <==> links_before(es, k, i, j, x, y));
    }
}

/// Adds the links of element `k`, whose nodes are `nodes`.
fn add_element_links(
    adj: &mut HashMap<u64, Vec<u64>>,
    nodes: &Vec<u64>,
    Ghost(es): Ghost<Seq<ElementView>>,
    Ghost(k): Ghost<int>,
)
    requires
        0 <= k < es.len(),
        nodes@ == es[k].node_ids,
        lists_ok(old(adj)@),
        holds_links(old(adj)@, es, k, 0, 0),
    ensures
        lists_ok(final(adj)@),
        holds_links(final(adj)@, es, k + 1, 0, 0),
{
    let mut i: usize = 0;
    while i < nodes.len()
        invariant
            0 <= k < es.len(),
            i <= nodes@.len(),
            nodes@ == es[k].node_ids,
            lists_ok(adj@),
            holds_links(adj@, es, k, i as int, 0),
        decreases nodes@.len() - i,
    {
        let a = nodes[i];
        proof {
            lemma_holds_row(adj@, es, k, i as int);
        }
        let mut j: usize = i + 1;
        while j < nodes.len()
            invariant
                0 <= k < es.len(),
                i < nodes@.len(),
                i + 1 <= j <= nodes@.len(),
                a == nodes@[i as int],
                nodes@ == es[k].node_ids,
                lists_ok(adj@),
                holds_links(adj@, es, k, i as int, j as int),
            decreases nodes@.len() - j,
        {
            let b = nodes[j];
            let ghost m0 = adj@;
            add_neighbour(adj, a, b);
            let ghost m1 = adj@;
            add_neighbour(adj, b, a);
            proof {
                lemma_holds_step(m0, m1, adj@, es, k, i as int, j as int);
            }
            j = j + 1;
        }
        proof {
            lemma_holds_row_end(adj@, es, k, i as int);
        }
        i = i + 1;
    }
    proof {
        lemma_holds_element_end(adj@, es, k);
    }
}

/// Each node mapped to the nodes it shares an element with (at another
/// position of that element), without repeats; nodes without any
/// neighbour have no entry.
pub fn build_node_adjacency(mesh: &Mesh) -> (adj: HashMap<u64, Vec<u64>>)
    ensures
        adjacency_of(adj@, |a: u64, b: u64| linked(mesh@.elements, a, b)),
{
    let elems = mesh.elements();
    let ghost es = elements_view(elems@);
    let mut adj: HashMap<u64, Vec<u64>> = HashMap::new();
    let mut k: usize = 0;
    assert forall|x: u64, y: u64| !#[trigger] links_before(es, 0, 0, 0, x, y) by {
        if 0 < es.len() && linked_upto(es[0].node_ids, 0, 0, x, y) {
            let ids = es[0].node_ids;
            let (i2, j2) = choose|i2: int, j2: int|
                #![trigger ids[i2], ids[j2]]
                0 <= i2 < j2 < ids.len() && (i2 < 0 || (i2 == 0 && j2 < 0)) && ((ids[i2] == x
                    && ids[j2] == y) || (ids[i2] == y && ids[j2] == x));
        }
    }
    assert(holds_links(adj@, es, 0, 0, 0));
    while k < elems.len()
        invariant
            k <= elems@.len(),
            es == elements_view(elems@),
            es == mesh@.elements,
            lists_ok(adj@),
            holds_links(adj@, es, k as int, 0, 0),
        decreases elems@.len() - k,
    {
        add_element_links(&mut adj, &elems[k].node_ids, Ghost(es), Ghost(k as int));
        k = k + 1;
    }
    assert(es.take(k as int) =~= es);
    assert forall|x: u64, y: u64| links_before(es, k as int, 0, 0, x, y) <==> linked(es, x, y) by {}
    adj
}

// ─── Boundary nodes ──────────────────────────────────────────────────────────

/// The faces of the elements of `es`, element after element.
pub open spec fn all_faces(es: Seq<ElementView>) -> Seq<Seq<u64>>
    decreases es.len(),
{
    if es.len() == 0 {
        seq![]
    } else {
        all_faces(es.drop_last()) + spec_element_faces(es.last().node_ids)
    }
}

/// The number of times `f` occurs in `s`.
pub open spec fn count_of(s: Seq<Seq<u64>>, f: Seq<u64>) -> nat
    decreases s.len(),
{
    if s.len() == 0 {
        0
    } else {
        count_of(s.drop_last(), f) + if s.last() == f {
            1nat
        } else {
            0nat
        }
    }
}

/// The nodes of the faces that exactly one element has: the boundary.
pub open spec fn boundary_nodes(es: Seq<ElementView>) -> Set<u64> {
    Set::new(
        |id: u64|
            exists|t: int|
                0 <= t < all_faces(es).len() && count_of(all_faces(es), all_faces(es)[t]) == 1
                    && (#[trigger] all_faces(es)[t]).contains(id),
    )
}

/// The nodes of the faces, among the first `p` of `fs`, that occur once in
/// `fs`.
pub open spec fn boundary_prefix(fs: Seq<Seq<u64>>, p: int) -> Set<u64> {
    Set::new(
        |id: u64|
            exists|t: int| 0 <= t < p && count_of(fs, fs[t]) == 1 && (#[trigger] fs[t]).contains(id),
    )
}

/// The IDs of all nodes on the mesh boundary: those of the triangular faces
/// (see `element_faces`) that exactly one element has.
pub fn collect_boundary_nodes(mesh: &Mesh) -> (r: HashSet<u64>)
    ensures
        r@ == boundary_nodes(mesh@.elements),
{
    let elems = mesh.elements();
    let ghost es = elements_view(elems@);
    let mut faces: Vec<[u64; 3]> = Vec::new();
    let mut k: usize = 0;
    assert(es.take(0) =~= Seq::<ElementView>::empty());
    assert(triples_view(faces@) =~= all_faces(es.take(0)));
    while k < elems.len()
        invariant
            k <= elems@.len(),
            es == elements_view(elems@),
            triples_view(faces@) == all_faces(es.take(k as int)),
        decreases elems@.len() - k,
    {
        assert(es.take(k + 1).drop_last() =~= es.take(k as int));
        let fk = element_faces(elems[k].node_ids.as_slice());
        let ghost before = faces@;
        let mut t: usize = 0;
        while t < fk.len()
            invariant
                t <= fk@.len(),
                triples_view(faces@) == triples_view(before) + triples_view(fk@).take(t as int),
            decreases fk@.len() - t,
        {
            let ghost prev = faces@;
            faces.push(fk[t]);
            assert(triples_view(faces@) =~= triples_view(prev).push(fk@[t as int]@));
            assert(triples_view(fk@).take(t + 1) =~= triples_view(fk@).take(t as int).push(
                fk@[t as int]@,
            ));
            assert(triples_view(faces@) =~= triples_view(before) + triples_view(fk@).take(t + 1));
            t = t + 1;
        }
        assert(triples_view(fk@).take(t as int) =~= triples_view(fk@));
        k = k + 1;
    }
    assert(es.take(k as int) =~= es);
    let ghost fs = triples_view(faces@);
    let mut out: HashSet<u64> = HashSet::new();
    let mut p: usize = 0;
    assert(out@ =~= boundary_prefix(fs, 0));
    while p < faces.len()
        invariant
            p <= faces@.len(),
            fs == triples_view(faces@),
            out@ == boundary_prefix(fs, p as int),
        decreases faces@.len() - p,
    {
        let f = faces[p];
        let mut c: usize = 0;
        let mut q: usize = 0;
        while q < faces.len()
            invariant
                q <= faces@.len(),
                fs == triples_view(faces@),
                f@ == fs[p as int],
                c == count_of(fs.take(q as int), f@),
                c <= q,
            decreases faces@.len() - q,
        {
            assert(fs.take(q + 1).drop_last() =~= fs.take(q as int));
            let g = faces[q];
            if g[0] == f[0] && g[1] == f[1] && g[2] == f[2] {
                assert(g@ =~= f@);
                c = c + 1;
            } else {
                assert(fs[q as int] != f@) by {
                    assert(fs[q as int] == g@);
                    if g@ == f@ {
                        assert(g@[0] == f@[0] && g@[1] == f@[1] && g@[2] == f@[2]);
                    }
                }
            }
            q = q + 1;
        }
        assert(fs.take(q as int) =~= fs);
        if c == 1 {
            out.insert(f[0]);
            out.insert(f[1]);
            out.insert(f[2]);
        }
        assert(out@ =~= boundary_prefix(fs, p + 1)) by {
            assert forall|id: u64| boundary_prefix(fs, p + 1).contains(id) implies out@.contains(
                id,
            ) by {
                let t = choose|t: int|
                    0 <= t < p + 1 && count_of(fs, fs[t]) == 1 && (#[trigger] fs[t]).contains(id);
                if t < p {
                    assert(boundary_prefix(fs, p as int).contains(id));
                } else {
                    let w = choose|w: int| 0 <= w < fs[t].len() && fs[t][w] == id;
                    assert(f@[w] == id);
                }
            }
            assert forall|id: u64| out@.contains(id) implies boundary_prefix(fs, p + 1).contains(
                id,
            ) by {
                if !boundary_prefix(fs, p as int).contains(id) {
                    assert(fs[p as int].len() == 3);
                    if id == f[0] {
                        assert(fs[p as int][0] == id);
                    } else if id == f[1] {
                        assert(fs[p as int][1] == id);
                    } else {
                        assert(fs[p as int][2] == id);
                    }
                }
            }
        }
        p = p + 1;
    }
    assert(out@ =~= boundary_nodes(es)) by {
        assert forall|id: u64| out@.contains(id) <==> boundary_nodes(es).contains(id) by {
            if out@.contains(id) {
                let t = choose|t: int|
                    0 <= t < p && count_of(fs, fs[t]) == 1 && (#[trigger] fs[t]).contains(id);
                assert(all_faces(es)[t].contains(id));
            }
            if boundary_nodes(es).contains(id) {
                let t = choose|t: int|
                    0 <= t < all_faces(es).len() && count_of(all_faces(es), all_faces(es)[t]) == 1
                        && (#[trigger] all_faces(es)[t]).contains(id);
                assert(fs[t].contains(id));
            }
        }
    }
    out
}

} // verus!
