//! The boundary loop of a geometric face: the sides that only one of its
//! mesh polygons has, taken in increasing order and walked from the
//! smallest node ID on.
use vstd::prelude::*;

use crate::surface_loop::{
    cyclic_keys, edge_key, first_unlike, min_endpoint, neighbours, neighbours_of, occurrences, once_in,
    push_cyclic_keys, single_keys, smallest_endpoint,
};
use crate::topology::GFace;

verus! {

/// The sides of the polygons with at least two nodes among `polys`,
/// polygon by polygon.
pub open spec fn polygon_sides(polys: Seq<Seq<u64>>) -> Seq<(u64, u64)>
    decreases polys.len(),
{
    if polys.len() == 0 {
        seq![]
    } else {
        let r = polygon_sides(polys.drop_last());
        if polys.last().len() >= 2 {
            r + cyclic_keys(polys.last())
        } else {
            r
        }
    }
}

/// Side `a` comes before side `b`: by smaller node, then by larger node.
pub open spec fn side_lt(a: (u64, u64), b: (u64, u64)) -> bool {
    a.0 < b.0 || (a.0 == b.0 && a.1 < b.1)
}

/// `be` holds the sides that occur exactly once in `all`, in increasing
/// order, each once.
pub open spec fn sorted_once_sides(be: Seq<(u64, u64)>, all: Seq<(u64, u64)>) -> bool {
    &&& forall|i: int, j: int| 0 <= i < j < be.len() ==> side_lt(#[trigger] be[i], #[trigger] be[j])
    &&& forall|k: (u64, u64)| be.contains(k) <==> occurrences(all, k) == 1
}

/// `s` is in strictly increasing order.
pub open spec fn increasing(s: Seq<(u64, u64)>) -> bool {
    forall|i: int, j: int| 0 <= i < j < s.len() ==> side_lt(#[trigger] s[i], #[trigger] s[j])
}

/// Two sequences of sides in strictly increasing order with the same
/// members are equal.
proof fn lemma_increasing_unique(a: Seq<(u64, u64)>, b: Seq<(u64, u64)>)
    requires
        increasing(a),
        increasing(b),
        forall|k: (u64, u64)| a.contains(k) <==> b.contains(k),
    ensures
        a == b,
    decreases a.len(),
{
    if a.len() == 0 {
        if b.len() > 0 {
            assert(b.contains(b[0]));
        }
        assert(a =~= b);
    } else {
        assert(a.contains(a[0]));
        assert(b.contains(a[0]));
        assert(b.len() > 0);
        assert(b.contains(b[0]));
        assert(a.contains(b[0]));
        let i = choose|i: int| 0 <= i < b.len() && b[i] == a[0];
        let j = choose|j: int| 0 <= j < a.len() && a[j] == b[0];
        if i > 0 {
            assert(side_lt(b[0], b[i]));
            if j > 0 {
                assert(side_lt(a[0], a[j]));
            }
        }
        if j > 0 {
            assert(side_lt(a[0], a[j]));
        }
        assert(a[0] == b[0]);
        let a1 = a.drop_first();
        let b1 = b.drop_first();
        assert(increasing(a1)) by {
            assert forall|p: int, q: int| 0 <= p < q < a1.len() implies side_lt(#[trigger] a1[p], #[trigger] a1[q]) by {
                assert(a1[p] == a[p + 1] && a1[q] == a[q + 1]);
            }
        }
        assert(increasing(b1)) by {
            assert forall|p: int, q: int| 0 <= p < q < b1.len() implies side_lt(#[trigger] b1[p], #[trigger] b1[q]) by {
                assert(b1[p] == b[p + 1] && b1[q] == b[q + 1]);
            }
        }
        assert forall|k: (u64, u64)| a1.contains(k) <==> b1.contains(k) by {
            if a1.contains(k) {
                let p = choose|p: int| 0 <= p < a1.len() && a1[p] == k;
                assert(a[p + 1] == k);
                assert(side_lt(a[0], a[p + 1]));
                assert(b.contains(k));
                let q = choose|q: int| 0 <= q < b.len() && b[q] == k;
                assert(q != 0);
                assert(b1[q - 1] == k);
            }
            if b1.contains(k) {
                let p = choose|p: int| 0 <= p < b1.len() && b1[p] == k;
                assert(b[p + 1] == k);
                assert(side_lt(b[0], b[p + 1]));
                assert(a.contains(k));
                let q = choose|q: int| 0 <= q < a.len() && a[q] == k;
                assert(q != 0);
                assert(a1[q - 1] == k);
            }
        }
        lemma_increasing_unique(a1, b1);
        assert(a =~= seq![a[0]] + a1);
        assert(b =~= seq![b[0]] + b1);
    }
}

/// Only one sequence holds the sides that occur once in `all`, each once,
/// in increasing order.
pub proof fn lemma_sorted_once_sides_unique(a: Seq<(u64, u64)>, b: Seq<(u64, u64)>, all: Seq<(u64, u64)>)
    requires
        sorted_once_sides(a, all),
        sorted_once_sides(b, all),
    ensures
        a == b,
{
    lemma_increasing_unique(a, b);
}

/// Every end of a side of `be` is the end of exactly two of them.
pub open spec fn two_sides_at_each_end(be: Seq<(u64, u64)>) -> bool {
    forall|i: int|
        0 <= i < be.len() ==> neighbours(be, (#[trigger] be[i]).0).len() == 2 && neighbours(be, be[i].1).len() == 2
}

/// Why a geometric face has no usable boundary loop.
#[derive(Debug, Clone, Copy, PartialEq, Eq, Structural)]
pub enum FaceLoopError {
    /// No side belongs to one polygon only.
    NoBoundary,
    /// Some end of a boundary side is the end of other than two of them.
    NonManifold,
    /// The walk reached a node without boundary sides.
    NoNeighbours(u64),
    /// At the node, every neighbour is the node the walk came from.
    WalkFailed(u64),
    /// The walk did not end next to its start.
    NotClosed,
    /// The loop has fewer than three nodes.
    TooFew,
}

/// A walk along the sides `be` from `current`, having come from `prev`, at
/// most `fuel` steps more: it goes on to the first neighbour that is not
/// `prev` and stops on reaching `start`. The nodes met, and the node where
/// it stopped.
pub open spec fn face_walk(
    be: Seq<(u64, u64)>,
    start: u64,
    fuel: nat,
    ids: Seq<u64>,
    prev: Option<u64>,
    current: u64,
) -> Result<(Seq<u64>, u64), FaceLoopError>
    decreases fuel,
{
    if fuel == 0 {
        Ok((ids, current))
    } else {
        let nb = neighbours(be, current);
        if nb.len() == 0 {
            Err(FaceLoopError::NoNeighbours(current))
        } else {
            match first_unlike(nb, prev) {
                None => Err(FaceLoopError::WalkFailed(current)),
                Some(next) => if next == start {
                    Ok((ids, current))
                } else {
                    face_walk(be, start, (fuel - 1) as nat, ids.push(next), Some(current), next)
                },
            }
        }
    }
}

/// The boundary loop along the sorted boundary sides `be`: from their
/// smallest node ID, at most one step more than there are sides, ending
/// next to its start, with at least three nodes.
pub open spec fn loop_along(be: Seq<(u64, u64)>) -> Result<Seq<u64>, FaceLoopError> {
    if be.len() == 0 {
        Err(FaceLoopError::NoBoundary)
    } else if !two_sides_at_each_end(be) {
        Err(FaceLoopError::NonManifold)
    } else {
        let start = min_endpoint(be);
        match face_walk(be, start, (be.len() + 1) as nat, seq![start], None, start) {
            Err(e) => Err(e),
            Ok((ids, last)) => if !neighbours(be, last).contains(start) {
                Err(FaceLoopError::NotClosed)
            } else if ids.len() < 3 {
                Err(FaceLoopError::TooFew)
            } else {
                Ok(ids)
            },
        }
    }
}

/// Node `t` of `ids` is joined to the next by a side of `be`.
pub open spec fn step_on_side(ids: Seq<u64>, be: Seq<(u64, u64)>, t: int) -> bool {
    be.contains(edge_key(ids[t], ids[t + 1]))
}

/// Consecutive nodes of `ids`, and its last and first, are joined by sides
/// of `be`: the nodes go once around along the sides.
pub open spec fn closed_along(ids: Seq<u64>, be: Seq<(u64, u64)>) -> bool {
    &&& ids.len() > 0
    &&& forall|t: int| 0 <= t < ids.len() - 1 ==> #[trigger] step_on_side(ids, be, t)
    &&& be.contains(edge_key(ids.last(), ids[0]))
}

/// Every side of `s` has its smaller node first.
pub open spec fn normalized(s: Seq<(u64, u64)>) -> bool {
    forall|i: int| 0 <= i < s.len() ==> (#[trigger] s[i]).0 <= s[i].1
}

/// The sides of polygons have their smaller node first.
proof fn lemma_polygon_sides_normalized(polys: Seq<Seq<u64>>)
    ensures
        normalized(polygon_sides(polys)),
    decreases polys.len(),
{
    if polys.len() > 0 {
        lemma_polygon_sides_normalized(polys.drop_last());
        let r = polygon_sides(polys.drop_last());
        if polys.last().len() >= 2 {
            let c = cyclic_keys(polys.last());
            assert forall|i: int| 0 <= i < (r + c).len() implies (#[trigger] (r + c)[i]).0 <= (r + c)[i].1 by {
                if i < r.len() {
                    assert((r + c)[i] == r[i]);
                } else {
                    assert((r + c)[i] == c[i - r.len()]);
                }
            }
        }
    }
}

/// A node that `v` is joined to by a normalized side is joined by the side
/// `edge_key(v, n)`.
pub(crate) proof fn lemma_neighbour_side(be: Seq<(u64, u64)>, v: u64, n: u64)
    requires
        normalized(be),
        neighbours(be, v).contains(n),
    ensures
        be.contains(edge_key(v, n)),
    decreases be.len(),
{
    let d = be.drop_last();
    let s = be.last();
    let r = neighbours(d, v);
    assert(normalized(d)) by {
        assert forall|i: int| 0 <= i < d.len() implies (#[trigger] d[i]).0 <= d[i].1 by {
            assert(d[i] == be[i]);
        }
    }
    assert(be[be.len() - 1] == s);
    if r.contains(n) {
        lemma_neighbour_side(d, v, n);
        let w = choose|w: int| 0 <= w < d.len() && d[w] == edge_key(v, n);
        assert(be[w] == edge_key(v, n));
    } else {
        let r1 = if s.0 == v { r.push(s.1) } else { r };
        if s.0 == v && s.1 == n {
            assert(s == edge_key(v, n));
        } else {
            if s.0 == v {
                assert(r1.contains(n) ==> r1 == r.push(s.1) && (r.contains(n) || s.1 == n)) by {
                    if r1.contains(n) {
                        let w = choose|w: int| 0 <= w < r1.len() && r1[w] == n;
                        if w < r.len() {
                            assert(r1[w] == r[w]);
                        }
                    }
                }
            }
            assert(!r1.contains(n)) by {
                if r1.contains(n) {
                    let w = choose|w: int| 0 <= w < r1.len() && r1[w] == n;
                    if w < r.len() {
                        assert(r1[w] == r[w]);
                    }
                }
            }
            let w = choose|w: int| 0 <= w < neighbours(be, v).len() && neighbours(be, v)[w] == n;
            if w < r1.len() {
                assert(neighbours(be, v)[w] == r1[w]);
            }
            assert(s.1 == v && s.0 == n);
            assert(s == edge_key(v, n));
        }
    }
}

/// The node chosen from the neighbours is one of them.
pub(crate) proof fn lemma_first_unlike(nb: Seq<u64>, prev: Option<u64>)
    ensures
        first_unlike(nb, prev) matches Some(n) ==> nb.contains(n),
    decreases nb.len(),
{
    if nb.len() > 0 && prev == Some(nb[0]) {
        lemma_first_unlike(nb.drop_first(), prev);
        match first_unlike(nb.drop_first(), prev) {
            Some(n) => {
                let w = choose|w: int| 0 <= w < nb.drop_first().len() && nb.drop_first()[w] == n;
                assert(nb[w + 1] == n);
            },
            None => {},
        }
    }
}

/// A walk along normalized sides goes from node to node along sides.
proof fn lemma_walk_steps(
    be: Seq<(u64, u64)>,
    start: u64,
    fuel: nat,
    ids: Seq<u64>,
    prev: Option<u64>,
    current: u64,
)
    requires
        normalized(be),
        ids.len() > 0,
        ids.last() == current,
        forall|t: int| 0 <= t < ids.len() - 1 ==> #[trigger] step_on_side(ids, be, t),
    ensures
        face_walk(be, start, fuel, ids, prev, current) matches Ok((ids2, last)) ==> ids2.len() > 0 && ids2[0] == ids[0]
            && ids2.last() == last && forall|t: int| 0 <= t < ids2.len() - 1 ==> #[trigger] step_on_side(ids2, be, t),
    decreases fuel,
{
    if fuel > 0 {
        let nb = neighbours(be, current);
        if nb.len() > 0 {
            lemma_first_unlike(nb, prev);
            if let Some(next) = first_unlike(nb, prev) {
                if next != start {
                    lemma_neighbour_side(be, current, next);
                    let ids1 = ids.push(next);
                    assert forall|t: int| 0 <= t < ids1.len() - 1 implies #[trigger] step_on_side(ids1, be, t) by {
                        if t < ids.len() - 1 {
                            assert(ids1[t] == ids[t] && ids1[t + 1] == ids[t + 1]);
                            assert(step_on_side(ids, be, t));
                        } else {
                            assert(ids1[t] == current && ids1[t + 1] == next);
                        }
                    }
                    lemma_walk_steps(be, start, (fuel - 1) as nat, ids1, Some(current), next);
                }
            }
        }
    }
}

/// The mesh polygons of a face.
pub open spec fn polygons_view(face: GFace) -> Seq<Seq<u64>> {
    face.mesh_faces@.map_values(|p: Vec<u64>| p@)
}

/// The sides of the polygons of `face` with at least two nodes.
fn face_sides(face: &GFace) -> (r: Vec<(u64, u64)>)
    ensures
        r@ == polygon_sides(polygons_view(*face)),
{
    let polys = &face.mesh_faces;
    let ghost pv = polygons_view(*face);
    let mut out: Vec<(u64, u64)> = Vec::new();
    let mut i: usize = 0;
    while i < polys.len()
        invariant
            i <= polys@.len(),
            pv == polygons_view(*face),
            polys@ == face.mesh_faces@,
            out@ == polygon_sides(pv.take(i as int)),
        decreases polys@.len() - i,
    {
        assert(pv.take(i + 1).drop_last() =~= pv.take(i as int));
        assert(pv.take(i + 1).last() == polys@[i as int]@);
        if polys[i].len() >= 2 {
            push_cyclic_keys(&mut out, &polys[i]);
        }
        i = i + 1;
    }
    assert(pv.take(i as int) =~= pv);
    out
}

/// Side `a` comes before side `b`.
fn side_before(a: (u64, u64), b: (u64, u64)) -> (r: bool)
    ensures
        r == side_lt(a, b),
{
    a.0 < b.0 || (a.0 == b.0 && a.1 < b.1)
}

/// The sides of `keys`, each once, in increasing order.
fn sorted_sides(keys: &Vec<(u64, u64)>) -> (r: Vec<(u64, u64)>)
    ensures
        forall|i: int, j: int| 0 <= i < j < r@.len() ==> side_lt(#[trigger] r@[i], #[trigger] r@[j]),
        forall|k: (u64, u64)| r@.contains(k) <==> keys@.contains(k),
{
    let mut r: Vec<(u64, u64)> = Vec::new();
    let mut t: usize = 0;
    while t < keys.len()
        invariant
            t <= keys@.len(),
            forall|i: int, j: int| 0 <= i < j < r@.len() ==> side_lt(#[trigger] r@[i], #[trigger] r@[j]),
            forall|k: (u64, u64)| r@.contains(k) <==> keys@.take(t as int).contains(k),
        decreases keys@.len() - t,
    {
        let k = keys[t];
        let mut p: usize = 0;
        while p < r.len() && side_before(r[p], k)
            invariant
                p <= r@.len(),
                forall|q: int| 0 <= q < p ==> side_lt(#[trigger] r@[q], k),
            decreases r@.len() - p,
        {
            p = p + 1;
        }
        let ghost before = r@;
        let ghost kt = keys@.take(t as int);
        let ghost kt1 = keys@.take(t + 1);
        assert(kt1 =~= kt.push(k));
        let present = p < r.len() && r[p].0 == k.0 && r[p].1 == k.1;
        if !present {
            r.insert(p, k);
            assert(r@ == before.insert(p as int, k));
            assert forall|i: int, j: int| 0 <= i < j < r@.len() implies side_lt(#[trigger] r@[i], #[trigger] r@[j]) by {
                if j < p {
                    assert(r@[i] == before[i] && r@[j] == before[j]);
                } else if j == p {
                    assert(r@[i] == before[i]);
                } else if i == p {
                    assert(r@[j] == before[j - 1]);
                    assert(!side_lt(before[p as int], k));
                    if j - 1 > p {
                        assert(side_lt(before[p as int], before[j - 1]));
                    }
                } else if i < p {
                    assert(r@[i] == before[i] && r@[j] == before[j - 1]);
                } else {
                    assert(r@[i] == before[i - 1] && r@[j] == before[j - 1]);
                }
            }
            assert forall|x: (u64, u64)| r@.contains(x) <==> kt1.contains(x) by {
                if r@.contains(x) {
                    let q = choose|q: int| 0 <= q < r@.len() && r@[q] == x;
                    if q < p {
                        assert(before.contains(before[q]));
                    } else if q > p {
                        assert(before.contains(before[q - 1]));
                    } else {
                        assert(kt1[t as int] == k);
                    }
                    if x != k {
                        assert(kt.contains(x));
                        let w = choose|w: int| 0 <= w < t && kt[w] == x;
                        assert(kt1[w] == x);
                    }
                }
                if kt1.contains(x) {
                    if x == k {
                        assert(r@[p as int] == k);
                    } else {
                        let w = choose|w: int| 0 <= w < t + 1 && kt1[w] == x;
                        assert(w < t);
                        assert(kt[w] == x);
                        assert(before.contains(x));
                        let q = choose|q: int| 0 <= q < before.len() && before[q] == x;
                        if q < p {
                            assert(r@[q] == x);
                        } else {
                            assert(r@[q + 1] == x);
                        }
                    }
                }
            }
        } else {
            assert(r@[p as int] == k);
            assert forall|x: (u64, u64)| r@.contains(x) <==> kt1.contains(x) by {
                if kt1.contains(x) && x != k {
                    let w = choose|w: int| 0 <= w < t + 1 && kt1[w] == x;
                    assert(kt[w] == x);
                }
                if r@.contains(x) && x != k {
                    let w = choose|w: int| 0 <= w < t && kt[w] == x;
                    assert(kt1[w] == x);
                }
            }
        }
        t = t + 1;
    }
    assert(keys@.take(t as int) =~= keys@);
    r
}

/// The entries of `once_in(keys, all)` are the entries of `keys` that
/// occur exactly once in `all`.
pub(crate) proof fn lemma_once_in(keys: Seq<(u64, u64)>, all: Seq<(u64, u64)>)
    ensures
        forall|k: (u64, u64)| once_in(keys, all).contains(k) <==> (keys.contains(k) && occurrences(all, k) == 1),
    decreases keys.len(),
{
    if keys.len() > 0 {
        let t = keys.drop_last();
        lemma_once_in(t, all);
        let r = once_in(t, all);
        assert forall|k: (u64, u64)| once_in(keys, all).contains(k) <==> (keys.contains(k) && occurrences(all, k) == 1) by {
            assert(r.contains(k) <==> (t.contains(k) && occurrences(all, k) == 1));
            let x = keys.last();
            let hit = occurrences(all, x) == 1;
            assert(once_in(keys, all) == if hit { r.push(x) } else { r });
            if keys.contains(k) && occurrences(all, k) == 1 {
                let w = choose|w: int| 0 <= w < keys.len() && keys[w] == k;
                if w < keys.len() - 1 {
                    assert(t[w] == k);
                    assert(t.contains(k));
                    let q = choose|q: int| 0 <= q < r.len() && r[q] == k;
                    if hit {
                        assert(r.push(x)[q] == k);
                    }
                } else {
                    assert(x == k);
                    assert(r.push(x)[r.len() as int] == k);
                }
            }
            if once_in(keys, all).contains(k) {
                if r.contains(k) {
                    assert(t.contains(k));
                    let w = choose|w: int| 0 <= w < t.len() && t[w] == k;
                    assert(keys[w] == k);
                } else {
                    assert(hit);
                    let q = choose|q: int| 0 <= q < r.push(x).len() && r.push(x)[q] == k;
                    if q < r.len() {
                        assert(r.push(x)[q] == r[q]);
                        assert(r.contains(k));
                    }
                    assert(x == k);
                    assert(keys[keys.len() - 1] == k);
                }
            }
        }
    }
}

/// A side that occurs in `all` is one of its entries.
proof fn lemma_occurs_in(all: Seq<(u64, u64)>, k: (u64, u64))
    requires
        occurrences(all, k) > 0,
    ensures
        all.contains(k),
    decreases all.len(),
{
    if all.last() == k {
        assert(all[all.len() - 1] == k);
    } else {
        lemma_occurs_in(all.drop_last(), k);
        let w = choose|w: int| 0 <= w < all.drop_last().len() && all.drop_last()[w] == k;
        assert(all[w] == k);
    }
}

/// Whether every end of a side of `be` is the end of exactly two of them.
fn check_two_sides(be: &Vec<(u64, u64)>) -> (r: bool)
    ensures
        r == two_sides_at_each_end(be@),
{
    let mut i: usize = 0;
    while i < be.len()
        invariant
            i <= be@.len(),
            forall|q: int| 0 <= q < i ==> neighbours(be@, (#[trigger] be@[q]).0).len() == 2 && neighbours(be@, be@[q].1).len() == 2,
        decreases be@.len() - i,
    {
        let (a, b) = be[i];
        let na = neighbours_of(be, a);
        let nb = neighbours_of(be, b);
        if na.len() != 2 || nb.len() != 2 {
            assert(!(neighbours(be@, be@[i as int].0).len() == 2 && neighbours(be@, be@[i as int].1).len() == 2));
            return false;
        }
        i = i + 1;
    }
    true
}

/// The first of `nb` that is not `prev`.
fn first_not(nb: &Vec<u64>, prev: Option<u64>) -> (r: Option<u64>)
    ensures
        r == first_unlike(nb@, prev),
{
    let mut i: usize = 0;
    assert(nb@.skip(0) =~= nb@);
    while i < nb.len()
        invariant
            i <= nb@.len(),
            first_unlike(nb@, prev) == first_unlike(nb@.skip(i as int), prev),
        decreases nb@.len() - i,
    {
        assert(nb@.skip(i as int)[0] == nb@[i as int]);
        assert(nb@.skip(i as int).drop_first() =~= nb@.skip(i + 1));
        let x = nb[i];
        let differs = match prev {
            Some(p) => p != x,
            None => true,
        };
        if differs {
            return Some(x);
        }
        i = i + 1;
    }
    assert(nb@.skip(i as int) =~= Seq::<u64>::empty());
    None
}

/// Whether `v` holds `x`.
fn holds_node(v: &Vec<u64>, x: u64) -> (r: bool)
    ensures
        r == v@.contains(x),
{
    let mut i: usize = 0;
    while i < v.len()
        invariant
            i <= v@.len(),
            forall|q: int| 0 <= q < i ==> v@[q] != x,
        decreases v@.len() - i,
    {
        if v[i] == x {
            assert(v@[i as int] == x);
            return true;
        }
        i = i + 1;
    }
    false
}

/// The boundary loop of a geometric face, as node IDs: the sides that only
/// one of its polygons with at least two nodes has, in increasing order,
/// are walked from their smallest node ID on, each step to the first
/// neighbour that is not the node just left, until the walk is back at its
/// start, at most one step more than there are such sides. It fails where
/// there is no such side, where some end is the end of other than two of
/// them, where the walk gets stuck or does not end next to its start, and
/// where the loop has fewer than three nodes. Consecutive nodes of the loop,
/// and its last and first, are joined by boundary sides.
pub fn face_boundary_loop(face: &GFace) -> (r: Result<Vec<u64>, FaceLoopError>)
    ensures
        exists|be: Seq<(u64, u64)>|
            #[trigger] sorted_once_sides(be, polygon_sides(polygons_view(*face))) && match r {
                Ok(ids) => loop_along(be) == Ok::<Seq<u64>, FaceLoopError>(ids@) && closed_along(ids@, be),
                Err(e) => loop_along(be) == Err::<Seq<u64>, FaceLoopError>(e),
            },
{
    let all = face_sides(face);
    let once = single_keys(&all);
    let be = sorted_sides(&once);
    proof {
        lemma_once_in(all@, all@);
        assert forall|k: (u64, u64)| be@.contains(k) <==> occurrences(all@, k) == 1 by {
            if occurrences(all@, k) == 1 {
                lemma_occurs_in(all@, k);
            }
        }
        assert(sorted_once_sides(be@, all@));
    }
    if be.len() == 0 {
        return Err(FaceLoopError::NoBoundary);
    }
    if !check_two_sides(&be) {
        return Err(FaceLoopError::NonManifold);
    }
    let start = smallest_endpoint(&be);
    let ghost full = face_walk(be@, start, (be@.len() + 1) as nat, seq![start], None, start);
    let limit: u128 = be.len() as u128 + 1;
    let mut ids: Vec<u64> = Vec::new();
    ids.push(start);
    let mut prev: Option<u64> = None;
    let mut current: u64 = start;
    let mut step: u128 = 0;
    assert(ids@ =~= seq![start]);
    while step < limit
        invariant
            be@.len() > 0,
            sorted_once_sides(be@, polygon_sides(polygons_view(*face))),
            two_sides_at_each_end(be@),
            start == min_endpoint(be@),
            full == face_walk(be@, start, (be@.len() + 1) as nat, seq![start], None, start),
            step <= limit,
            limit == be@.len() + 1,
            full == face_walk(be@, start, (limit - step) as nat, ids@, prev, current),
        ensures
            full == Ok::<(Seq<u64>, u64), FaceLoopError>((ids@, current)),
        decreases limit - step,
    {
        let nb = neighbours_of(&be, current);
        if nb.len() == 0 {
            return Err(FaceLoopError::NoNeighbours(current));
        }
        let next = match first_not(&nb, prev) {
            None => {
                return Err(FaceLoopError::WalkFailed(current));
            },
            Some(n) => n,
        };
        if next == start {
            break;
        }
        ids.push(next);
        prev = Some(current);
        current = next;
        step = step + 1;
    }
    assert(full == Ok::<(Seq<u64>, u64), FaceLoopError>((ids@, current)));
    let last_nb = neighbours_of(&be, current);
    if !holds_node(&last_nb, start) {
        return Err(FaceLoopError::NotClosed);
    }
    if ids.len() < 3 {
        return Err(FaceLoopError::TooFew);
    }
    proof {
        lemma_polygon_sides_normalized(polygons_view(*face));
        assert(normalized(be@)) by {
            assert forall|i: int| 0 <= i < be@.len() implies (#[trigger] be@[i]).0 <= be@[i].1 by {
                assert(be@.contains(be@[i]));
                lemma_occurs_in(all@, be@[i]);
                let w = choose|w: int| 0 <= w < all@.len() && all@[w] == be@[i];
                assert(all@[w].0 <= all@[w].1);
            }
        }
        assert(forall|t: int| 0 <= t < seq![start].len() - 1 ==> #[trigger] step_on_side(seq![start], be@, t));
        lemma_walk_steps(be@, start, (be@.len() + 1) as nat, seq![start], None, start);
        lemma_neighbour_side(be@, current, start);
    }
    Ok(ids)
}

} // verus!
