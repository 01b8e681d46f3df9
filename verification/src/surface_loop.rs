//! The outer boundary loop of a surface mesh: the sides that belong to one
//! surface element only, walked from the smallest node ID on.
use vstd::prelude::*;

use std::collections::HashMap;

use crate::element::{spec_dimension, ElementView};
use crate::mesh::{elements_view, Mesh, MeshView};
use crate::face_loop::{lemma_first_unlike, lemma_neighbour_side, lemma_once_in, normalized, step_on_side};
use crate::tetra::first_absent;

verus! {

broadcast use vstd::std_specs::hash::group_hash_axioms;

/// The side between nodes `a` and `b`, as (smaller, larger) node ID.
pub open spec fn edge_key(a: u64, b: u64) -> (u64, u64) {
    if a < b {
        (a, b)
    } else {
        (b, a)
    }
}

/// The sides of a polygon with the nodes `ids` in order, the closing side
/// last.
pub open spec fn cyclic_keys(ids: Seq<u64>) -> Seq<(u64, u64)> {
    Seq::new(ids.len(), |i: int| edge_key(ids[i], ids[(i + 1) % (ids.len() as int)]))
}

/// An element of dimension 2 with at least three nodes.
pub open spec fn is_surface_polygon(e: ElementView) -> bool {
    spec_dimension(e.etype) == 2 && e.node_ids.len() >= 3
}

/// The sides of the surface polygons among `es`, element by element.
pub open spec fn surface_edge_keys(es: Seq<ElementView>) -> Seq<(u64, u64)>
    decreases es.len(),
{
    if es.len() == 0 {
        seq![]
    } else {
        let r = surface_edge_keys(es.drop_last());
        if is_surface_polygon(es.last()) {
            r + cyclic_keys(es.last().node_ids)
        } else {
            r
        }
    }
}

/// How often `k` occurs in `keys`.
pub open spec fn occurrences(keys: Seq<(u64, u64)>, k: (u64, u64)) -> nat
    decreases keys.len(),
{
    if keys.len() == 0 {
        0
    } else {
        occurrences(keys.drop_last(), k) + if keys.last() == k {
            1nat
        } else {
            0nat
        }
    }
}

/// The entries of `keys` that occur exactly once in `all`, in order.
pub open spec fn once_in(keys: Seq<(u64, u64)>, all: Seq<(u64, u64)>) -> Seq<(u64, u64)>
    decreases keys.len(),
{
    if keys.len() == 0 {
        seq![]
    } else {
        let r = once_in(keys.drop_last(), all);
        if occurrences(all, keys.last()) == 1 {
            r.push(keys.last())
        } else {
            r
        }
    }
}

/// The boundary sides of the surface polygons among `es`: those that only
/// one polygon has, in the order they are met.
pub open spec fn boundary_edge_keys(es: Seq<ElementView>) -> Seq<(u64, u64)> {
    once_in(surface_edge_keys(es), surface_edge_keys(es))
}

/// A side as one number.
pub open spec fn key_code(k: (u64, u64)) -> int {
    k.0 * 0x1_0000_0000_0000_0000 + k.1
}

/// Different sides have different numbers.
pub(crate) proof fn lemma_key_code_injective(a: (u64, u64), b: (u64, u64))
    ensures
        key_code(a) == key_code(b) ==> a == b,
{
    let (a0, a1, b0, b1) = (a.0 as int, a.1 as int, b.0 as int, b.1 as int);
    assert(a0 * 0x1_0000_0000_0000_0000 + a1 == b0 * 0x1_0000_0000_0000_0000 + b1 ==> a0 == b0 && a1 == b1)
        by (nonlinear_arith)
        requires
            0 <= a1 < 0x1_0000_0000_0000_0000,
            0 <= b1 < 0x1_0000_0000_0000_0000,
    ;
}

/// The count that `counts` keeps for side `k`, 0 for none.
pub open spec fn count_of(counts: Map<u128, usize>, k: (u64, u64)) -> nat {
    if counts.contains_key(key_code(k) as u128) {
        counts[key_code(k) as u128] as nat
    } else {
        0
    }
}

/// Appends the sides of the polygon `ids` to `out`.
pub(crate) fn push_cyclic_keys(out: &mut Vec<(u64, u64)>, ids: &Vec<u64>)
    requires
        ids@.len() > 0,
    ensures
        final(out)@ == old(out)@ + cyclic_keys(ids@),
{
    let n = ids.len();
    let mut i: usize = 0;
    while i < n
        invariant
            n == ids@.len(),
            n > 0,
            i <= n,
            out@ == old(out)@ + cyclic_keys(ids@).take(i as int),
        decreases n - i,
    {
        let a = ids[i];
        let b = ids[(i + 1) % n];
        let k = if a < b {
            (a, b)
        } else {
            (b, a)
        };
        out.push(k);
        assert(cyclic_keys(ids@).take(i + 1) =~= cyclic_keys(ids@).take(i as int).push(k));
        i = i + 1;
    }
    assert(cyclic_keys(ids@).take(i as int) =~= cyclic_keys(ids@));
}

/// The sides of the surface polygons of the mesh, element by element.
fn surface_edges(mesh: &Mesh) -> (r: Vec<(u64, u64)>)
    ensures
        r@ == surface_edge_keys(mesh@.elements),
{
    let es = mesh.elements();
    let mut out: Vec<(u64, u64)> = Vec::new();
    let mut i: usize = 0;
    while i < es.len()
        invariant
            es@ == mesh.element_seq(),
            mesh@.elements == elements_view(es@),
            i <= es@.len(),
            out@ == surface_edge_keys(mesh@.elements.take(i as int)),
        decreases es@.len() - i,
    {
        let ghost ev = mesh@.elements;
        assert(ev.take(i + 1).drop_last() =~= ev.take(i as int));
        assert(ev.take(i + 1).last() == es@[i as int]@);
        let e = &es[i];
        if e.dimension() == 2 && e.node_ids.len() >= 3 {
            push_cyclic_keys(&mut out, &e.node_ids);
        }
        i = i + 1;
    }
    assert(mesh@.elements.take(i as int) =~= mesh@.elements);
    out
}

/// The entries of `keys` that occur in it exactly once, in order.
pub(crate) fn single_keys(keys: &Vec<(u64, u64)>) -> (r: Vec<(u64, u64)>)
    ensures
        r@ == once_in(keys@, keys@),
{
    let mut counts: HashMap<u128, usize> = HashMap::new();
    let mut i: usize = 0;
    while i < keys.len()
        invariant
            i <= keys@.len(),
            forall|k: (u64, u64)| #[trigger] count_of(counts@, k) == occurrences(keys@.take(i as int), k),
        decreases keys@.len() - i,
    {
        let k = keys[i];
        let code: u128 = (k.0 as u128) * 0x1_0000_0000_0000_0000 + (k.1 as u128);
        assert(code as int == key_code(k)) by (nonlinear_arith)
            requires
                code == (k.0 as u128) * 0x1_0000_0000_0000_0000 + (k.1 as u128),
        ;
        let ghost before = counts@;
        let c: usize = match counts.get(&code) {
            Some(c) => *c,
            None => 0,
        };
        assert(c == count_of(before, k));
        proof {
            assert(keys@.take(i + 1).drop_last() =~= keys@.take(i as int));
            assert(keys@.take(i + 1).last() == k);
            assert(occurrences(keys@.take(i as int), k) <= i) by {
                lemma_occurrences_bound(keys@.take(i as int), k);
            }
        }
        counts.insert(code, c + 1);
        assert forall|j: (u64, u64)| #[trigger] count_of(counts@, j) == occurrences(keys@.take(i + 1), j) by {
            lemma_key_code_injective(j, k);
            if j != k {
                assert(count_of(counts@, j) == count_of(before, j));
            }
        }
        i = i + 1;
    }
    assert(keys@.take(i as int) =~= keys@);
    let mut out: Vec<(u64, u64)> = Vec::new();
    let mut t: usize = 0;
    while t < keys.len()
        invariant
            t <= keys@.len(),
            forall|k: (u64, u64)| #[trigger] count_of(counts@, k) == occurrences(keys@, k),
            out@ == once_in(keys@.take(t as int), keys@),
        decreases keys@.len() - t,
    {
        let k = keys[t];
        let code: u128 = (k.0 as u128) * 0x1_0000_0000_0000_0000 + (k.1 as u128);
        assert(code as int == key_code(k)) by (nonlinear_arith)
            requires
                code == (k.0 as u128) * 0x1_0000_0000_0000_0000 + (k.1 as u128),
        ;
        assert(keys@.take(t + 1).drop_last() =~= keys@.take(t as int));
        assert(keys@.take(t + 1).last() == k);
        let once = match counts.get(&code) {
            Some(c) => *c == 1,
            None => false,
        };
        assert(once == (count_of(counts@, k) == 1));
        if once {
            out.push(k);
        }
        t = t + 1;
    }
    assert(keys@.take(t as int) =~= keys@);
    out
}

/// A key occurs at most as often as `keys` is long.
proof fn lemma_occurrences_bound(keys: Seq<(u64, u64)>, k: (u64, u64))
    ensures
        occurrences(keys, k) <= keys.len(),
    decreases keys.len(),
{
    if keys.len() > 0 {
        lemma_occurrences_bound(keys.drop_last(), k);
    }
}

// ─── Walking the boundary ────────────────────────────────────────────────────

/// The nodes joined to `v` by the sides `be`, side by side: for a side
/// (a, b), `b` if `a` is `v`, then `a` if `b` is `v`.
pub open spec fn neighbours(be: Seq<(u64, u64)>, v: u64) -> Seq<u64>
    decreases be.len(),
{
    if be.len() == 0 {
        seq![]
    } else {
        let r = neighbours(be.drop_last(), v);
        let s = be.last();
        let r1 = if s.0 == v {
            r.push(s.1)
        } else {
            r
        };
        if s.1 == v {
            r1.push(s.0)
        } else {
            r1
        }
    }
}

/// The smallest node ID of the sides `be`, 0 for none.
pub open spec fn min_endpoint(be: Seq<(u64, u64)>) -> u64
    decreases be.len(),
{
    if be.len() == 0 {
        0
    } else {
        let s = be.last();
        let m = if s.0 < s.1 {
            s.0
        } else {
            s.1
        };
        if be.len() == 1 {
            m
        } else {
            let r = min_endpoint(be.drop_last());
            if r < m {
                r
            } else {
                m
            }
        }
    }
}

/// The first of `nb` that is not `prev`.
pub open spec fn first_unlike(nb: Seq<u64>, prev: Option<u64>) -> Option<u64>
    decreases nb.len(),
{
    if nb.len() == 0 {
        None
    } else if prev != Some(nb[0]) {
        Some(nb[0])
    } else {
        first_unlike(nb.drop_first(), prev)
    }
}

/// The node a walk goes on to from neighbours `nb`, having come from
/// `prev`: the first that is not `prev`, else the first.
pub open spec fn pick_next(nb: Seq<u64>, prev: Option<u64>) -> u64 {
    match first_unlike(nb, prev) {
        Some(n) => n,
        None => nb[0],
    }
}

/// A walk along the sides `be` back to `start`, at most `fuel` steps more:
/// `ids` are the nodes met so far, `visited` the sides taken, `prev` the
/// node before `current`. It stops on a side already taken or on reaching
/// `start`; `None` where the current node has no side.
pub open spec fn walk(
    be: Seq<(u64, u64)>,
    start: u64,
    fuel: nat,
    ids: Seq<u64>,
    visited: Seq<(u64, u64)>,
    prev: Option<u64>,
    current: u64,
) -> Option<Seq<u64>>
    decreases fuel,
{
    if fuel == 0 {
        Some(ids)
    } else {
        let nb = neighbours(be, current);
        if nb.len() == 0 {
            None
        } else {
            let next = pick_next(nb, prev);
            let key = edge_key(current, next);
            if visited.contains(key) || next == start {
                Some(ids)
            } else {
                walk(be, start, (fuel - 1) as nat, ids.push(next), visited.push(key), Some(current), next)
            }
        }
    }
}

/// The sides of the surface polygons have their smaller node first.
proof fn lemma_surface_edge_keys_normalized(es: Seq<ElementView>)
    ensures
        normalized(surface_edge_keys(es)),
    decreases es.len(),
{
    if es.len() > 0 {
        lemma_surface_edge_keys_normalized(es.drop_last());
        let r = surface_edge_keys(es.drop_last());
        if is_surface_polygon(es.last()) {
            let c = cyclic_keys(es.last().node_ids);
            assert forall|i: int| 0 <= i < (r + c).len() implies (#[trigger] (r + c)[i]).0 <= (r + c)[i].1 by {
                if i < r.len() {
                    assert((r + c)[i] == r[i]);
                } else {
                    assert((r + c)[i] == c[i - r.len()]);
                }
            }
        }
    }
}

/// A walk along normalized sides goes from node to node along sides.
proof fn lemma_walk_steps(
    be: Seq<(u64, u64)>,
    start: u64,
    fuel: nat,
    ids: Seq<u64>,
    visited: Seq<(u64, u64)>,
    prev: Option<u64>,
    current: u64,
)
    requires
        normalized(be),
        ids.len() > 0,
        ids.last() == current,
        forall|t: int| 0 <= t < ids.len() - 1 ==> #[trigger] step_on_side(ids, be, t),
    ensures
        walk(be, start, fuel, ids, visited, prev, current) matches Some(ids2) ==> forall|t: int|
            0 <= t < ids2.len() - 1 ==> #[trigger] step_on_side(ids2, be, t),
    decreases fuel,
{
    if fuel > 0 {
        let nb = neighbours(be, current);
        if nb.len() > 0 {
            let next = pick_next(nb, prev);
            lemma_first_unlike(nb, prev);
            assert(nb.contains(next)) by {
                if first_unlike(nb, prev) is None {
                    assert(nb[0] == next);
                }
            }
            let key = edge_key(current, next);
            if !(visited.contains(key) || next == start) {
                lemma_neighbour_side(be, current, next);
                let ids1 = ids.push(next);
                assert forall|t: int| 0 <= t < ids1.len() - 1 implies #[trigger] step_on_side(ids1, be, t) by {
                    if t < ids.len() - 1 {
                        assert(ids1[t] == ids[t] && ids1[t + 1] == ids[t + 1]);
                        assert(step_on_side(ids, be, t));
                    } else {
                        assert(ids1[t] == current && ids1[t + 1] == next);
                    }
                }
                lemma_walk_steps(be, start, (fuel - 1) as nat, ids1, visited.push(key), Some(current), next);
            }
        }
    }
}

/// Why a surface mesh has no boundary loop.
#[derive(Debug, Clone, Copy, PartialEq, Eq, Structural)]
pub enum BoundaryLoopError {
    /// Fewer than three boundary sides.
    NoBoundary,
    /// The walk reached a node without boundary sides.
    BrokenAdjacency,
    /// The loop has fewer than three nodes.
    Degenerate,
    /// A node of the loop is not a node of the mesh.
    MissingNode(u64),
}

/// The boundary loop of a surface mesh: from the smallest node ID of the
/// boundary sides, the nodes met walking along them until a side repeats or
/// the walk is back at its start, at most two steps more than there are
/// sides.
pub open spec fn spec_boundary_loop(m: MeshView) -> Result<Seq<u64>, BoundaryLoopError> {
    let be = boundary_edge_keys(m.elements);
    if be.len() < 3 {
        Err(BoundaryLoopError::NoBoundary)
    } else {
        let start = min_endpoint(be);
        match walk(be, start, (be.len() + 2) as nat, seq![start], seq![], None, start) {
            None => Err(BoundaryLoopError::BrokenAdjacency),
            Some(ids) => if ids.len() < 3 {
                Err(BoundaryLoopError::Degenerate)
            } else {
                match first_absent(m.nodes, ids) {
                    Some(x) => Err(BoundaryLoopError::MissingNode(x)),
                    None => Ok(ids),
                }
            },
        }
    }
}

/// The nodes joined to `v` by the sides `be`.
pub(crate) fn neighbours_of(be: &Vec<(u64, u64)>, v: u64) -> (r: Vec<u64>)
    ensures
        r@ == neighbours(be@, v),
{
    let mut out: Vec<u64> = Vec::new();
    let mut i: usize = 0;
    while i < be.len()
        invariant
            i <= be@.len(),
            out@ == neighbours(be@.take(i as int), v),
        decreases be@.len() - i,
    {
        assert(be@.take(i + 1).drop_last() =~= be@.take(i as int));
        assert(be@.take(i + 1).last() == be@[i as int]);
        let (a, b) = be[i];
        if a == v {
            out.push(b);
        }
        if b == v {
            out.push(a);
        }
        i = i + 1;
    }
    assert(be@.take(i as int) =~= be@);
    out
}

/// The smallest node ID of the sides `be`.
pub(crate) fn smallest_endpoint(be: &Vec<(u64, u64)>) -> (m: u64)
    ensures
        m == min_endpoint(be@),
{
    let mut m: u64 = 0;
    let mut i: usize = 0;
    while i < be.len()
        invariant
            i <= be@.len(),
            m == min_endpoint(be@.take(i as int)),
        decreases be@.len() - i,
    {
        assert(be@.take(i + 1).drop_last() =~= be@.take(i as int));
        assert(be@.take(i + 1).last() == be@[i as int]);
        let (a, b) = be[i];
        let s = if a < b {
            a
        } else {
            b
        };
        if i == 0 || s < m {
            m = s;
        }
        i = i + 1;
    }
    assert(be@.take(i as int) =~= be@);
    m
}

/// The node a walk goes on to from neighbours `nb`, having come from
/// `prev`.
fn next_on_walk(nb: &Vec<u64>, prev: Option<u64>) -> (n: u64)
    requires
        nb@.len() > 0,
    ensures
        n == pick_next(nb@, prev),
{
    let mut i: usize = 0;
    assert(nb@.skip(0) =~= nb@);
    while i < nb.len()
        invariant
            i <= nb@.len(),
            nb@.len() > 0,
            first_unlike(nb@, prev) == first_unlike(nb@.skip(i as int), prev),
        decreases nb@.len() - i,
    {
        assert(nb@.skip(i as int)[0] == nb@[i as int]);
        assert(nb@.skip(i as int).drop_first() =~= nb@.skip(i + 1));
        let x = nb[i];
        let differs = match prev {
            Some(p) => p != x,
            None => true,
        };
        if differs {
            return x;
        }
        i = i + 1;
    }
    assert(nb@.skip(i as int) =~= Seq::<u64>::empty());
    nb[0]
}

/// Whether `visited` holds the side `key`.
fn holds_key(visited: &Vec<(u64, u64)>, key: (u64, u64)) -> (b: bool)
    ensures
        b == visited@.contains(key),
{
    let mut i: usize = 0;
    while i < visited.len()
        invariant
            i <= visited@.len(),
            forall|q: int| 0 <= q < i ==> visited@[q] != key,
        decreases visited@.len() - i,
    {
        if visited[i].0 == key.0 && visited[i].1 == key.1 {
            assert(visited@[i as int] == key);
            return true;
        }
        i = i + 1;
    }
    false
}

/// The outer boundary loop of the surface mesh, as node IDs: the sides
/// that only one surface polygon has are walked from their smallest node
/// ID on, until a side repeats or the walk is back at its start, at most
/// two steps more than there are such sides. Consecutive nodes of the loop
/// are joined by such sides.
pub fn boundary_loop_from_surface_mesh(mesh: &Mesh) -> (r: Result<Vec<u64>, BoundaryLoopError>)
    requires
        mesh.wf(),
    ensures
        match r {
            Ok(ids) => spec_boundary_loop(mesh@) == Ok::<Seq<u64>, BoundaryLoopError>(ids@),
            Err(e) => spec_boundary_loop(mesh@) == Err::<Seq<u64>, BoundaryLoopError>(e),
        },
        r matches Ok(ids) ==> forall|t: int|
            0 <= t < ids@.len() - 1 ==> #[trigger] step_on_side(ids@, boundary_edge_keys(mesh@.elements), t),
{
    let all = surface_edges(mesh);
    let be = single_keys(&all);
    if be.len() < 3 {
        return Err(BoundaryLoopError::NoBoundary);
    }
    let start = smallest_endpoint(&be);
    let ghost full = walk(be@, start, (be@.len() + 2) as nat, seq![start], seq![], None, start);
    let limit: u128 = be.len() as u128 + 2;
    let mut ids: Vec<u64> = Vec::new();
    ids.push(start);
    let mut visited: Vec<(u64, u64)> = Vec::new();
    let mut prev: Option<u64> = None;
    let mut current: u64 = start;
    let mut step: u128 = 0;
    let mut done = false;
    assert(ids@ =~= seq![start]);
    assert(visited@ =~= Seq::<(u64, u64)>::empty());
    while step < limit && !done
        invariant
            mesh.wf(),
            be@ == boundary_edge_keys(mesh@.elements),
            be@.len() >= 3,
            start == min_endpoint(be@),
            full == walk(be@, start, (be@.len() + 2) as nat, seq![start], seq![], None, start),
            step <= limit,
            limit == be@.len() + 2,
            done ==> full == Some(ids@),
            !done ==> full == walk(be@, start, (limit - step) as nat, ids@, visited@, prev, current),
        decreases (limit - step) * 2 + if done {
            0int
        } else {
            1int
        },
    {
        let nb = neighbours_of(&be, current);
        if nb.len() == 0 {
            assert(full == None::<Seq<u64>>);
            return Err(BoundaryLoopError::BrokenAdjacency);
        }
        let next = next_on_walk(&nb, prev);
        let key = if current < next {
            (current, next)
        } else {
            (next, current)
        };
        assert(key == edge_key(current, next));
        if holds_key(&visited, key) || next == start {
            done = true;
        } else {
            visited.push(key);
            ids.push(next);
            prev = Some(current);
            current = next;
            step = step + 1;
        }
    }
    if !done {
        assert(step == limit);
    }
    if ids.len() < 3 {
        return Err(BoundaryLoopError::Degenerate);
    }
    let mut t: usize = 0;
    assert(ids@.skip(0) =~= ids@);
    while t < ids.len()
        invariant
            mesh.wf(),
            be@ == boundary_edge_keys(mesh@.elements),
            be@.len() >= 3,
            start == min_endpoint(be@),
            full == walk(be@, start, (be@.len() + 2) as nat, seq![start], seq![], None, start),
            full == Some(ids@),
            ids@.len() >= 3,
            t <= ids@.len(),
            first_absent(mesh@.nodes, ids@) == first_absent(mesh@.nodes, ids@.skip(t as int)),
        decreases ids@.len() - t,
    {
        assert(ids@.skip(t as int)[0] == ids@[t as int]);
        assert(ids@.skip(t as int).drop_first() =~= ids@.skip(t + 1));
        if !mesh.contains_node(ids[t]) {
            assert(first_absent(mesh@.nodes, ids@) == Some(ids@[t as int]));
            return Err(BoundaryLoopError::MissingNode(ids[t]));
        }
        t = t + 1;
    }
    assert(ids@.skip(t as int) =~= Seq::<u64>::empty());
    proof {
        let all = surface_edge_keys(mesh@.elements);
        lemma_surface_edge_keys_normalized(mesh@.elements);
        lemma_once_in(all, all);
        assert(normalized(be@)) by {
            assert forall|i: int| 0 <= i < be@.len() implies (#[trigger] be@[i]).0 <= be@[i].1 by {
                assert(be@ == once_in(all, all));
                assert(once_in(all, all).contains(be@[i]));
                assert(all.contains(be@[i]));
                let w = choose|w: int| 0 <= w < all.len() && all[w] == be@[i];
                assert(all[w].0 <= all[w].1);
            }
        }
        assert(forall|t: int| 0 <= t < seq![start].len() - 1 ==> #[trigger] step_on_side(seq![start], be@, t));
        lemma_walk_steps(be@, start, (be@.len() + 2) as nat, seq![start], seq![], None, start);
    }
    Ok(ids)
}

} // verus!
