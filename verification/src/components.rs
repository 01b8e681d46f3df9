//! The connected components of a graph given by neighbour lists, found
//! breadth first.
use vstd::prelude::*;


verus! {

/// Node `b` is in the neighbour list of node `a` of the graph `g`.
pub open spec fn linked(g: Seq<Seq<usize>>, a: int, b: int) -> bool {
    0 <= a < g.len() && exists|k: int| 0 <= k < g[a].len() && g[a][k] as int == b
}

/// Every neighbour is a node of the graph.
pub open spec fn in_range(g: Seq<Seq<usize>>) -> bool {
    forall|a: int, k: int| 0 <= a < g.len() && 0 <= k < g[a].len() ==> #[trigger] g[a][k] < g.len()
}

/// Each node is a neighbour of its neighbours.
pub open spec fn symmetric(g: Seq<Seq<usize>>) -> bool {
    forall|a: int, b: int| 0 <= a < g.len() && 0 <= b < g.len() && #[trigger] linked(g, a, b) ==> linked(g, b, a)
}

/// The neighbour lists of a graph.
pub open spec fn graph_view(g: Seq<Vec<usize>>) -> Seq<Seq<usize>> {
    g.map_values(|v: Vec<usize>| v@)
}

/// Lists of node indices as integers.
pub open spec fn lists_as_ints(r: Seq<Vec<usize>>) -> Seq<Seq<int>> {
    r.map_values(|v: Vec<usize>| as_ints(v@))
}

/// Member `t` of the list `m` has a member before it as a neighbour.
pub open spec fn joins_earlier(g: Seq<Seq<usize>>, m: Seq<int>, t: int) -> bool {
    exists|u: int| 0 <= u < t && linked(g, m[t], m[u])
}

/// Some list of `ms` holds `i`.
pub open spec fn in_a_component(ms: Seq<Seq<int>>, i: int) -> bool {
    exists|j: int| 0 <= j < ms.len() && #[trigger] ms[j].contains(i)
}

/// The lists `ms` of nodes split the graph `g` into components: every node
/// is in exactly one list, once; a neighbour of a member of a list is a
/// member; each member after the first has an earlier one as a neighbour;
/// each list starts with its smallest node, and the lists come in the order
/// of their first nodes.
pub open spec fn components_of(g: Seq<Seq<usize>>, ms: Seq<Seq<int>>) -> bool {
    &&& forall|j: int, t: int| 0 <= j < ms.len() && 0 <= t < ms[j].len() ==> 0 <= #[trigger] ms[j][t] < g.len()
    &&& forall|i: int| 0 <= i < g.len() ==> #[trigger] in_a_component(ms, i)
    &&& forall|j1: int, t1: int, j2: int, t2: int|
        0 <= j1 < ms.len() && 0 <= j2 < ms.len() && 0 <= t1 < ms[j1].len() && 0 <= t2 < ms[j2].len()
            && #[trigger] ms[j1][t1] == #[trigger] ms[j2][t2] ==> j1 == j2 && t1 == t2
    &&& forall|j: int, t: int, q: int|
        0 <= j < ms.len() && 0 <= t < ms[j].len() && 0 <= q < g.len() && #[trigger] linked(g, ms[j][t], q) ==> ms[j].contains(q)
    &&& forall|j: int, t: int| 0 <= j < ms.len() && 0 < t < ms[j].len() ==> #[trigger] joins_earlier(g, ms[j], t)
    &&& forall|j: int| 0 <= j < ms.len() ==> (#[trigger] ms[j]).len() > 0
    &&& forall|j: int, t: int| 0 <= j < ms.len() && 0 <= t < ms[j].len() ==> ms[j][0] <= #[trigger] ms[j][t]
    &&& forall|j1: int, j2: int| 0 <= j1 < j2 < ms.len() ==> #[trigger] ms[j1][0] < #[trigger] ms[j2][0]
}

/// A list of indices as integers.
pub open spec fn as_ints(q: Seq<usize>) -> Seq<int> {
    q.map_values(|x: usize| x as int)
}

/// Each member of a list after the first has an earlier one as a neighbour.
#[verifier::opaque]
pub open spec fn chained(g: Seq<Seq<usize>>, ms: Seq<Seq<int>>) -> bool {
    forall|j: int, t: int| 0 <= j < ms.len() && 0 < t < ms[j].len() ==> #[trigger] joins_earlier(g, ms[j], t)
}

/// The number of entries of `s` that are `usize::MAX`.
pub open spec fn count_none(s: Seq<usize>) -> nat
    decreases s.len(),
{
    if s.len() == 0 {
        0
    } else {
        count_none(s.drop_last()) + if s.last() == usize::MAX {
            1nat
        } else {
            0nat
        }
    }
}

/// Setting an entry that was `usize::MAX` to another value leaves one
/// fewer.
proof fn lemma_count_none_update(s: Seq<usize>, i: int, v: usize)
    requires
        0 <= i < s.len(),
        s[i] == usize::MAX,
        v != usize::MAX,
    ensures
        count_none(s.update(i, v)) + 1 == count_none(s),
    decreases s.len(),
{
    if i < s.len() - 1 {
        lemma_count_none_update(s.drop_last(), i, v);
        assert(s.update(i, v).drop_last() =~= s.drop_last().update(i, v));
    } else {
        assert(s.update(i, v).drop_last() =~= s.drop_last());
    }
}

// ─── The order of a breadth-first search ────────────────────────────────────

/// The number of entries of `seen` not yet marked.
pub open spec fn unseen(seen: Seq<bool>) -> nat
    decreases seen.len(),
{
    if seen.len() == 0 {
        0
    } else {
        unseen(seen.drop_last()) + if seen.last() {
            0nat
        } else {
            1nat
        }
    }
}

/// Marking an unmarked entry leaves one fewer unmarked.
pub proof fn lemma_unseen_update(s: Seq<bool>, i: int)
    requires
        0 <= i < s.len(),
        !s[i],
    ensures
        unseen(s.update(i, true)) + 1 == unseen(s),
    decreases s.len(),
{
    if i < s.len() - 1 {
        lemma_unseen_update(s.drop_last(), i);
        assert(s.update(i, true).drop_last() =~= s.drop_last().update(i, true));
    } else {
        assert(s.update(i, true).drop_last() =~= s.drop_last());
    }
}

/// Visiting the neighbours `nb` in order: each node of the graph not yet
/// seen is marked and joins the end of the queue.
pub open spec fn visit_all(nb: Seq<usize>, seen: Seq<bool>, queue: Seq<int>) -> (Seq<bool>, Seq<int>)
    decreases nb.len(),
{
    if nb.len() == 0 {
        (seen, queue)
    } else {
        let (s, q) = visit_all(nb.drop_last(), seen, queue);
        let v = nb.last() as int;
        if v < s.len() && !s[v] {
            (s.update(v, true), q.push(v))
        } else {
            (s, q)
        }
    }
}

/// A visit marks as many nodes as it queues.
pub proof fn lemma_visit_all(nb: Seq<usize>, seen: Seq<bool>, queue: Seq<int>)
    ensures
        visit_all(nb, seen, queue).0.len() == seen.len(),
        unseen(visit_all(nb, seen, queue).0) + visit_all(nb, seen, queue).1.len() == unseen(seen) + queue.len(),
    decreases nb.len(),
{
    if nb.len() > 0 {
        lemma_visit_all(nb.drop_last(), seen, queue);
        let (s, q) = visit_all(nb.drop_last(), seen, queue);
        let v = nb.last() as int;
        if v < s.len() && !s[v] {
            lemma_unseen_update(s, v);
        }
    }
}

/// A breadth-first search in `g` that has marked `seen` and queued `queue`,
/// going on from the queue member at `head`: the marks and the queue once
/// every member is visited.
pub open spec fn bfs_queue(g: Seq<Seq<usize>>, seen: Seq<bool>, queue: Seq<int>, head: int) -> (Seq<bool>, Seq<int>)
    decreases unseen(seen) + queue.len() - head,
{
    if 0 <= head < queue.len() && 0 <= queue[head] < g.len() {
        proof {
            lemma_visit_all(g[queue[head]], seen, queue);
        }
        let (s, q) = visit_all(g[queue[head]], seen, queue);
        bfs_queue(g, s, q, head + 1)
    } else {
        (seen, queue)
    }
}

/// The components found by searching breadth first from each node from
/// `start` on that `seen` does not mark, in order.
pub open spec fn components_from(g: Seq<Seq<usize>>, seen: Seq<bool>, start: int) -> Seq<Seq<int>>
    decreases g.len() - start,
{
    if 0 <= start < g.len() {
        if start < seen.len() && !seen[start] {
            let (s, q) = bfs_queue(g, seen.update(start, true), seq![start], 0);
            seq![q] + components_from(g, s, start + 1)
        } else {
            components_from(g, seen, start + 1)
        }
    } else {
        seq![]
    }
}

/// The connected components of `g` in the order breadth-first searches
/// from its nodes in increasing order find them, each listing its nodes in
/// the order its search meets them.
pub open spec fn bfs_components(g: Seq<Seq<usize>>) -> Seq<Seq<int>> {
    components_from(g, Seq::new(g.len(), |i: int| false), 0)
}

/// The nodes that have a component.
pub open spec fn seen_of(comp: Seq<usize>) -> Seq<bool> {
    comp.map_values(|c: usize| c != usize::MAX)
}

// ─── Breadth-first search state ──────────────────────────────────────────────

/// Components before `rid` hold the neighbours of their members.
#[verifier::opaque]
pub open spec fn closed_below(g: Seq<Seq<usize>>, comp: Seq<usize>, rid: usize) -> bool {
    forall|p: int, q: int|
        0 <= p < g.len() && 0 <= q < g.len() && comp[p] != usize::MAX && comp[p] < rid && #[trigger] linked(g, p, q) ==> comp[q] == comp[p]
}

/// The entries of `comp` name components up to `rid`, and every node up to
/// `start` has one.
#[verifier::opaque]
pub open spec fn bounded(comp: Seq<usize>, n: int, rid: usize, start: usize) -> bool {
    &&& comp.len() == n
    &&& start < n
    &&& forall|i: int| 0 <= i < n && #[trigger] comp[i] != usize::MAX ==> comp[i] <= rid
    &&& forall|q: int| 0 <= q <= start ==> #[trigger] comp[q] != usize::MAX
}

/// Components before `rid` are the lists of `ms`.
#[verifier::opaque]
pub open spec fn listed(comp: Seq<usize>, ms: Seq<Seq<int>>, n: int, rid: usize) -> bool {
    &&& ms.len() == rid
    &&& forall|i: int, j: int|
        0 <= i < n && 0 <= j < ms.len() ==> ((#[trigger] comp[i] == j) <==> (#[trigger] ms[j]).contains(i))
}

/// The queue of component `rid`, started at `start`: its members without
/// repeats, each after the first a neighbour of an earlier one.
#[verifier::opaque]
pub open spec fn queue_ok(g: Seq<Seq<usize>>, comp: Seq<usize>, queue: Seq<usize>, rid: usize, start: usize) -> bool {
    &&& queue.len() > 0
    &&& queue[0] == start
    &&& forall|t: int| 0 <= t < queue.len() ==> start <= #[trigger] queue[t] < g.len()
    &&& forall|t1: int, t2: int|
        0 <= t1 < queue.len() && 0 <= t2 < queue.len() && #[trigger] queue[t1] == #[trigger] queue[t2] ==> t1 == t2
    &&& forall|i: int| 0 <= i < g.len() ==> ((#[trigger] comp[i] == rid) <==> queue.contains(i as usize))
    &&& forall|t: int|
        0 < t < queue.len() ==> exists|u: int| 0 <= u < t && linked(g, #[trigger] queue[t] as int, queue[u] as int)
}

/// The first `head` members of the queue have all their neighbours in the
/// component.
#[verifier::opaque]
pub open spec fn processed(g: Seq<Seq<usize>>, comp: Seq<usize>, queue: Seq<usize>, head: int, rid: usize) -> bool {
    forall|t: int, q: int|
        0 <= t < head && 0 <= q < g.len() && #[trigger] linked(g, queue[t] as int, q) ==> comp[q] == rid
}

/// The member of the queue at `head` is a node of component `rid`.
proof fn lemma_queue_member(g: Seq<Seq<usize>>, c: Seq<usize>, q: Seq<usize>, head: int, rid: usize, start: usize)
    requires
        0 <= head < q.len(),
        queue_ok(g, c, q, rid, start),
    ensures
        q[head] < g.len(),
        c[q[head] as int] == rid,
{
    reveal(queue_ok);
    assert(q.contains(q[head]));
}

/// A node that already has a component and has a member of component
/// `rid` as a neighbour is in component `rid`.
proof fn lemma_holder_in_region(
    g: Seq<Seq<usize>>,
    c: Seq<usize>,
    q: Seq<usize>,
    head: int,
    ni: int,
    rid: usize,
    start: usize,
)
    requires
        0 <= head < q.len(),
        0 <= ni < g.len(),
        c[ni] != usize::MAX,
        linked(g, ni, q[head] as int),
        bounded(c, g.len() as int, rid, start),
        closed_below(g, c, rid),
        queue_ok(g, c, q, rid, start),
    ensures
        c[ni] == rid,
{
    reveal(bounded);
    reveal(closed_below);
    lemma_queue_member(g, c, q, head, rid, start);
    let ei = q[head] as int;
    if c[ni] != rid {
        assert(c[ni] < rid);
        assert(c[ei] == c[ni]);
    }
}

/// Putting node `ni`, which has no component yet and has the queue member
/// at `head` as a neighbour, into component `rid` at the end of the queue
/// keeps the search state.
proof fn lemma_admit(
    g: Seq<Seq<usize>>,
    c: Seq<usize>,
    q: Seq<usize>,
    head: int,
    ni: int,
    rid: usize,
    start: usize,
    ms: Seq<Seq<int>>,
)
    requires
        0 <= head < q.len(),
        0 <= ni < g.len(),
        g.len() <= usize::MAX,
        rid < usize::MAX,
        c[ni] == usize::MAX,
        linked(g, ni, q[head] as int),
        bounded(c, g.len() as int, rid, start),
        listed(c, ms, g.len() as int, rid),
        closed_below(g, c, rid),
        queue_ok(g, c, q, rid, start),
        processed(g, c, q, head, rid),
    ensures
        bounded(c.update(ni, rid), g.len() as int, rid, start),
        listed(c.update(ni, rid), ms, g.len() as int, rid),
        closed_below(g, c.update(ni, rid), rid),
        queue_ok(g, c.update(ni, rid), q.push(ni as usize), rid, start),
        processed(g, c.update(ni, rid), q.push(ni as usize), head, rid),
{
    reveal(bounded);
    reveal(listed);
    reveal(closed_below);
    reveal(queue_ok);
    reveal(processed);
    let n = g.len() as int;
    let c2 = c.update(ni, rid);
    let q2 = q.push(ni as usize);
    assert(q2[q2.len() - 1] == ni as usize);
    assert(ni as usize as int == ni);
    assert(start <= ni) by {
        if ni <= start {
            assert(c[ni] != usize::MAX);
        }
    }
    assert forall|i: int| 0 <= i < n implies ((#[trigger] c2[i] == rid) <==> q2.contains(i as usize)) by {
        if i == ni {
            assert(q2[q2.len() - 1] == ni as usize);
        } else {
            assert(c2[i] == c[i]);
            if q.contains(i as usize) {
                let w = choose|w: int| 0 <= w < q.len() && q[w] == i as usize;
                assert(q2[w] == i as usize);
            }
            if q2.contains(i as usize) {
                let w = choose|w: int| 0 <= w < q2.len() && q2[w] == i as usize;
                assert(i as usize as int == i);
                assert(w < q.len());
                assert(q[w] == i as usize);
            }
        }
    }
    assert forall|t1: int, t2: int|
        0 <= t1 < q2.len() && 0 <= t2 < q2.len() && #[trigger] q2[t1] == #[trigger] q2[t2] implies t1 == t2 by {
        if t1 == q2.len() - 1 && t2 < q.len() {
            assert(q[t2] == q2[t2]);
            assert(q.contains(ni as usize));
        } else if t2 == q2.len() - 1 && t1 < q.len() {
            assert(q[t1] == q2[t1]);
            assert(q.contains(ni as usize));
        } else if t1 < q.len() && t2 < q.len() {
            assert(q[t1] == q2[t1]);
            assert(q[t2] == q2[t2]);
        }
    }
    assert forall|t: int| 0 < t < q2.len() implies exists|u: int|
        0 <= u < t && linked(g, #[trigger] q2[t] as int, q2[u] as int) by {
        if t == q2.len() - 1 {
            assert(q2[head] == q[head]);
            assert(linked(g, q2[t] as int, q2[head] as int));
        } else {
            assert(q2[t] == q[t]);
            let u = choose|u: int| 0 <= u < t && linked(g, q[t] as int, q[u] as int);
            assert(q2[u] == q[u]);
        }
    }
    assert forall|t: int| 0 <= t < q2.len() implies start <= #[trigger] q2[t] < g.len() by {
        if t < q.len() {
            assert(q2[t] == q[t]);
        }
    }
    assert forall|t: int, k: int|
        0 <= t < head && 0 <= k < n && #[trigger] linked(g, q2[t] as int, k) implies c2[k] == rid by {
        assert(q2[t] == q[t]);
        assert(c[k] == rid);
    }
    assert forall|i: int, j: int|
        0 <= i < n && 0 <= j < ms.len() implies ((#[trigger] c2[i] == j) <==> (#[trigger] ms[j]).contains(i)) by {
        if i != ni {
            assert(c2[i] == c[i]);
        } else {
            assert(c[i] == usize::MAX);
        }
    }
    assert forall|p: int, k: int|
        0 <= p < n && 0 <= k < n && c2[p] != usize::MAX && c2[p] < rid && #[trigger] linked(g, p, k)
            implies c2[k] == c2[p] by {
        assert(p != ni);
        assert(c2[p] == c[p]);
        assert(c[k] == c[p]);
        if k == ni {
            assert(c[k] == usize::MAX);
        }
    }
    assert forall|i: int| 0 <= i < n && #[trigger] c2[i] != usize::MAX implies c2[i] <= rid by {
        if i != ni {
            assert(c2[i] == c[i]);
        }
    }
    assert forall|k: int| 0 <= k <= start implies #[trigger] c2[k] != usize::MAX by {
        if k != ni {
            assert(c2[k] == c[k]);
        }
    }
}

/// Appending a finished queue as a new list keeps every list chained.
proof fn lemma_chained_push(
    g: Seq<Seq<usize>>,
    ms: Seq<Seq<int>>,
    q: Seq<usize>,
    c: Seq<usize>,
    rid: usize,
    start: usize,
)
    requires
        chained(g, ms),
        queue_ok(g, c, q, rid, start),
    ensures
        chained(g, ms.push(as_ints(q))),
{
    reveal(chained);
    reveal(queue_ok);
    let members = as_ints(q);
    let ms2 = ms.push(members);
    assert forall|j: int, t: int|
        0 <= j < ms2.len() && 0 < t < ms2[j].len() implies #[trigger] joins_earlier(g, ms2[j], t) by {
        if j == ms.len() {
            assert(ms2[j] == members);
            assert(members[t] == q[t] as int);
            let u = choose|u: int| 0 <= u < t && linked(g, q[t] as int, q[u] as int);
            assert(members[u] == q[u] as int);
        } else {
            assert(ms2[j] == ms[j]);
            assert(joins_earlier(g, ms[j], t));
        }
    }
    assert(chained(g, ms2));
    assert(ms2 == ms.push(as_ints(q)));
}


/// Puts every neighbour of the queue member at `head` that has no component
/// yet into component `rid`, at the end of the queue.
fn visit_neighbours(
    g: &Vec<Vec<usize>>,
    Ghost(gv): Ghost<Seq<Seq<usize>>>,
    comp: &mut Vec<usize>,
    queue: &mut Vec<usize>,
    head: usize,
    rid: usize,
    Ghost(start): Ghost<usize>,
    Ghost(ms): Ghost<Seq<Seq<int>>>,
)
    requires
        gv == graph_view(g@),
        symmetric(gv),
        in_range(gv),
        head < old(queue)@.len(),
        rid < usize::MAX,
        bounded(old(comp)@, gv.len() as int, rid, start),
        listed(old(comp)@, ms, gv.len() as int, rid),
        closed_below(gv, old(comp)@, rid),
        queue_ok(gv, old(comp)@, old(queue)@, rid, start),
        processed(gv, old(comp)@, old(queue)@, head as int, rid),
    ensures
        bounded(final(comp)@, gv.len() as int, rid, start),
        listed(final(comp)@, ms, gv.len() as int, rid),
        closed_below(gv, final(comp)@, rid),
        queue_ok(gv, final(comp)@, final(queue)@, rid, start),
        processed(gv, final(comp)@, final(queue)@, head + 1, rid),
        final(queue)@.len() >= old(queue)@.len(),
        forall|k: int| 0 <= k < old(queue)@.len() ==> #[trigger] final(queue)@[k] == old(queue)@[k],
        count_none(final(comp)@) + final(queue)@.len() == count_none(old(comp)@) + old(queue)@.len(),
        (seen_of(final(comp)@), as_ints(final(queue)@)) == visit_all(
            gv[old(queue)@[head as int] as int],
            seen_of(old(comp)@),
            as_ints(old(queue)@),
        ),
{
    proof {
        lemma_queue_member(gv, comp@, queue@, head as int, rid, start);
        reveal(bounded);
    }
    let ei = queue[head];
    let nb = &g[ei];
    assert(gv[ei as int] == nb@);
    assert(gv.len() == g.len());
    let ghost c0 = comp@;
    let ghost q0 = queue@;
    let mut k: usize = 0;
    while k < nb.len()
        invariant
            gv == graph_view(g@),
            symmetric(gv),
            in_range(gv),
            gv[ei as int] == nb@,
            gv.len() <= usize::MAX,
            ei < gv.len(),
            head < queue@.len(),
            queue@[head as int] == ei,
            rid < usize::MAX,
            comp@.len() == gv.len(),
            k <= nb@.len(),
            bounded(comp@, gv.len() as int, rid, start),
            listed(comp@, ms, gv.len() as int, rid),
            closed_below(gv, comp@, rid),
            queue_ok(gv, comp@, queue@, rid, start),
            processed(gv, comp@, queue@, head as int, rid),
            queue@.len() >= q0.len(),
            forall|j: int| 0 <= j < q0.len() ==> #[trigger] queue@[j] == q0[j],
            count_none(comp@) + queue@.len() == count_none(c0) + q0.len(),
            forall|j: int| 0 <= j < k ==> comp@[#[trigger] nb@[j] as int] == rid,
            (seen_of(comp@), as_ints(queue@)) == visit_all(nb@.take(k as int), seen_of(c0), as_ints(q0)),
        decreases nb@.len() - k,
    {
        let ni = nb[k];
        let ghost sk = seen_of(comp@);
        let ghost qk = as_ints(queue@);
        assert(nb@.take(k + 1).drop_last() =~= nb@.take(k as int));
        assert(nb@.take(k + 1).last() == ni);
        assert(ni < gv.len()) by {
            assert(gv[ei as int][k as int] == ni);
        }
        assert(linked(gv, ei as int, ni as int)) by {
            assert(gv[ei as int][k as int] as int == ni as int);
        }
        assert(linked(gv, ni as int, ei as int));
        if comp[ni] == usize::MAX {
            let ghost c1 = comp@;
            let ghost q1 = queue@;
            proof {
                lemma_admit(gv, c1, q1, head as int, ni as int, rid, start, ms);
                lemma_count_none_update(c1, ni as int, rid);
            }
            comp.set(ni, rid);
            queue.push(ni);
            assert(comp@ == c1.update(ni as int, rid));
            assert(queue@ == q1.push(ni));
            assert(seen_of(comp@) =~= sk.update(ni as int, true));
            assert(as_ints(queue@) =~= qk.push(ni as int));
            proof {
                reveal(bounded);
            }
        } else {
            proof {
                lemma_holder_in_region(gv, comp@, queue@, head as int, ni as int, rid, start);
            }
        }
        assert forall|j: int| 0 <= j < k + 1 implies comp@[#[trigger] nb@[j] as int] == rid by {
            if j == k {
                assert(nb@[j] == ni);
            }
        }
        k = k + 1;
    }
    assert(nb@.take(k as int) =~= nb@);
    proof {
        reveal(processed);
    }
    assert forall|t: int, q: int|
        0 <= t < head + 1 && 0 <= q < gv.len() && #[trigger] linked(gv, queue@[t] as int, q)
            implies comp@[q] == rid by {
        if t == head {
            let j = choose|j: int| 0 <= j < gv[ei as int].len() && gv[ei as int][j] as int == q;
            assert(comp@[nb@[j] as int] == rid);
        }
    }
}

/// The connected components of the graph `g`, each as the list of its
/// nodes in the order a breadth-first search from its smallest node meets
/// them, the components in the order of their smallest nodes. The graph's
/// neighbour lists name nodes of the graph, and each node is a neighbour of
/// its neighbours.
pub fn connected_components(g: &Vec<Vec<usize>>) -> (r: Vec<Vec<usize>>)
    requires
        symmetric(graph_view(g@)),
        in_range(graph_view(g@)),
    ensures
        components_of(graph_view(g@), lists_as_ints(r@)),
        lists_as_ints(r@) == bfs_components(graph_view(g@)),
{
    let ghost gv = graph_view(g@);
    let n = g.len();
    let mut comp: Vec<usize> = Vec::new();
    let mut i: usize = 0;
    while i < n
        invariant
            i <= n,
            comp@.len() == i,
            forall|q: int| 0 <= q < i ==> comp@[q] == usize::MAX,
        decreases n - i,
    {
        comp.push(usize::MAX);
        i = i + 1;
    }
    let mut comps: Vec<Vec<usize>> = Vec::new();
    let ghost mut ms: Seq<Seq<int>> = seq![];
    proof {
        reveal(listed);
        reveal(closed_below);
        reveal(chained);
    }
    assert(lists_as_ints(comps@) =~= ms);
    assert(seen_of(comp@) =~= Seq::new(gv.len(), |i: int| false));
    assert(lists_as_ints(comps@) + components_from(gv, seen_of(comp@), 0) =~= bfs_components(gv));
    let mut start: usize = 0;
    while start < n
        invariant
            lists_as_ints(comps@) + components_from(gv, seen_of(comp@), start as int) == bfs_components(gv),
            gv == graph_view(g@),
            symmetric(gv),
            in_range(gv),
            n == gv.len(),
            start <= n,
            comp@.len() == n,
            ms.len() == comps@.len(),
            ms.len() <= start,
            forall|i: int| 0 <= i < n && #[trigger] comp@[i] != usize::MAX ==> comp@[i] < ms.len(),
            forall|q: int| 0 <= q < start ==> #[trigger] comp@[q] != usize::MAX,
            listed(comp@, ms, n as int, comps.len()),
            closed_below(gv, comp@, comps.len()),
            lists_as_ints(comps@) == ms,
            forall|j: int, t: int|
                0 <= j < ms.len() && 0 <= t < ms[j].len() ==> 0 <= #[trigger] ms[j][t] < n,
            forall|j: int, t1: int, t2: int|
                0 <= j < ms.len() && 0 <= t1 < ms[j].len() && 0 <= t2 < ms[j].len() && #[trigger] ms[j][t1]
                    == #[trigger] ms[j][t2] ==> t1 == t2,
            chained(gv, ms),
            forall|j: int| 0 <= j < ms.len() ==> (#[trigger] ms[j]).len() > 0,
            forall|j: int, t: int|
                0 <= j < ms.len() && 0 <= t < ms[j].len() ==> ms[j][0] <= #[trigger] ms[j][t],
            forall|j1: int, j2: int| 0 <= j1 < j2 < ms.len() ==> #[trigger] ms[j1][0] < #[trigger] ms[j2][0],
            forall|j: int| 0 <= j < ms.len() ==> (#[trigger] ms[j])[0] < start,
        decreases n - start,
    {
        proof {
            reveal(bounded);
            reveal(listed);
            reveal(closed_below);
            reveal(queue_ok);
            reveal(processed);
        }
        if comp[start] != usize::MAX {
            assert(components_from(gv, seen_of(comp@), start as int) == components_from(
                gv,
                seen_of(comp@),
                start + 1,
            ));
            start = start + 1;
            continue;
        }
        let rid = comps.len();
        let ghost c_before = comp@;
        let ghost s0 = seen_of(c_before);
        let mut queue: Vec<usize> = Vec::new();
        queue.push(start);
        comp.set(start, rid);
        assert(queue@[0] == start);
        assert forall|i: int| 0 <= i < n implies ((#[trigger] comp@[i] == rid) <==> queue@.contains(i as usize)) by {
            if i == start {
                assert(queue@[0] == start);
            } else {
                assert(comp@[i] == c_before[i]);
                if c_before[i] != usize::MAX {
                    assert(c_before[i] < rid);
                }
                if queue@.contains(i as usize) {
                    let w = choose|w: int| 0 <= w < queue@.len() && queue@[w] == i as usize;
                    assert(w == 0);
                }
            }
        }
        assert forall|i: int| 0 <= i < n && #[trigger] comp@[i] != usize::MAX implies comp@[i] <= rid by {
            if i != start {
                assert(comp@[i] == c_before[i]);
                assert(c_before[i] < rid);
            }
        }
        assert forall|q: int| 0 <= q <= start implies #[trigger] comp@[q] != usize::MAX by {
            if q < start {
                assert(comp@[q] == c_before[q]);
                assert(c_before[q] != usize::MAX);
            }
        }
        assert forall|i: int, j: int|
            0 <= i < n && 0 <= j < ms.len() implies ((#[trigger] comp@[i] == j) <==> (#[trigger] ms[j]).contains(i)) by {
            if i != start {
                assert(comp@[i] == c_before[i]);
            } else {
                assert(c_before[i] == usize::MAX);
                assert(!(c_before[i] == j));
            }
        }
        assert forall|p: int, q: int|
            0 <= p < gv.len() && 0 <= q < gv.len() && comp@[p] != usize::MAX && comp@[p] < rid
                && #[trigger] linked(gv, p, q) implies comp@[q] == comp@[p] by {
            assert(p != start);
            assert(comp@[p] == c_before[p]);
            assert(c_before[q] == c_before[p]);
            if q == start {
                assert(c_before[q] == usize::MAX);
            }
        }
        assert(seen_of(comp@) =~= s0.update(start as int, true));
        assert(as_ints(queue@) =~= seq![start as int]);
        let ghost search = bfs_queue(gv, s0.update(start as int, true), seq![start as int], 0);
        let mut head: usize = 0;
        while head < queue.len()
            invariant
                search == bfs_queue(gv, seen_of(comp@), as_ints(queue@), head as int),
                gv == graph_view(g@),
                symmetric(gv),
                in_range(gv),
                n == gv.len(),
                rid == comps@.len(),
                rid == ms.len(),
                rid < usize::MAX,
                bounded(comp@, n as int, rid, start),
                listed(comp@, ms, n as int, rid),
                closed_below(gv, comp@, rid),
                queue_ok(gv, comp@, queue@, rid, start),
                processed(gv, comp@, queue@, head as int, rid),
                head <= queue@.len(),
            decreases count_none(comp@) + queue@.len() - head,
        {
            proof {
                lemma_queue_member(gv, comp@, queue@, head as int, rid, start);
            }
            assert(as_ints(queue@)[head as int] == queue@[head as int] as int);
            visit_neighbours(g, Ghost(gv), &mut comp, &mut queue, head, rid, Ghost(start), Ghost(ms));
            head = head + 1;
        }
        assert(search == (seen_of(comp@), as_ints(queue@)));
        let ghost members = as_ints(queue@);
        let ghost old_comps = comps@;
        let ghost qv = queue@;
        let ghost rest = components_from(gv, seen_of(comp@), start + 1);
        assert(components_from(gv, s0, start as int) == seq![members] + rest);
        comps.push(queue);
        assert(lists_as_ints(comps@) =~= lists_as_ints(old_comps).push(members)) by {
            assert(comps@[rid as int]@ == qv);
        }
        assert(lists_as_ints(comps@) + rest =~= lists_as_ints(old_comps) + (seq![members] + rest));
        proof {
            let old_ms = ms;
            lemma_chained_push(gv, old_ms, qv, comp@, rid, start);
            ms = ms.push(members);
            assert(comps@[rid as int]@ == qv);
            assert(lists_as_ints(comps@) =~= ms) by {
                assert forall|j: int| 0 <= j < ms.len() implies #[trigger] lists_as_ints(comps@)[j] == ms[j] by {
                    if j < rid {
                        assert(comps@[j] == old_comps[j]);
                    }
                }
            }
            assert(ms[rid as int] == members);
            assert forall|j: int| 0 <= j < old_ms.len() implies #[trigger] ms[j] == old_ms[j] by {}
            assert forall|i: int, j: int|
                0 <= i < n && 0 <= j < ms.len() implies ((#[trigger] comp@[i] == j) <==> (#[trigger] ms[j]).contains(i)) by {
                if j == rid {
                    if comp@[i] == rid {
                        assert(qv.contains(i as usize));
                        let w = choose|w: int| 0 <= w < qv.len() && qv[w] == i as usize;
                        assert(members[w] == i);
                    }
                    if members.contains(i) {
                        let w = choose|w: int| 0 <= w < members.len() && members[w] == i;
                        assert(qv[w] as int == i);
                        assert(qv.contains(i as usize));
                    }
                }
            }
            assert forall|p: int, q: int|
                0 <= p < gv.len() && 0 <= q < gv.len() && comp@[p] != usize::MAX && comp@[p] < rid + 1
                    && #[trigger] linked(gv, p, q) implies comp@[q] == comp@[p] by {
                if comp@[p] == rid {
                    assert(qv.contains(p as usize));
                    let w = choose|w: int| 0 <= w < qv.len() && qv[w] == p as usize;
                    assert(linked(gv, qv[w] as int, q));
                }
            }
            assert forall|j: int, t1: int, t2: int|
                0 <= j < ms.len() && 0 <= t1 < ms[j].len() && 0 <= t2 < ms[j].len() && #[trigger] ms[j][t1]
                    == #[trigger] ms[j][t2] implies t1 == t2 by {
                if j == rid {
                    assert(qv[t1] == qv[t2]);
                }
            }
        }
        start = start + 1;
    }
    proof {
        reveal(listed);
        reveal(closed_below);
        reveal(chained);
        assert forall|j: int, t: int, q: int|
            0 <= j < ms.len() && 0 <= t < ms[j].len() && 0 <= q < gv.len() && #[trigger] linked(
                gv,
                ms[j][t],
                q,
            ) implies ms[j].contains(q) by {
            let i = ms[j][t];
            assert(ms[j].contains(i));
            assert(comp@[i] == j);
        }
        assert forall|i: int| 0 <= i < gv.len() implies #[trigger] in_a_component(ms, i) by {
            assert(comp@[i] != usize::MAX);
            let j = comp@[i] as int;
            assert(ms[j].contains(i));
        }
        assert forall|j1: int, t1: int, j2: int, t2: int|
            0 <= j1 < ms.len() && 0 <= j2 < ms.len() && 0 <= t1 < ms[j1].len() && 0 <= t2 < ms[j2].len()
                && #[trigger] ms[j1][t1] == #[trigger] ms[j2][t2] implies j1 == j2 && t1 == t2 by {
            let i = ms[j1][t1];
            assert(ms[j1].contains(i));
            assert(ms[j2].contains(i));
            assert(comp@[i] == j1);
            assert(comp@[i] == j2);
        }
        assert(components_of(gv, ms));
    }
    comps
}

} // verus!
