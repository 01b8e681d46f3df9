//! Appending one mesh to another under fresh node and element IDs.
use vstd::prelude::*;

use crate::element::{Element, ElementView};
use crate::mesh::{
    elements_view, lemma_distinct_pairs_map_len, lemma_pairs_to_map, node_pairs, pairs_to_map,
    Mesh, Node, PointView,
};

verus! {

/// The number of node IDs of `nodes` below `k`.
pub open spec fn rank(nodes: Map<u64, PointView>, k: u64) -> nat {
    nodes.dom().filter(|j: u64| j < k).len()
}

/// The largest node ID of `nodes`, 0 for none.
pub open spec fn max_node_id(nodes: Map<u64, PointView>) -> u64 {
    if exists|k: u64| nodes.contains_key(k) {
        choose|k: u64| nodes.contains_key(k) && forall|j: u64| nodes.contains_key(j) ==> j <= k
    } else {
        0
    }
}

/// The largest element ID of `es`, 0 for none.
pub open spec fn max_element_id(es: Seq<ElementView>) -> u64
    decreases es.len(),
{
    if es.len() == 0 {
        0
    } else {
        let r = max_element_id(es.drop_last());
        if es.last().id > r {
            es.last().id
        } else {
            r
        }
    }
}

/// The new ID of node `k` of `nodes`, when the nodes are numbered from
/// `first` on in increasing ID order.
pub open spec fn renumbered(nodes: Map<u64, PointView>, first: int, k: u64) -> u64 {
    (first + rank(nodes, k)) as u64
}

/// Every node ID of `ids` is a node of `nodes`.
pub open spec fn all_present(ids: Seq<u64>, nodes: Map<u64, PointView>) -> bool {
    forall|t: int| 0 <= t < ids.len() ==> nodes.contains_key(#[trigger] ids[t])
}

/// The node IDs `ids` under the numbering from `first` on.
pub open spec fn renumber(ids: Seq<u64>, nodes: Map<u64, PointView>, first: int) -> Seq<u64> {
    ids.map_values(|n: u64| renumbered(nodes, first, n))
}

/// The elements `es`, whose nodes are `nodes`, as they are appended: an
/// element with a node missing from `nodes` is left out; the others get the
/// IDs from `first_element` on, in order, keep their type and physical tag,
/// and have their nodes renumbered from `first_node` on.
pub open spec fn merged_elements(
    es: Seq<ElementView>,
    nodes: Map<u64, PointView>,
    first_node: int,
    first_element: int,
) -> Seq<ElementView>
    decreases es.len(),
{
    if es.len() == 0 {
        seq![]
    } else {
        let r = merged_elements(es.drop_last(), nodes, first_node, first_element);
        let e = es.last();
        if all_present(e.node_ids, nodes) {
            r.push(
                ElementView {
                    id: (first_element + r.len()) as u64,
                    etype: e.etype,
                    physical_tag: e.physical_tag,
                    node_ids: renumber(e.node_ids, nodes, first_node),
                },
            )
        } else {
            r
        }
    }
}

/// Nodes in strictly increasing ID order.
pub open spec fn ids_increasing(s: Seq<Node>) -> bool {
    forall|i: int, j: int| 0 <= i < j < s.len() ==> s[i].id < s[j].id
}

/// In a list of nodes in increasing ID order, the node at position `i` has
/// `i` node IDs below it.
pub(crate) proof fn lemma_rank_of_sorted(s: Seq<Node>, i: int)
    requires
        ids_increasing(s),
        0 <= i < s.len(),
    ensures
        rank(pairs_to_map(node_pairs(s)), s[i].id) == i,
{
    let pairs = node_pairs(s);
    lemma_pairs_to_map(pairs);
    let ids = s.map_values(|n: Node| n.id);
    let below = ids.take(i);
    let f = pairs_to_map(pairs).dom().filter(|j: u64| j < s[i].id);
    assert forall|k: u64| f.contains(k) <==> below.to_set().contains(k) by {
        if f.contains(k) {
            let t = choose|t: int| 0 <= t < pairs.len() && pairs[t].0 == k;
            if t >= i {
                if t > i {
                    assert(s[i].id < s[t].id);
                }
            }
            assert(below[t] == k);
        }
        if below.to_set().contains(k) {
            let t = choose|t: int| 0 <= t < below.len() && below[t] == k;
            assert(pairs[t].0 == k);
            assert(s[t].id < s[i].id);
        }
    }
    assert(f =~= below.to_set());
    assert(below.no_duplicates()) by {
        assert forall|a: int, b: int| 0 <= a < below.len() && 0 <= b < below.len() && a != b implies below[a]
            != below[b] by {
            if a < b {
                assert(s[a].id < s[b].id);
            } else {
                assert(s[b].id < s[a].id);
            }
        }
    }
    below.unique_seq_to_set();
}

/// In a list of nodes in increasing ID order, the last ID is the largest.
proof fn lemma_max_of_sorted(s: Seq<Node>)
    requires
        ids_increasing(s),
    ensures
        s.len() == 0 ==> max_node_id(pairs_to_map(node_pairs(s))) == 0,
        s.len() > 0 ==> max_node_id(pairs_to_map(node_pairs(s))) == s.last().id,
        forall|k: u64| #[trigger]
            pairs_to_map(node_pairs(s)).contains_key(k) ==> k <= max_node_id(
                pairs_to_map(node_pairs(s)),
            ),
{
    let pairs = node_pairs(s);
    let m = pairs_to_map(pairs);
    lemma_pairs_to_map(pairs);
    if s.len() == 0 {
        assert(!exists|k: u64| m.contains_key(k));
    } else {
        let last = s.last().id;
        assert(pairs[s.len() - 1].0 == last);
        assert(m.contains_key(last));
        assert forall|j: u64| m.contains_key(j) implies j <= last by {
            let t = choose|t: int| 0 <= t < pairs.len() && pairs[t].0 == j;
            if t < s.len() - 1 {
                assert(s[t].id < s[s.len() - 1].id);
            }
        }
        let c = choose|k: u64| m.contains_key(k) && forall|j: u64| m.contains_key(j) ==> j <= k;
        assert(m.contains_key(c) && forall|j: u64| m.contains_key(j) ==> j <= c);
        assert(c <= last && last <= c);
    }
}

/// Dropping the elements after the first `j` can only shorten what is
/// appended.
proof fn lemma_merged_prefix_len(
    es: Seq<ElementView>,
    nodes: Map<u64, PointView>,
    first_node: int,
    first_element: int,
    j: int,
)
    requires
        0 <= j <= es.len(),
    ensures
        merged_elements(es.take(j), nodes, first_node, first_element).len() <= merged_elements(
            es,
            nodes,
            first_node,
            first_element,
        ).len(),
    decreases es.len() - j,
{
    if j < es.len() {
        lemma_merged_prefix_len(es, nodes, first_node, first_element, j + 1);
        assert(es.take(j + 1).drop_last() =~= es.take(j));
    } else {
        assert(es.take(j) =~= es);
    }
}

/// The largest element ID of a list of elements, 0 for none.
fn largest_element_id(es: &Vec<Element>) -> (m: u64)
    ensures
        m == max_element_id(elements_view(es@)),
{
    let mut m: u64 = 0;
    let mut i: usize = 0;
    while i < es.len()
        invariant
            i <= es@.len(),
            m == max_element_id(elements_view(es@).take(i as int)),
        decreases es@.len() - i,
    {
        let ghost ev = elements_view(es@);
        assert(ev.take(i + 1).drop_last() =~= ev.take(i as int));
        if es[i].id > m {
            m = es[i].id;
        }
        i = i + 1;
    }
    assert(elements_view(es@).take(i as int) =~= elements_view(es@));
    m
}

/// The node IDs `ids` renumbered from `first` on, in the increasing ID
/// order of the nodes of `mesh`; `None` if one of them is not a node of
/// `mesh`.
fn renumber_nodes(mesh: &Mesh, ids: &Vec<u64>, first: u64) -> (r: Option<Vec<u64>>)
    requires
        mesh.wf(),
        first + mesh@.nodes.len() <= u64::MAX,
    ensures
        match r {
            Some(v) => all_present(ids@, mesh@.nodes) && v@ == renumber(ids@, mesh@.nodes, first as int),
            None => !all_present(ids@, mesh@.nodes),
        },
{
    proof {
        mesh.lemma_wf_distinct();
        lemma_distinct_pairs_map_len(node_pairs(mesh.node_seq()));
    }
    let mut out: Vec<u64> = Vec::new();
    let mut t: usize = 0;
    while t < ids.len()
        invariant
            mesh.wf(),
            first + mesh.node_seq().len() <= u64::MAX,
            t <= ids@.len(),
            all_present(ids@.take(t as int), mesh@.nodes),
            out@ == renumber(ids@.take(t as int), mesh@.nodes, first as int),
        decreases ids@.len() - t,
    {
        let id = ids[t];
        match mesh.node_index(id) {
            Some(p) => {
                proof {
                    lemma_rank_of_sorted(mesh.node_seq(), p as int);
                    lemma_pairs_to_map(node_pairs(mesh.node_seq()));
                    assert(node_pairs(mesh.node_seq())[p as int].0 == id);
                    assert(mesh@.nodes.contains_key(id));
                }
                out.push(first + p as u64);
                assert(ids@.take(t + 1) =~= ids@.take(t as int).push(id));
                assert(all_present(ids@.take(t + 1), mesh@.nodes)) by {
                    assert forall|s: int| 0 <= s < t + 1 implies mesh@.nodes.contains_key(
                        #[trigger] ids@.take(t + 1)[s],
                    ) by {
                        if s < t {
                            assert(ids@.take(t + 1)[s] == ids@.take(t as int)[s]);
                        }
                    }
                }
                t = t + 1;
                assert(out@ =~= renumber(ids@.take(t as int), mesh@.nodes, first as int));
            },
            None => {
                assert(!all_present(ids@, mesh@.nodes)) by {
                    assert(ids@[t as int] == id);
                }
                return None;
            },
        }
    }
    assert(ids@.take(t as int) =~= ids@);
    Some(out)
}

/// Appends the nodes and elements of `incoming` to `base`. The nodes get
/// the IDs after the largest node ID of `base`, in the increasing order of
/// their IDs; the elements get the IDs after the largest element ID of
/// `base`, in order, and keep their type and physical tag. An element with
/// a node that `incoming` lacks is left out.
pub fn merge_meshes(base: &mut Mesh, incoming: &Mesh)
    requires
        old(base).wf(),
        incoming.wf(),
        max_node_id(old(base)@.nodes) + 1 + incoming@.nodes.len() <= u64::MAX,
        max_element_id(old(base)@.elements) + 1 + merged_elements(
            incoming@.elements,
            incoming@.nodes,
            max_node_id(old(base)@.nodes) + 1,
            max_element_id(old(base)@.elements) + 1,
        ).len() <= u64::MAX,
    ensures
        final(base).wf(),
        forall|k: u64| #[trigger]
            old(base)@.nodes.contains_key(k) ==> final(base)@.nodes.contains_key(k)
                && final(base)@.nodes[k] == old(base)@.nodes[k],
        forall|k: u64| #[trigger]
            incoming@.nodes.contains_key(k) ==> final(base)@.nodes.contains_key(
                renumbered(incoming@.nodes, max_node_id(old(base)@.nodes) + 1, k),
            ) && final(base)@.nodes[renumbered(incoming@.nodes, max_node_id(old(base)@.nodes) + 1, k)]
                == incoming@.nodes[k],
        forall|n: u64| #[trigger]
            final(base)@.nodes.contains_key(n) ==> old(base)@.nodes.contains_key(n) || (max_node_id(
                old(base)@.nodes,
            ) < n <= max_node_id(old(base)@.nodes) + incoming@.nodes.len()),
        final(base)@.elements == old(base)@.elements + merged_elements(
            incoming@.elements,
            incoming@.nodes,
            max_node_id(old(base)@.nodes) + 1,
            max_element_id(old(base)@.elements) + 1,
        ),
        final(base)@.physical_names == old(base)@.physical_names,
{
    let ghost old_nodes = base@.nodes;
    let ghost in_nodes = incoming@.nodes;
    proof {
        lemma_max_of_sorted(base.node_seq());
        incoming.lemma_wf_distinct();
        lemma_distinct_pairs_map_len(node_pairs(incoming.node_seq()));
        lemma_pairs_to_map(node_pairs(incoming.node_seq()));
    }
    let first_node: u64 = {
        let ns = base.nodes();
        if ns.len() == 0 {
            1
        } else {
            ns[ns.len() - 1].id + 1
        }
    };
    let first_element: u64 = largest_element_id(base.elements()) + 1;
    let ins = incoming.nodes();
    let count = ins.len();
    let mut i: usize = 0;
    while i < count
        invariant
            base.wf(),
            incoming.wf(),
            ins@ == incoming.node_seq(),
            count == ins@.len(),
            in_nodes == incoming@.nodes,
            old_nodes == old(base)@.nodes,
            first_node as int == max_node_id(old_nodes) + 1,
            first_node + count <= u64::MAX,
            forall|k: u64| #[trigger] old_nodes.contains_key(k) ==> k <= max_node_id(old_nodes),
            i <= count,
            base@.elements == old(base)@.elements,
            base@.physical_names == old(base)@.physical_names,
            forall|k: u64| #[trigger]
                old_nodes.contains_key(k) ==> base@.nodes.contains_key(k) && base@.nodes[k]
                    == old_nodes[k],
            forall|r: int|
                0 <= r < i ==> #[trigger] base@.nodes.contains_key((first_node + r) as u64)
                    && base@.nodes[(first_node + r) as u64] == ins@[r].position@,
            forall|n: u64| #[trigger]
                base@.nodes.contains_key(n) ==> old_nodes.contains_key(n) || (first_node <= n
                    < first_node + i),
        decreases count - i,
    {
        let n = &ins[i];
        let id = first_node + i as u64;
        let ghost before = base@.nodes;
        base.add_node(Node::new(id, n.position.x.clone(), n.position.y.clone(), n.position.z.clone()));
        assert(!old_nodes.contains_key(id));
        assert forall|r: int|
            0 <= r < i + 1 implies #[trigger] base@.nodes.contains_key((first_node + r) as u64)
                && base@.nodes[(first_node + r) as u64] == ins@[r].position@ by {
            if r < i {
                assert((first_node + r) as u64 != id);
                assert(before.contains_key((first_node + r) as u64));
            }
        }
        i = i + 1;
    }
    assert forall|k: u64| #[trigger] in_nodes.contains_key(k) implies base@.nodes.contains_key(
        renumbered(in_nodes, first_node as int, k),
    ) && base@.nodes[renumbered(in_nodes, first_node as int, k)] == in_nodes[k] by {
        let t = choose|t: int| 0 <= t < node_pairs(incoming.node_seq()).len() && node_pairs(incoming.node_seq())[t].0 == k;
        lemma_rank_of_sorted(incoming.node_seq(), t);
        assert(node_pairs(incoming.node_seq())[t] == (k, ins@[t].position@));
        assert(base@.nodes.contains_key((first_node + t) as u64));
    }
    let ghost merged_nodes = base@.nodes;
    let ies = incoming.elements();
    let ghost all = merged_elements(incoming@.elements, in_nodes, first_node as int, first_element as int);
    let mut next: u64 = first_element;
    let mut j: usize = 0;
    while j < ies.len()
        invariant
            base.wf(),
            incoming.wf(),
            first_node + incoming@.nodes.len() <= u64::MAX,
            ies@ == incoming.element_seq(),
            incoming@.elements == elements_view(ies@),
            in_nodes == incoming@.nodes,
            all == merged_elements(incoming@.elements, in_nodes, first_node as int, first_element as int),
            first_element + all.len() <= u64::MAX,
            j <= ies@.len(),
            base@.nodes == merged_nodes,
            base@.physical_names == old(base)@.physical_names,
            base@.elements == old(base)@.elements + merged_elements(
                incoming@.elements.take(j as int),
                in_nodes,
                first_node as int,
                first_element as int,
            ),
            next == first_element + merged_elements(
                incoming@.elements.take(j as int),
                in_nodes,
                first_node as int,
                first_element as int,
            ).len(),
        decreases ies@.len() - j,
    {
        let ghost es = incoming@.elements;
        let ghost before = merged_elements(es.take(j as int), in_nodes, first_node as int, first_element as int);
        assert(es.take(j + 1).drop_last() =~= es.take(j as int));
        assert(es.take(j + 1).last() == ies@[j as int]@);
        proof {
            lemma_merged_prefix_len(es, in_nodes, first_node as int, first_element as int, j + 1);
        }
        let e = &ies[j];
        match renumber_nodes(incoming, &e.node_ids, first_node) {
            Some(new_nodes) => {
                let mut added = Element::new(next, e.etype, new_nodes);
                added.physical_tag = e.physical_tag;
                base.add_element(added);
                next = next + 1;
                assert(base@.elements =~= old(base)@.elements + merged_elements(
                    es.take(j + 1),
                    in_nodes,
                    first_node as int,
                    first_element as int,
                ));
            },
            None => {},
        }
        j = j + 1;
    }
    assert(incoming@.elements.take(j as int) =~= incoming@.elements);
}

} // verus!
