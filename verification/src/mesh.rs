//! Meshes: nodes, elements and physical group names.
//!
//! A node's coordinates are kept as their decimal text, exactly as a mesh
//! file holds them; converting them to numbers is left to the caller.
use vstd::prelude::*;

use crate::element::{spec_dimension, Element, ElementView};

verus! {

// ─── Maps built from key/value sequences ─────────────────────────────────────

/// The map that inserting the pairs of `s` in order into an empty map gives.
pub open spec fn pairs_to_map<K, V>(s: Seq<(K, V)>) -> Map<K, V>
    decreases s.len(),
{
    if s.len() == 0 {
        Map::empty()
    } else {
        pairs_to_map(s.drop_last()).insert(s.last().0, s.last().1)
    }
}

/// No two pairs of `s` have the same key.
pub open spec fn distinct_keys<K, V>(s: Seq<(K, V)>) -> bool {
    forall|i: int, j: int| 0 <= i < s.len() && 0 <= j < s.len() && i != j ==> s[i].0 != s[j].0
}

/// The keys of `pairs_to_map(s)` are the keys of `s`; with distinct keys,
/// each key maps to the value paired with it.
pub proof fn lemma_pairs_to_map<K, V>(s: Seq<(K, V)>)
    ensures
        forall|k: K|
            #[trigger] pairs_to_map(s).dom().contains(k) <==> exists|i: int|
                0 <= i < s.len() && s[i].0 == k,
        distinct_keys(s) ==> forall|i: int|
            0 <= i < s.len() ==> #[trigger] pairs_to_map(s)[s[i].0] == s[i].1,
        pairs_to_map(s).dom().finite(),
    decreases s.len(),
{
    if s.len() > 0 {
        let t = s.drop_last();
        lemma_pairs_to_map(t);
        assert forall|k: K| #[trigger] pairs_to_map(s).dom().contains(k) <==> exists|i: int|
            0 <= i < s.len() && s[i].0 == k by {
            if pairs_to_map(s).dom().contains(k) {
                if k == s.last().0 {
                    assert(s[s.len() - 1].0 == k);
                } else {
                    let i = choose|i: int| 0 <= i < t.len() && t[i].0 == k;
                    assert(s[i].0 == k);
                }
            }
            if exists|i: int| 0 <= i < s.len() && s[i].0 == k {
                let i = choose|i: int| 0 <= i < s.len() && s[i].0 == k;
                if i < s.len() - 1 {
                    assert(t[i].0 == k);
                }
            }
        }
        if distinct_keys(s) {
            assert(distinct_keys(t)) by {
                assert forall|i: int, j: int|
                    0 <= i < t.len() && 0 <= j < t.len() && i != j implies t[i].0 != t[j].0 by {
                    assert(t[i] == s[i] && t[j] == s[j]);
                }
            }
            assert forall|i: int| 0 <= i < s.len() implies #[trigger] pairs_to_map(s)[s[i].0]
                == s[i].1 by {
                if i < s.len() - 1 {
                    assert(t[i] == s[i]);
                    assert(s[i].0 != s[s.len() - 1].0);
                }
            }
        }
    }
}

/// Inserting a pair with a new key into a sequence of pairs with distinct
/// keys inserts it into the map.
pub proof fn lemma_pairs_to_map_insert<K, V>(s: Seq<(K, V)>, p: int, k: K, v: V)
    requires
        distinct_keys(s),
        0 <= p <= s.len(),
        forall|i: int| 0 <= i < s.len() ==> s[i].0 != k,
    ensures
        distinct_keys(s.insert(p, (k, v))),
        pairs_to_map(s.insert(p, (k, v))) == pairs_to_map(s).insert(k, v),
{
    let t = s.insert(p, (k, v));
    assert forall|i: int, j: int|
        0 <= i < t.len() && 0 <= j < t.len() && i != j implies t[i].0 != t[j].0 by {
        if i < p && j < p {
            assert(t[i] == s[i] && t[j] == s[j]);
        } else if i < p && j > p {
            assert(t[i] == s[i] && t[j] == s[j - 1]);
        } else if i > p && j < p {
            assert(t[i] == s[i - 1] && t[j] == s[j]);
        } else if i > p && j > p {
            assert(t[i] == s[i - 1] && t[j] == s[j - 1]);
        } else if i == p {
            if j < p {
                assert(t[j] == s[j]);
            } else {
                assert(t[j] == s[j - 1]);
            }
        } else {
            if i < p {
                assert(t[i] == s[i]);
            } else {
                assert(t[i] == s[i - 1]);
            }
        }
    }
    lemma_pairs_to_map(s);
    lemma_pairs_to_map(t);
    assert forall|key: K| #[trigger] pairs_to_map(t).dom().contains(key) <==> pairs_to_map(
        s,
    ).insert(k, v).dom().contains(key) by {
        if pairs_to_map(t).dom().contains(key) {
            let i = choose|i: int| 0 <= i < t.len() && t[i].0 == key;
            if i < p {
                assert(s[i].0 == key);
            } else if i > p {
                assert(s[i - 1].0 == key);
            }
        }
        if pairs_to_map(s).dom().contains(key) {
            let i = choose|i: int| 0 <= i < s.len() && s[i].0 == key;
            if i < p {
                assert(t[i].0 == key);
            } else {
                assert(t[i + 1].0 == key);
            }
        }
        if key == k {
            assert(t[p].0 == key);
        }
    }
    assert forall|key: K| #[trigger] pairs_to_map(t).dom().contains(key) implies pairs_to_map(
        t,
    )[key] == pairs_to_map(s).insert(k, v)[key] by {
        let i = choose|i: int| 0 <= i < t.len() && t[i].0 == key;
        assert(pairs_to_map(t)[t[i].0] == t[i].1);
        if i < p {
            assert(t[i] == s[i]);
            assert(pairs_to_map(s)[s[i].0] == s[i].1);
        } else if i > p {
            assert(t[i] == s[i - 1]);
            assert(pairs_to_map(s)[s[i - 1].0] == s[i - 1].1);
        }
    }
    assert(pairs_to_map(t) =~= pairs_to_map(s).insert(k, v));
}

/// Replacing the value of a pair in a sequence of pairs with distinct keys
/// updates the map.
pub proof fn lemma_pairs_to_map_update<K, V>(s: Seq<(K, V)>, p: int, v: V)
    requires
        distinct_keys(s),
        0 <= p < s.len(),
    ensures
        distinct_keys(s.update(p, (s[p].0, v))),
        pairs_to_map(s.update(p, (s[p].0, v))) == pairs_to_map(s).insert(s[p].0, v),
{
    let k = s[p].0;
    let t = s.update(p, (k, v));
    assert forall|i: int, j: int|
        0 <= i < t.len() && 0 <= j < t.len() && i != j implies t[i].0 != t[j].0 by {
        assert(t[i].0 == s[i].0 && t[j].0 == s[j].0);
    }
    lemma_pairs_to_map(s);
    lemma_pairs_to_map(t);
    assert forall|key: K| #[trigger] pairs_to_map(t).dom().contains(key) <==> pairs_to_map(
        s,
    ).insert(k, v).dom().contains(key) by {
        if pairs_to_map(t).dom().contains(key) {
            let i = choose|i: int| 0 <= i < t.len() && t[i].0 == key;
            assert(s[i].0 == key);
        }
        if pairs_to_map(s).dom().contains(key) {
            let i = choose|i: int| 0 <= i < s.len() && s[i].0 == key;
            assert(t[i].0 == key);
        }
        if key == k {
            assert(t[p].0 == key);
        }
    }
    assert forall|key: K| #[trigger] pairs_to_map(t).dom().contains(key) implies pairs_to_map(
        t,
    )[key] == pairs_to_map(s).insert(k, v)[key] by {
        let i = choose|i: int| 0 <= i < t.len() && t[i].0 == key;
        assert(pairs_to_map(t)[t[i].0] == t[i].1);
        if i != p {
            assert(t[i] == s[i]);
            assert(pairs_to_map(s)[s[i].0] == s[i].1);
        }
    }
    assert(pairs_to_map(t) =~= pairs_to_map(s).insert(k, v));
}

// ─── Nodes ───────────────────────────────────────────────────────────────────

/// The three coordinates of a point, each as its decimal text.
#[derive(Debug)]
pub struct Point3 {
    pub x: String,
    pub y: String,
    pub z: String,
}

/// The text of a point's three coordinates.
pub type PointView = (Seq<char>, Seq<char>, Seq<char>);

impl View for Point3 {
    type V = PointView;

    open spec fn view(&self) -> PointView {
        (self.x@, self.y@, self.z@)
    }
}

/// A mesh node with a unique ID and 3D coordinates.
#[derive(Debug)]
pub struct Node {
    pub id: u64,
    pub position: Point3,
}

impl Node {
    pub fn new(id: u64, x: String, y: String, z: String) -> (n: Self)
        ensures
            n.id == id,
            n.position@ == (x@, y@, z@),
    {
        Node { id, position: Point3 { x, y, z } }
    }
}

/// A physical group name, for the group `tag` of dimension `dim`.
#[derive(Debug)]
pub struct PhysicalName {
    pub dim: i32,
    pub tag: i32,
    pub name: String,
}

/// The (id, coordinates) pairs of a sequence of nodes.
pub open spec fn node_pairs(s: Seq<Node>) -> Seq<(u64, PointView)> {
    s.map_values(|n: Node| (n.id, n.position@))
}

/// The ((dim, tag), name) pairs of a sequence of physical names.
pub open spec fn name_pairs(s: Seq<PhysicalName>) -> Seq<((i32, i32), Seq<char>)> {
    s.map_values(|p: PhysicalName| ((p.dim, p.tag), p.name@))
}

/// The order of physical group keys: by dimension, then by tag.
pub open spec fn key_lt(a: (i32, i32), b: (i32, i32)) -> bool {
    a.0 < b.0 || (a.0 == b.0 && a.1 < b.1)
}

/// The elements of `s` of dimension `d`, in order.
pub open spec fn elements_of_dim(s: Seq<ElementView>, d: u8) -> Seq<ElementView>
    decreases s.len(),
{
    if s.len() == 0 {
        seq![]
    } else {
        let r = elements_of_dim(s.drop_last(), d);
        if spec_dimension(s.last().etype) == d {
            r.push(s.last())
        } else {
            r
        }
    }
}

/// The elements of dimension `d` taken from `s` are elements of `s` of that
/// dimension.
pub proof fn lemma_elements_of_dim(s: Seq<ElementView>, d: u8)
    ensures
        forall|i: int|
            0 <= i < elements_of_dim(s, d).len() ==> s.contains(#[trigger] elements_of_dim(s, d)[i]) && spec_dimension(
                elements_of_dim(s, d)[i].etype,
            ) == d,
    decreases s.len(),
{
    if s.len() > 0 {
        lemma_elements_of_dim(s.drop_last(), d);
        let r = elements_of_dim(s.drop_last(), d);
        assert forall|i: int| 0 <= i < r.len() implies s.contains(#[trigger] r[i]) by {
            let q = choose|q: int| 0 <= q < s.drop_last().len() && s.drop_last()[q] == r[i];
            assert(s[q] == r[i]);
        }
        if spec_dimension(s.last().etype) == d {
            assert forall|i: int| 0 <= i < r.push(s.last()).len() implies s.contains(#[trigger] r.push(s.last())[i]) && spec_dimension(
                r.push(s.last())[i].etype,
            ) == d by {
                if i < r.len() {
                    assert(r.push(s.last())[i] == r[i]);
                } else {
                    assert(s[s.len() - 1] == s.last());
                }
            }
        }
    }
}

/// The values of a sequence of element references.
pub open spec fn element_refs_view(s: Seq<&Element>) -> Seq<ElementView> {
    s.map_values(|e: &Element| e@)
}

/// The values of a sequence of elements.
pub open spec fn elements_view(s: Seq<Element>) -> Seq<ElementView> {
    s.map_values(|e: Element| e@)
}

// ─── Meshes ──────────────────────────────────────────────────────────────────

/// The mathematical value of a mesh: its nodes by ID, its elements in
/// order, and its physical group names by (dimension, tag).
pub struct MeshView {
    pub nodes: Map<u64, PointView>,
    pub elements: Seq<ElementView>,
    pub physical_names: Map<(i32, i32), Seq<char>>,
}

/// A finite element mesh containing nodes and elements.
///
/// Nodes are kept in increasing ID order and physical names in increasing
/// (dimension, tag) order, each ID and each key once.
#[derive(Debug)]
pub struct Mesh {
    nodes: Vec<Node>,
    elements: Vec<Element>,
    physical_names: Vec<PhysicalName>,
}

impl View for Mesh {
    type V = MeshView;

    open spec fn view(&self) -> MeshView {
        MeshView {
            nodes: pairs_to_map(node_pairs(self.node_seq())),
            elements: elements_view(self.element_seq()),
            physical_names: pairs_to_map(name_pairs(self.name_seq())),
        }
    }
}

impl Mesh {
    /// The nodes, in increasing ID order.
    pub closed spec fn node_seq(&self) -> Seq<Node> {
        self.nodes@
    }

    /// The elements, in order.
    pub closed spec fn element_seq(&self) -> Seq<Element> {
        self.elements@
    }

    /// The physical names, in increasing (dimension, tag) order.
    pub closed spec fn name_seq(&self) -> Seq<PhysicalName> {
        self.physical_names@
    }

    /// The nodes are in strictly increasing ID order and the physical names
    /// in strictly increasing key order.
    pub open spec fn wf(&self) -> bool {
        &&& forall|i: int, j: int|
            0 <= i < j < self.node_seq().len() ==> self.node_seq()[i].id < self.node_seq()[j].id
        &&& forall|i: int, j: int|
            0 <= i < j < self.name_seq().len() ==> key_lt(
                (self.name_seq()[i].dim, self.name_seq()[i].tag),
                (self.name_seq()[j].dim, self.name_seq()[j].tag),
            )
    }

    pub fn new() -> (m: Self)
        ensures
            m.wf(),
            m@.nodes == Map::<u64, PointView>::empty(),
            m@.elements == Seq::<ElementView>::empty(),
            m@.physical_names == Map::<(i32, i32), Seq<char>>::empty(),
    {
        let m = Mesh { nodes: Vec::new(), elements: Vec::new(), physical_names: Vec::new() };
        assert(node_pairs(m.nodes@) =~= Seq::empty());
        assert(name_pairs(m.physical_names@) =~= Seq::empty());
        assert(elements_view(m.elements@) =~= Seq::empty());
        m
    }

    /// Distinct node IDs and distinct name keys follow from the orders.
    pub proof fn lemma_wf_distinct(&self)
        requires
            self.wf(),
        ensures
            distinct_keys(node_pairs(self.node_seq())),
            distinct_keys(name_pairs(self.name_seq())),
    {
        let np = node_pairs(self.node_seq());
        assert forall|i: int, j: int|
            0 <= i < np.len() && 0 <= j < np.len() && i != j implies np[i].0 != np[j].0 by {
            if i < j {
                assert(self.node_seq()[i].id < self.node_seq()[j].id);
            } else {
                assert(self.node_seq()[j].id < self.node_seq()[i].id);
            }
        }
        let pp = name_pairs(self.name_seq());
        assert forall|i: int, j: int|
            0 <= i < pp.len() && 0 <= j < pp.len() && i != j implies pp[i].0 != pp[j].0 by {
            let a = (self.name_seq()[i].dim, self.name_seq()[i].tag);
            let b = (self.name_seq()[j].dim, self.name_seq()[j].tag);
            if i < j {
                assert(key_lt(a, b));
            } else {
                assert(key_lt(b, a));
            }
        }
    }

    /// The first position whose node ID is at least `id`.
    fn node_lower_bound(&self, id: u64) -> (p: usize)
        requires
            self.wf(),
        ensures
            p <= self.node_seq().len(),
            forall|i: int| 0 <= i < p ==> self.node_seq()[i].id < id,
            forall|i: int| p <= i < self.node_seq().len() ==> self.node_seq()[i].id >= id,
    {
        let mut lo: usize = 0;
        let mut hi: usize = self.nodes.len();
        while lo < hi
            invariant
                self.wf(),
                lo <= hi <= self.node_seq().len(),
                forall|i: int| 0 <= i < lo ==> self.node_seq()[i].id < id,
                forall|i: int| hi <= i < self.node_seq().len() ==> self.node_seq()[i].id >= id,
            decreases hi - lo,
        {
            let mid = lo + (hi - lo) / 2;
            if self.nodes[mid].id < id {
                lo = mid + 1;
            } else {
                hi = mid;
            }
        }
        lo
    }

    /// Adds a node, replacing any node with the same ID.
    pub fn add_node(&mut self, node: Node)
        requires
            old(self).wf(),
        ensures
            final(self).wf(),
            final(self)@.nodes == old(self)@.nodes.insert(node.id, node.position@),
            final(self)@.elements == old(self)@.elements,
            final(self)@.physical_names == old(self)@.physical_names,
    {
        let ghost id = node.id;
        let ghost pos = node.position@;
        let ghost old_pairs = node_pairs(self.node_seq());
        proof {
            self.lemma_wf_distinct();
        }
        let n = self.nodes.len();
        let p = if n == 0 || self.nodes[n - 1].id < node.id {
            n
        } else {
            self.node_lower_bound(node.id)
        };
        if p < n && self.nodes[p].id == node.id {
            self.nodes.set(p, node);
            proof {
                lemma_pairs_to_map_update(old_pairs, p as int, pos);
                assert(node_pairs(self.node_seq()) =~= old_pairs.update(p as int, (id, pos)));
            }
        } else {
            self.nodes.insert(p, node);
            proof {
                assert forall|i: int| 0 <= i < old_pairs.len() implies old_pairs[i].0 != id by {
                    if i < p {
                    } else {
                        assert(old_pairs[i].0 >= id);
                        if i > p {
                            assert(old(self).node_seq()[p as int].id < old(self).node_seq()[i].id);
                        }
                    }
                }
                lemma_pairs_to_map_insert(old_pairs, p as int, id, pos);
                assert(node_pairs(self.node_seq()) =~= old_pairs.insert(p as int, (id, pos)));
            }
        }
    }

    pub fn add_element(&mut self, element: Element)
        ensures
            final(self).wf() == old(self).wf(),
            final(self)@.nodes == old(self)@.nodes,
            final(self)@.elements == old(self)@.elements.push(element@),
            final(self)@.physical_names == old(self)@.physical_names,
    {
        self.elements.push(element);
        assert(self.node_seq() == old(self).node_seq());
        assert(self.name_seq() == old(self).name_seq());
        assert(elements_view(self.element_seq()) =~= elements_view(old(self).element_seq()).push(
            element@,
        ));
    }

    /// Sets the name of the physical group `tag` of dimension `dim`.
    pub fn insert_physical_name(&mut self, dim: i32, tag: i32, name: String)
        requires
            old(self).wf(),
        ensures
            final(self).wf(),
            final(self)@.nodes == old(self)@.nodes,
            final(self)@.elements == old(self)@.elements,
            final(self)@.physical_names == old(self)@.physical_names.insert((dim, tag), name@),
    {
        let ghost key = (dim, tag);
        let ghost nm = name@;
        let ghost old_pairs = name_pairs(self.name_seq());
        proof {
            self.lemma_wf_distinct();
        }
        let n = self.physical_names.len();
        let mut p: usize = 0;
        while p < n && (self.physical_names[p].dim < dim || (self.physical_names[p].dim == dim
            && self.physical_names[p].tag < tag))
            invariant
                n == self.name_seq().len(),
                p <= n,
                self.name_seq() == old(self).name_seq(),
                forall|i: int|
                    0 <= i < p ==> key_lt(
                        (self.name_seq()[i].dim, self.name_seq()[i].tag),
                        (dim, tag),
                    ),
            decreases n - p,
        {
            p = p + 1;
        }
        if p < n && self.physical_names[p].dim == dim && self.physical_names[p].tag == tag {
            self.physical_names.set(p, PhysicalName { dim, tag, name });
            proof {
                assert forall|k: int| 0 <= k < self.name_seq().len() implies (
                #[trigger] self.name_seq()[k]).dim == old(self).name_seq()[k].dim
                    && self.name_seq()[k].tag == old(self).name_seq()[k].tag by {}
                lemma_pairs_to_map_update(old_pairs, p as int, nm);
                assert(name_pairs(self.name_seq()) =~= old_pairs.update(p as int, (key, nm)));
            }
        } else {
            self.physical_names.insert(p, PhysicalName { dim, tag, name });
            proof {
                assert forall|i: int| 0 <= i < old_pairs.len() implies old_pairs[i].0 != key by {
                    if i >= p {
                        let a = (old(self).name_seq()[p as int].dim, old(self).name_seq()[p as int].tag);
                        if i > p {
                            let b = (old(self).name_seq()[i].dim, old(
                                self,
                            ).physical_names@[i].tag);
                            assert(key_lt(a, b));
                        }
                    }
                }
                lemma_pairs_to_map_insert(old_pairs, p as int, key, nm);
                let o = old(self).name_seq();
                let ns = self.name_seq();
                assert(ns == o.insert(p as int, PhysicalName { dim, tag, name }));
                if p < n {
                    let a = (o[p as int].dim, o[p as int].tag);
                    assert(a != key);
                    assert(!key_lt(a, key));
                    assert(key_lt(key, a));
                }
                assert forall|i: int, j: int| 0 <= i < j < ns.len() implies key_lt(
                    (ns[i].dim, ns[i].tag),
                    (ns[j].dim, ns[j].tag),
                ) by {
                    if j < p {
                        assert(ns[i] == o[i] && ns[j] == o[j]);
                    } else if j == p {
                        assert(ns[i] == o[i]);
                    } else if i == p {
                        assert(ns[j] == o[j - 1]);
                        if j - 1 > p {
                            assert(key_lt((o[p as int].dim, o[p as int].tag), (o[j - 1].dim, o[j - 1].tag)));
                        }
                    } else if i < p {
                        assert(ns[i] == o[i] && ns[j] == o[j - 1]);
                        assert(key_lt((o[i].dim, o[i].tag), key));
                    } else {
                        assert(ns[i] == o[i - 1] && ns[j] == o[j - 1]);
                    }
                }
                assert(self.node_seq() == old(self).node_seq());
                assert(name_pairs(self.name_seq()) =~= old_pairs.insert(p as int, (key, nm)));
            }
        }
    }

    /// The node with ID `id`, if any.
    pub fn get_node(&self, id: u64) -> (r: Option<&Node>)
        requires
            self.wf(),
        ensures
            match r {
                Some(n) => self@.nodes.contains_key(id) && n.id == id && n.position@
                    == self@.nodes[id],
                None => !self@.nodes.contains_key(id),
            },
    {
        proof {
            self.lemma_wf_distinct();
            lemma_pairs_to_map(node_pairs(self.node_seq()));
        }
        let p = self.node_lower_bound(id);
        if p < self.nodes.len() && self.nodes[p].id == id {
            assert(node_pairs(self.node_seq())[p as int].0 == id);
            Some(&self.nodes[p])
        } else {
            proof {
                if self@.nodes.contains_key(id) {
                    let i = choose|i: int|
                        0 <= i < node_pairs(self.node_seq()).len() && node_pairs(self.node_seq())[i].0
                            == id;
                    if i > p {
                        assert(self.node_seq()[p as int].id < self.node_seq()[i].id);
                    }
                }
            }
            None
        }
    }

    /// The position of the node with ID `id` in increasing ID order, if any.
    pub(crate) fn node_index(&self, id: u64) -> (r: Option<usize>)
        requires
            self.wf(),
        ensures
            match r {
                Some(p) => p < self.node_seq().len() && self.node_seq()[p as int].id == id,
                None => !self@.nodes.contains_key(id),
            },
    {
        proof {
            self.lemma_wf_distinct();
            lemma_pairs_to_map(node_pairs(self.node_seq()));
        }
        let p = self.node_lower_bound(id);
        if p < self.nodes.len() && self.nodes[p].id == id {
            Some(p)
        } else {
            proof {
                if self@.nodes.contains_key(id) {
                    let i = choose|i: int|
                        0 <= i < node_pairs(self.node_seq()).len() && node_pairs(self.node_seq())[i].0
                            == id;
                    if i > p {
                        assert(self.node_seq()[p as int].id < self.node_seq()[i].id);
                    }
                }
            }
            None
        }
    }

    /// Whether the mesh has a node with ID `id`.
    pub fn contains_node(&self, id: u64) -> (b: bool)
        requires
            self.wf(),
        ensures
            b == self@.nodes.contains_key(id),
    {
        self.get_node(id).is_some()
    }

    /// The nodes, in increasing ID order.
    pub fn nodes(&self) -> (r: &Vec<Node>)
        ensures
            r@ == self.node_seq(),
    {
        &self.nodes
    }

    /// The elements, in order.
    pub fn elements(&self) -> (r: &Vec<Element>)
        ensures
            r@ == self.element_seq(),
    {
        &self.elements
    }

    /// The physical names, in increasing (dimension, tag) order.
    pub fn physical_names(&self) -> (r: &Vec<PhysicalName>)
        ensures
            r@ == self.name_seq(),
    {
        &self.physical_names
    }

    /// Filter elements by topological dimension.
    pub fn elements_by_dimension(&self, dim: u8) -> (r: Vec<&Element>)
        ensures
            element_refs_view(r@) == elements_of_dim(self@.elements, dim),
    {
        let mut out: Vec<&Element> = Vec::new();
        let mut i: usize = 0;
        while i < self.elements.len()
            invariant
                i <= self.element_seq().len(),
                element_refs_view(out@) == elements_of_dim(
                    elements_view(self.element_seq()).take(i as int),
                    dim,
                ),
            decreases self.element_seq().len() - i,
        {
            let ghost ev = elements_view(self.element_seq());
            assert(ev.take(i + 1).drop_last() =~= ev.take(i as int));
            let e = &self.elements[i];
            if e.dimension() == dim {
                out.push(e);
            }
            i = i + 1;
            assert(element_refs_view(out@) =~= elements_of_dim(ev.take(i as int), dim));
        }
        assert(elements_view(self.element_seq()).take(i as int) =~= elements_view(self.element_seq()));
        out
    }

    /// Get node count.
    pub fn node_count(&self) -> (n: usize)
        requires
            self.wf(),
        ensures
            n == self@.nodes.len(),
    {
        proof {
            self.lemma_wf_distinct();
            lemma_distinct_pairs_map_len(node_pairs(self.node_seq()));
        }
        self.nodes.len()
    }

    /// Get element count.
    pub fn element_count(&self) -> (n: usize)
        ensures
            n == self@.elements.len(),
    {
        self.elements.len()
    }
}

/// A sequence of pairs with distinct keys has as many keys as pairs.
pub proof fn lemma_distinct_pairs_map_len<K, V>(s: Seq<(K, V)>)
    requires
        distinct_keys(s),
    ensures
        pairs_to_map(s).len() == s.len(),
    decreases s.len(),
{
    if s.len() > 0 {
        let t = s.drop_last();
        assert(distinct_keys(t)) by {
            assert forall|i: int, j: int|
                0 <= i < t.len() && 0 <= j < t.len() && i != j implies t[i].0 != t[j].0 by {
                assert(t[i] == s[i] && t[j] == s[j]);
            }
        }
        lemma_distinct_pairs_map_len(t);
        lemma_pairs_to_map(t);
        if pairs_to_map(t).dom().contains(s.last().0) {
            let i = choose|i: int| 0 <= i < t.len() && t[i].0 == s.last().0;
            assert(s[i].0 == s[s.len() - 1].0);
        }
    }
}

} // verus!
