//! Writing Gmsh MSH files in format 4.1 (ASCII).
use std::collections::BTreeSet;
use vstd::prelude::*;
use vstd::std_specs::iter::IteratorSpec;

use crate::element::{spec_dimension, Element, ElementView};
use crate::mesh::{elements_view, name_pairs, node_pairs, Mesh, Node, PointView};
use crate::msh::{
    kw_elements_chars, kw_end_elements_chars, kw_end_nodes_chars, kw_nodes_chars, MshError,
};
use crate::msh_spec::{kw_elements, kw_end_elements, kw_end_nodes, kw_nodes, MshErrorView};
use crate::msh_write::{
    chars_to_string, dec_i, dec_u, format_lines, id_list, lemma_join_lines_append, lemma_join_take,
    names_lines, push_count_line, push_format, push_id_list, push_line, push_names_section,
    push_string, refs_view, sort_by_id, sorted_elements, spec_validate, type_number,
    type_number_of, validate_mesh, version_v4,
};
use crate::text::{dec, join_lines, push_dec, push_int, space};

verus! {

// ─── Blocks ──────────────────────────────────────────────────────────────────

/// The entity tag an element is written under: its physical tag, 1 without
/// one.
pub open spec fn entity_tag(t: Option<i32>) -> i32 {
    match t {
        Some(v) => v,
        None => 1,
    }
}

/// The block an element is written in: its dimension, entity tag and Gmsh
/// type number.
pub open spec fn block_key(e: ElementView) -> (u8, i32, i32) {
    (spec_dimension(e.etype), entity_tag(e.physical_tag), type_number(e.etype))
}

/// Lexicographic order of block keys.
pub open spec fn block_lt(a: (u8, i32, i32), b: (u8, i32, i32)) -> bool {
    a.0 < b.0 || (a.0 == b.0 && (a.1 < b.1 || (a.1 == b.1 && a.2 < b.2)))
}

/// The keys of `ks` strictly increase.
pub open spec fn keys_sorted(ks: Seq<(u8, i32, i32)>) -> bool {
    forall|i: int, j: int| 0 <= i < j < ks.len() ==> block_lt(ks[i], ks[j])
}

/// `k` added to the increasing keys `ks`, unless it is there already.
pub open spec fn insert_key(ks: Seq<(u8, i32, i32)>, k: (u8, i32, i32)) -> Seq<(u8, i32, i32)>
    decreases ks.len(),
{
    if ks.len() == 0 {
        seq![k]
    } else if block_lt(ks.last(), k) {
        ks.push(k)
    } else if ks.last() == k {
        ks
    } else {
        insert_key(ks.drop_last(), k).push(ks.last())
    }
}

/// The distinct block keys of `es`, in increasing order.
pub open spec fn block_keys(es: Seq<ElementView>) -> Seq<(u8, i32, i32)>
    decreases es.len(),
{
    if es.len() == 0 {
        seq![]
    } else {
        insert_key(block_keys(es.drop_last()), block_key(es.last()))
    }
}

/// The elements of `es` in block `k`, in order.
pub open spec fn block_of(es: Seq<ElementView>, k: (u8, i32, i32)) -> Seq<ElementView>
    decreases es.len(),
{
    if es.len() == 0 {
        seq![]
    } else {
        let r = block_of(es.drop_last(), k);
        if block_key(es.last()) == k {
            r.push(es.last())
        } else {
            r
        }
    }
}

/// The largest dimension of the elements of `es`, 0 when there are none.
pub open spec fn max_dim(es: Seq<ElementView>) -> u8
    decreases es.len(),
{
    if es.len() == 0 {
        0
    } else {
        let d = max_dim(es.drop_last());
        let e = spec_dimension(es.last().etype);
        if d < e {
            e
        } else {
            d
        }
    }
}

// ─── Format 4.1 text ─────────────────────────────────────────────────────────

/// `0 0 0 0`: the header of an empty section.
pub open spec fn zeros4() -> Seq<char> {
    seq!['0', ' ', '0', ' ', '0', ' ', '0']
}

/// Four words separated by spaces.
pub open spec fn words4(a: Seq<char>, b: Seq<char>, c: Seq<char>, d: Seq<char>) -> Seq<char> {
    a + space() + b + space() + c + space() + d
}

/// The coordinate line of a node.
pub open spec fn coord_line(p: PointView) -> Seq<char> {
    p.0 + space() + p.1 + space() + p.2
}

/// The lines of the nodes section between its keywords: one block of
/// entity dimension `dim` holding every node, IDs first, then coordinates.
pub open spec fn nodes_lines_v4(np: Seq<(u64, PointView)>, dim: u8) -> Seq<Seq<char>> {
    if np.len() == 0 {
        seq![zeros4()]
    } else {
        seq![
            words4(dec(1), dec(np.len()), dec_u(np[0].0), dec_u(np.last().0)),
            words4(dec(dim as nat), dec(1), dec(0), dec(np.len())),
        ] + np.map_values(|p: (u64, PointView)| dec_u(p.0)) + np.map_values(
            |p: (u64, PointView)| coord_line(p.1),
        )
    }
}

/// A format-4 element line: ID and node IDs.
pub open spec fn element_line_v4(e: ElementView) -> Seq<char> {
    dec_u(e.id) + id_list(e.node_ids)
}

/// The lines of the block `k` holding the elements `b`.
pub open spec fn block_lines(k: (u8, i32, i32), b: Seq<ElementView>) -> Seq<Seq<char>> {
    seq![words4(dec(k.0 as nat), dec_i(k.1), dec_i(k.2), dec(b.len()))] + b.map_values(
        |e: ElementView| element_line_v4(e),
    )
}

/// The lines of the blocks `ks` of the elements `es`, in the order of `ks`.
pub open spec fn blocks_lines(es: Seq<ElementView>, ks: Seq<(u8, i32, i32)>) -> Seq<Seq<char>>
    decreases ks.len(),
{
    if ks.len() == 0 {
        seq![]
    } else {
        blocks_lines(es, ks.drop_last()) + block_lines(ks.last(), block_of(es, ks.last()))
    }
}

/// The lines of the elements section between its keywords, for elements
/// already sorted by ID.
pub open spec fn elements_lines_v4(es: Seq<ElementView>) -> Seq<Seq<char>> {
    if es.len() == 0 {
        seq![zeros4()]
    } else {
        seq![
            words4(
                dec(block_keys(es).len()),
                dec(es.len()),
                dec_u(es[0].id),
                dec_u(es.last().id),
            ),
        ] + blocks_lines(es, block_keys(es))
    }
}

/// The lines of the format-4 file of the given nodes, elements (sorted by
/// ID) and names.
pub open spec fn v4_lines(
    np: Seq<(u64, PointView)>,
    es: Seq<ElementView>,
    ns: Seq<((i32, i32), Seq<char>)>,
) -> Seq<Seq<char>> {
    format_lines(version_v4()) + names_lines(ns) + seq![kw_nodes()] + nodes_lines_v4(
        np,
        max_dim(es),
    ) + seq![kw_end_nodes(), kw_elements()] + elements_lines_v4(es) + seq![kw_end_elements()]
}

/// The text of the format-4 file of `m`.
pub open spec fn v4_text(m: Mesh) -> Seq<char> {
    join_lines(
        v4_lines(
            node_pairs(m.node_seq()),
            sort_by_id(elements_view(m.element_seq())),
            name_pairs(m.name_seq()),
        ),
    )
}

// ─── Keys ────────────────────────────────────────────────────────────────────

/// Adding a key at the first position whose key is not smaller.
pub proof fn lemma_insert_key(ks: Seq<(u8, i32, i32)>, k: (u8, i32, i32), p: int)
    requires
        keys_sorted(ks),
        0 <= p <= ks.len(),
        forall|i: int| 0 <= i < p ==> block_lt(ks[i], k),
        forall|i: int| p <= i < ks.len() ==> !block_lt(#[trigger] ks[i], k),
    ensures
        insert_key(ks, k) == (if p < ks.len() && ks[p] == k {
            ks
        } else {
            ks.insert(p, k)
        }),
        keys_sorted(insert_key(ks, k)),
    decreases ks.len(),
{
    if ks.len() == 0 {
        assert(ks.insert(p, k) =~= seq![k]);
    } else if block_lt(ks.last(), k) {
        assert(p == ks.len());
        assert(ks.insert(p, k) =~= ks.push(k));
    } else if ks.last() == k {
        if p < ks.len() - 1 {
            assert(block_lt(ks[p], ks[ks.len() - 1]));
        }
    } else {
        let t = ks.drop_last();
        assert(keys_sorted(t)) by {
            assert forall|i: int, j: int| 0 <= i < j < t.len() implies block_lt(t[i], t[j]) by {
                assert(t[i] == ks[i] && t[j] == ks[j]);
            }
        }
        assert(p < ks.len());
        lemma_insert_key(t, k, p);
        if p < t.len() && t[p] == k {
            assert(t.push(ks.last()) =~= ks);
        } else {
            assert(t.insert(p, k).push(ks.last()) =~= ks.insert(p, k));
        }
    }
    let r = insert_key(ks, k);
    if !(p < ks.len() && ks[p] == k) {
        assert forall|i: int, j: int| 0 <= i < j < r.len() implies block_lt(r[i], r[j]) by {
            if j < p {
                assert(r[i] == ks[i] && r[j] == ks[j]);
            } else if j == p {
                assert(r[i] == ks[i]);
            } else if i == p {
                assert(r[j] == ks[j - 1]);
                assert(!block_lt(ks[j - 1], k));
            } else if i < p {
                assert(r[i] == ks[i] && r[j] == ks[j - 1]);
            } else {
                assert(r[i] == ks[i - 1] && r[j] == ks[j - 1]);
            }
        }
    }
}

/// The block keys of any elements strictly increase.
pub proof fn lemma_block_keys_sorted(es: Seq<ElementView>)
    ensures
        keys_sorted(block_keys(es)),
    decreases es.len(),
{
    if es.len() > 0 {
        let ks = block_keys(es.drop_last());
        let k = block_key(es.last());
        lemma_block_keys_sorted(es.drop_last());
        let p = lower_key_pos(ks, k);
        lemma_lower_key_pos(ks, k);
        lemma_insert_key(ks, k, p);
    }
}

/// The block keys of `es`, as a set.
pub open spec fn key_set(es: Seq<ElementView>) -> Set<(u8, i32, i32)>
    decreases es.len(),
{
    if es.len() == 0 {
        Set::empty()
    } else {
        key_set(es.drop_last()).insert(block_key(es.last()))
    }
}

/// The block keys of `es` are exactly the members of its key set.
pub proof fn lemma_block_keys_members(es: Seq<ElementView>)
    ensures
        forall|x: (u8, i32, i32)| block_keys(es).contains(x) <==> #[trigger] key_set(es).contains(x),
    decreases es.len(),
{
    if es.len() > 0 {
        let ks = block_keys(es.drop_last());
        let k = block_key(es.last());
        lemma_block_keys_members(es.drop_last());
        lemma_block_keys_sorted(es.drop_last());
        let p = lower_key_pos(ks, k);
        lemma_lower_key_pos(ks, k);
        lemma_insert_key(ks, k, p);
        let r = block_keys(es);
        assert forall|x: (u8, i32, i32)| r.contains(x) <==> (ks.contains(x) || x == k) by {
            if !(p < ks.len() && ks[p] == k) {
                assert(r == ks.insert(p, k));
                if r.contains(x) {
                    let j = choose|j: int| 0 <= j < r.len() && r[j] == x;
                    if j < p {
                        assert(ks[j] == x);
                    } else if j > p {
                        assert(ks[j - 1] == x);
                    }
                }
                if ks.contains(x) {
                    let j = choose|j: int| 0 <= j < ks.len() && ks[j] == x;
                    if j < p {
                        assert(r[j] == x);
                    } else {
                        assert(r[j + 1] == x);
                    }
                }
                if x == k {
                    assert(r[p] == x);
                }
            } else {
                if x == k {
                    assert(ks[p] == x);
                }
            }
        }
        assert forall|x: (u8, i32, i32)| r.contains(x) <==> #[trigger] key_set(es).contains(x) by {
            assert(ks.contains(x) <==> key_set(es.drop_last()).contains(x));
        }
    }
}

/// Two strictly increasing key lists with the same members are equal.
pub proof fn lemma_sorted_keys_unique(a: Seq<(u8, i32, i32)>, b: Seq<(u8, i32, i32)>)
    requires
        keys_sorted(a),
        keys_sorted(b),
        forall|x: (u8, i32, i32)| a.contains(x) <==> b.contains(x),
    ensures
        a == b,
    decreases a.len(),
{
    if a.len() == 0 {
        if b.len() > 0 {
            assert(b.contains(b[0]));
        }
        assert(a =~= b);
    } else if b.len() == 0 {
        assert(a.contains(a[0]));
    } else {
        let x = a.last();
        let y = b.last();
        assert(a.contains(x));
        assert(b.contains(y));
        let jb = choose|j: int| 0 <= j < b.len() && b[j] == x;
        let ja = choose|j: int| 0 <= j < a.len() && a[j] == y;
        if jb < b.len() - 1 {
            assert(block_lt(b[jb], b[b.len() - 1]));
        }
        if ja < a.len() - 1 {
            assert(block_lt(a[ja], a[a.len() - 1]));
        }
        assert(x == y);
        let a2 = a.drop_last();
        let b2 = b.drop_last();
        assert forall|z: (u8, i32, i32)| a2.contains(z) <==> b2.contains(z) by {
            if a2.contains(z) {
                let i = choose|i: int| 0 <= i < a2.len() && a2[i] == z;
                assert(block_lt(a[i], a[a.len() - 1]));
                assert(a.contains(z));
                let j = choose|j: int| 0 <= j < b.len() && b[j] == z;
                assert(b2[j] == z);
            }
            if b2.contains(z) {
                let i = choose|i: int| 0 <= i < b2.len() && b2[i] == z;
                assert(block_lt(b[i], b[b.len() - 1]));
                assert(b.contains(z));
                let j = choose|j: int| 0 <= j < a.len() && a[j] == z;
                assert(a2[j] == z);
            }
        }
        assert(keys_sorted(a2)) by {
            assert forall|i: int, j: int| 0 <= i < j < a2.len() implies block_lt(a2[i], a2[j]) by {
                assert(a2[i] == a[i] && a2[j] == a[j]);
            }
        }
        assert(keys_sorted(b2)) by {
            assert forall|i: int, j: int| 0 <= i < j < b2.len() implies block_lt(b2[i], b2[j]) by {
                assert(b2[i] == b[i] && b2[j] == b[j]);
            }
        }
        lemma_sorted_keys_unique(a2, b2);
        assert(a =~= a2.push(x));
        assert(b =~= b2.push(y));
    }
}

/// Whether ordered collections of block keys follow the order of their
/// `Ord` impl.
pub open spec fn block_keys_ordered() -> bool {
    vstd::std_specs::btree::key_obeys_cmp_spec::<(u8, i32, i32)>()
}

/// Block keys are ordered as `Ord` orders tuples of integers.
proof fn lemma_key_order()
    ensures
        block_keys_ordered(),
{
    broadcast use vstd::std_specs::btree::group_btree_axioms;
    broadcast use vstd::laws_cmp::group_laws_cmp;

    assert(vstd::laws_cmp::obeys_cmp::<(u8, i32, i32)>());
}

/// The keys of a set of block keys, walked in increasing order, strictly
/// increase.
proof fn lemma_walk_sorted(s: Seq<&(u8, i32, i32)>)
    requires
        vstd::std_specs::btree::increasing_seq(s),
    ensures
        keys_sorted(s.unref()),
{
    broadcast use vstd::std_specs::btree::group_btree_axioms;
    broadcast use vstd::laws_cmp::group_laws_cmp;

    assert(vstd::laws_cmp::obeys_cmp::<(u8, i32, i32)>());
    assert(vstd::laws_cmp::obeys_cmp::<&(u8, i32, i32)>());
    assert forall|i: int, j: int| 0 <= i < j < s.len() implies block_lt(
        s.unref()[i],
        s.unref()[j],
    ) by {
        assert(vstd::std_specs::cmp::OrdSpec::cmp_spec(&s[i], &s[j]) is Less);
        assert(s.unref()[i] == *s[i] && s.unref()[j] == *s[j]);
    }
}

/// The number of keys of `ks` smaller than `k`, for increasing keys.
pub open spec fn lower_key_pos(ks: Seq<(u8, i32, i32)>, k: (u8, i32, i32)) -> int
    decreases ks.len(),
{
    if ks.len() == 0 {
        0
    } else if block_lt(ks.last(), k) {
        ks.len() as int
    } else {
        lower_key_pos(ks.drop_last(), k)
    }
}

/// The keys before `lower_key_pos` are smaller than `k`, the others not.
pub proof fn lemma_lower_key_pos(ks: Seq<(u8, i32, i32)>, k: (u8, i32, i32))
    requires
        keys_sorted(ks),
    ensures
        0 <= lower_key_pos(ks, k) <= ks.len(),
        forall|i: int| 0 <= i < lower_key_pos(ks, k) ==> block_lt(ks[i], k),
        forall|i: int| lower_key_pos(ks, k) <= i < ks.len() ==> !block_lt(#[trigger] ks[i], k),
    decreases ks.len(),
{
    if ks.len() > 0 {
        let t = ks.drop_last();
        assert(keys_sorted(t)) by {
            assert forall|i: int, j: int| 0 <= i < j < t.len() implies block_lt(t[i], t[j]) by {
                assert(t[i] == ks[i] && t[j] == ks[j]);
            }
        }
        lemma_lower_key_pos(t, k);
        if block_lt(ks.last(), k) {
            assert forall|i: int| 0 <= i < ks.len() implies block_lt(ks[i], k) by {
                if i < ks.len() - 1 {
                    assert(block_lt(ks[i], ks[ks.len() - 1]));
                }
            }
        } else {
            assert forall|i: int| lower_key_pos(ks, k) <= i < ks.len() implies !block_lt(
                #[trigger] ks[i],
                k,
            ) by {
                if i < ks.len() - 1 {
                    assert(ks[i] == t[i]);
                }
            }
            assert forall|i: int| 0 <= i < lower_key_pos(ks, k) implies block_lt(ks[i], k) by {
                assert(ks[i] == t[i]);
            }
        }
    }
}

// ─── Writing ─────────────────────────────────────────────────────────────────

/// The block an element is written in.
fn block_key_of(e: &Element) -> (k: (u8, i32, i32))
    ensures
        k == block_key(e@),
{
    let tag = match e.physical_tag {
        Some(t) => t,
        None => 1,
    };
    (e.dimension(), tag, type_number_of(e.etype))
}

/// The distinct block keys of `elems`, in increasing order: gathered in
/// an ordered set and walked in its order.
fn collect_block_keys(elems: &Vec<&Element>) -> (r: Vec<(u8, i32, i32)>)
    ensures
        r@ == block_keys(refs_view(elems@)),
{
    broadcast use vstd::std_specs::btree::group_btree_axioms;

    let ghost ev = refs_view(elems@);
    proof {
        lemma_key_order();
    }
    let mut set: BTreeSet<(u8, i32, i32)> = BTreeSet::new();
    let mut i: usize = 0;
    assert(ev.take(0) =~= Seq::<ElementView>::empty());
    while i < elems.len()
        invariant
            i <= elems@.len(),
            ev == refs_view(elems@),
            set@ == key_set(ev.take(i as int)),
            block_keys_ordered(),
        decreases elems@.len() - i,
    {
        assert(ev.take(i + 1).drop_last() =~= ev.take(i as int));
        let k = block_key_of(elems[i]);
        assert(k == block_key(ev[i as int]));
        set.insert(k);
        i = i + 1;
    }
    assert(ev.take(i as int) =~= ev);
    let mut keys: Vec<(u8, i32, i32)> = Vec::new();
    let ghost rem = set.iter().remaining();
    let ghost walk = rem.unref();
    assert(walk.to_set() == set@);
    assert(vstd::std_specs::btree::increasing_seq(rem));
    for k in iter: set.iter()
        invariant
            iter.seq().unref() == walk,
            keys@.len() == iter.index(),
            forall|j: int| 0 <= j < iter.index() ==> keys@[j] == *iter.seq()[j],
    {
        keys.push(*k);
    }
    let ghost all = keys@;
    assert(all =~= walk);
    proof {
        lemma_walk_sorted(rem);
        lemma_block_keys_sorted(ev);
        lemma_block_keys_members(ev);
        assert forall|x: (u8, i32, i32)| all.contains(x) <==> block_keys(ev).contains(x) by {
            assert(all.to_set().contains(x) <==> all.contains(x));
        }
        lemma_sorted_keys_unique(all, block_keys(ev));
    }
    keys
}

/// Appends the words `a b c d` and a line feed, for numbers.
fn push_words4(out: &mut Vec<char>, a: u64, b: i32, c: i32, d: u64)
    ensures
        final(out)@ == old(out)@ + join_lines(seq![words4(dec(a as nat), dec_i(b), dec_i(c), dec(d as nat))]),
{
    push_dec(out, a);
    out.push(' ');
    push_int(out, b as i64);
    out.push(' ');
    push_int(out, c as i64);
    out.push(' ');
    push_dec(out, d);
    out.push('\n');
    let ghost l = words4(dec(a as nat), dec_i(b), dec_i(c), dec(d as nat));
    assert(seq![l].drop_last() =~= Seq::<Seq<char>>::empty());
    assert(join_lines(Seq::<Seq<char>>::empty()) == Seq::<char>::empty());
    assert(join_lines(seq![l]) =~= l + seq!['\n']);
    assert(out@ =~= old(out)@ + join_lines(seq![l]));
}

/// Appends four unsigned numbers separated by spaces, and a line feed.
fn push_words4_u(out: &mut Vec<char>, a: u64, b: u64, c: u64, d: u64)
    ensures
        final(out)@ == old(out)@ + join_lines(
            seq![words4(dec(a as nat), dec(b as nat), dec(c as nat), dec(d as nat))],
        ),
{
    push_dec(out, a);
    out.push(' ');
    push_dec(out, b);
    out.push(' ');
    push_dec(out, c);
    out.push(' ');
    push_dec(out, d);
    out.push('\n');
    let ghost l = words4(dec(a as nat), dec(b as nat), dec(c as nat), dec(d as nat));
    assert(seq![l].drop_last() =~= Seq::<Seq<char>>::empty());
    assert(join_lines(Seq::<Seq<char>>::empty()) == Seq::<char>::empty());
    assert(join_lines(seq![l]) =~= l + seq!['\n']);
    assert(out@ =~= old(out)@ + join_lines(seq![l]));
}

/// Appends the lines of the nodes section between its keywords.
fn push_nodes_v4(out: &mut Vec<char>, nodes: &Vec<Node>, dim: u8)
    ensures
        final(out)@ == old(out)@ + join_lines(nodes_lines_v4(node_pairs(nodes@), dim)),
{
    let ghost np = node_pairs(nodes@);
    if nodes.len() == 0 {
        let z = vec!['0', ' ', '0', ' ', '0', ' ', '0'];
        assert(z@ =~= zeros4());
        push_line(out, &z);
        return ;
    }
    let n = nodes.len();
    push_words4_u(out, 1, n as u64, nodes[0].id, nodes[n - 1].id);
    push_words4_u(out, dim as u64, 1, 0, n as u64);
    let ghost head = seq![
        words4(dec(1), dec(np.len()), dec_u(np[0].0), dec_u(np.last().0)),
        words4(dec(dim as nat), dec(1), dec(0), dec(np.len())),
    ];
    proof {
        let h0 = words4(dec(1), dec(np.len()), dec_u(np[0].0), dec_u(np.last().0));
        let h1 = words4(dec(dim as nat), dec(1), dec(0), dec(np.len()));
        lemma_join_lines_append(seq![h0], seq![h1]);
        assert(seq![h0] + seq![h1] =~= head);
    }
    let ghost start = out@;
    let ghost ids = np.map_values(|p: (u64, PointView)| dec_u(p.0));
    let mut i: usize = 0;
    assert(ids.take(0) =~= Seq::<Seq<char>>::empty());
    while i < n
        invariant
            n == nodes@.len(),
            i <= n,
            np == node_pairs(nodes@),
            ids == np.map_values(|p: (u64, PointView)| dec_u(p.0)),
            out@ == start + join_lines(ids.take(i as int)),
        decreases n - i,
    {
        proof {
            lemma_join_take(ids, i as int);
        }
        push_dec(out, nodes[i].id);
        out.push('\n');
        i = i + 1;
        assert(out@ =~= start + join_lines(ids.take(i as int)));
    }
    assert(ids.take(i as int) =~= ids);
    let ghost mid = out@;
    let ghost cs = np.map_values(|p: (u64, PointView)| coord_line(p.1));
    let mut i: usize = 0;
    assert(cs.take(0) =~= Seq::<Seq<char>>::empty());
    while i < n
        invariant
            n == nodes@.len(),
            i <= n,
            np == node_pairs(nodes@),
            cs == np.map_values(|p: (u64, PointView)| coord_line(p.1)),
            out@ == mid + join_lines(cs.take(i as int)),
        decreases n - i,
    {
        proof {
            lemma_join_take(cs, i as int);
        }
        let nd = &nodes[i];
        push_string(out, &nd.position.x);
        out.push(' ');
        push_string(out, &nd.position.y);
        out.push(' ');
        push_string(out, &nd.position.z);
        out.push('\n');
        i = i + 1;
        assert(out@ =~= mid + join_lines(cs.take(i as int)));
    }
    assert(cs.take(i as int) =~= cs);
    proof {
        lemma_join_lines_append(head, ids);
        lemma_join_lines_append(head + ids, cs);
        assert(nodes_lines_v4(np, dim) =~= head + ids + cs);
    }
}

/// Appends the lines of block `k` of `elems`.
fn push_block(out: &mut Vec<char>, elems: &Vec<&Element>, k: (u8, i32, i32))
    ensures
        final(out)@ == old(out)@ + join_lines(block_lines(k, block_of(refs_view(elems@), k))),
{
    let ghost ev = refs_view(elems@);
    let mut count: usize = 0;
    let mut i: usize = 0;
    assert(ev.take(0) =~= Seq::<ElementView>::empty());
    while i < elems.len()
        invariant
            i <= elems@.len(),
            ev == refs_view(elems@),
            count == block_of(ev.take(i as int), k).len(),
            count <= i,
        decreases elems@.len() - i,
    {
        assert(ev.take(i + 1).drop_last() =~= ev.take(i as int));
        let ek = block_key_of(elems[i]);
        if ek.0 == k.0 && ek.1 == k.1 && ek.2 == k.2 {
            count = count + 1;
        }
        i = i + 1;
    }
    assert(ev.take(i as int) =~= ev);
    push_words4(out, k.0 as u64, k.1, k.2, count as u64);
    let ghost start = out@;
    let mut i: usize = 0;
    assert(block_of(ev.take(0), k).map_values(|e: ElementView| element_line_v4(e))
        =~= Seq::<Seq<char>>::empty());
    while i < elems.len()
        invariant
            i <= elems@.len(),
            ev == refs_view(elems@),
            out@ == start + join_lines(
                block_of(ev.take(i as int), k).map_values(|e: ElementView| element_line_v4(e)),
            ),
        decreases elems@.len() - i,
    {
        let ghost before = block_of(ev.take(i as int), k).map_values(
            |e: ElementView| element_line_v4(e),
        );
        assert(ev.take(i + 1).drop_last() =~= ev.take(i as int));
        let e = elems[i];
        let ek = block_key_of(e);
        if ek.0 == k.0 && ek.1 == k.1 && ek.2 == k.2 {
            push_dec(out, e.id);
            push_id_list(out, &e.node_ids);
            out.push('\n');
            let ghost after = block_of(ev.take(i + 1), k).map_values(
                |e: ElementView| element_line_v4(e),
            );
            assert(after =~= before.push(element_line_v4(e@)));
            assert(after.drop_last() =~= before);
            assert(out@ =~= start + join_lines(after));
        } else {
            assert(block_of(ev.take(i + 1), k) == block_of(ev.take(i as int), k));
        }
        i = i + 1;
    }
    assert(ev.take(i as int) =~= ev);
    proof {
        let b = block_of(ev, k);
        let h = seq![words4(dec(k.0 as nat), dec_i(k.1), dec_i(k.2), dec(b.len()))];
        lemma_join_lines_append(h, b.map_values(|e: ElementView| element_line_v4(e)));
    }
}

/// Appends the lines of the elements section between its keywords.
fn push_elements_v4(out: &mut Vec<char>, elems: &Vec<&Element>)
    ensures
        final(out)@ == old(out)@ + join_lines(elements_lines_v4(refs_view(elems@))),
{
    let ghost ev = refs_view(elems@);
    if elems.len() == 0 {
        let z = vec!['0', ' ', '0', ' ', '0', ' ', '0'];
        assert(z@ =~= zeros4());
        push_line(out, &z);
        return ;
    }
    let keys = collect_block_keys(elems);
    let n = elems.len();
    push_words4_u(out, keys.len() as u64, n as u64, elems[0].id, elems[n - 1].id);
    let ghost start = out@;
    let mut b: usize = 0;
    assert(keys@.take(0) =~= Seq::<(u8, i32, i32)>::empty());
    while b < keys.len()
        invariant
            b <= keys@.len(),
            keys@ == block_keys(ev),
            ev == refs_view(elems@),
            out@ == start + join_lines(blocks_lines(ev, keys@.take(b as int))),
        decreases keys@.len() - b,
    {
        assert(keys@.take(b + 1).drop_last() =~= keys@.take(b as int));
        let ghost before = out@;
        push_block(out, elems, keys[b]);
        proof {
            lemma_join_lines_append(
                blocks_lines(ev, keys@.take(b as int)),
                block_lines(keys@[b as int], block_of(ev, keys@[b as int])),
            );
        }
        b = b + 1;
    }
    assert(keys@.take(b as int) =~= keys@);
    proof {
        let h = seq![words4(dec(keys@.len()), dec(ev.len()), dec_u(ev[0].id), dec_u(ev.last().id))];
        lemma_join_lines_append(h, blocks_lines(ev, keys@));
    }
}

/// The largest dimension of the elements, 0 when there are none.
fn max_dimension(elems: &Vec<&Element>) -> (d: u8)
    ensures
        d == max_dim(refs_view(elems@)),
{
    let ghost ev = refs_view(elems@);
    let mut d: u8 = 0;
    let mut i: usize = 0;
    assert(ev.take(0) =~= Seq::<ElementView>::empty());
    while i < elems.len()
        invariant
            i <= elems@.len(),
            ev == refs_view(elems@),
            d == max_dim(ev.take(i as int)),
        decreases elems@.len() - i,
    {
        assert(ev.take(i + 1).drop_last() =~= ev.take(i as int));
        let e = elems[i].dimension();
        if d < e {
            d = e;
        }
        i = i + 1;
    }
    assert(ev.take(i as int) =~= ev);
    d
}

/// Writes a mesh as a Gmsh MSH file, format 4.1 (ASCII): all nodes in one
/// block, in ID order; elements sorted by ID and grouped in blocks by
/// dimension, entity tag and type, the blocks in increasing order.
#[verifier::rlimit(40)]
pub fn write_msh_v4(mesh: &Mesh) -> (r: Result<String, MshError>)
    requires
        mesh.wf(),
    ensures
        match spec_validate(mesh@.nodes, mesh@.elements) {
            Ok(()) => r matches Ok(s) && s@ == v4_text(*mesh),
            Err(e) => r matches Err(x) && x@ == e,
        },
{
    match validate_mesh(mesh) {
        Err(e) => return Err(e),
        Ok(()) => {},
    }
    let nodes = mesh.nodes();
    let elements = sorted_elements(mesh.elements());
    let ghost np = node_pairs(nodes@);
    let ghost ev = refs_view(elements@);
    let ghost names = name_pairs(mesh.name_seq());
    let dim = max_dimension(&elements);
    let mut out: Vec<char> = Vec::new();
    let version = vec!['4', '.', '1', ' ', '0', ' ', '8'];
    assert(version@ =~= version_v4());
    push_format(&mut out, &version);
    push_names_section(&mut out, mesh);
    push_line(&mut out, &kw_nodes_chars());
    push_nodes_v4(&mut out, nodes, dim);
    push_line(&mut out, &kw_end_nodes_chars());
    push_line(&mut out, &kw_elements_chars());
    push_elements_v4(&mut out, &elements);
    push_line(&mut out, &kw_end_elements_chars());
    proof {
        let a = format_lines(version_v4());
        let b = names_lines(names);
        let c = seq![kw_nodes()];
        let d = nodes_lines_v4(np, max_dim(ev));
        let e = seq![kw_end_nodes(), kw_elements()];
        let f = elements_lines_v4(ev);
        let g = seq![kw_end_elements()];
        lemma_join_lines_append(seq![kw_end_nodes()], seq![kw_elements()]);
        assert(seq![kw_end_nodes()] + seq![kw_elements()] =~= e);
        lemma_join_lines_append(a, b);
        lemma_join_lines_append(a + b, c);
        lemma_join_lines_append(a + b + c, d);
        lemma_join_lines_append(a + b + c + d, e);
        lemma_join_lines_append(a + b + c + d + e, f);
        lemma_join_lines_append(a + b + c + d + e + f, g);
        assert(v4_lines(np, ev, names) =~= a + b + c + d + e + f + g);
    }
    assert(out@ =~= v4_text(*mesh));
    Ok(chars_to_string(&out))
}

} // verus!
