//! Reading back a written MSH file loses no element and adds none.
use vstd::prelude::*;

use crate::element::ElementView;
use crate::mesh::MeshView;
use crate::msh_laws::{v2_readback, without_tag};
use crate::msh_laws_v4::{blocks_elems, v4_readback};
use crate::msh_write::{insert_by_id, sort_by_id};
use crate::msh_write_v4::{block_key, block_keys, block_of, insert_key, keys_sorted, lemma_block_keys_sorted, lemma_insert_key, lemma_lower_key_pos, lower_key_pos};

verus! {

broadcast use {vstd::seq_lib::to_multiset_build, vstd::seq_lib::group_to_multiset_ensures, vstd::multiset::group_multiset_axioms};

/// The elements of `s` without their physical tags.
pub open spec fn tagless(s: Seq<ElementView>) -> Seq<ElementView> {
    s.map_values(|e: ElementView| without_tag(e))
}

/// Dropping tags commutes with appending one element.
proof fn lemma_tagless_push(s: Seq<ElementView>, e: ElementView)
    ensures
        tagless(s.push(e)) == tagless(s).push(without_tag(e)),
{
    assert(tagless(s.push(e)) =~= tagless(s).push(without_tag(e)));
}

/// Inserting by ID adds the untagged element once and keeps the others.
proof fn lemma_insert_by_id_tagless(t: Seq<ElementView>, e: ElementView)
    ensures
        tagless(insert_by_id(t, e)).to_multiset() == tagless(t).to_multiset().insert(without_tag(e)),
    decreases t.len(),
{
    if t.len() == 0 {
        assert(tagless(seq![e]) =~= Seq::<ElementView>::empty().push(without_tag(e)));
        assert(tagless(t) =~= Seq::<ElementView>::empty());
    } else if t.last().id <= e.id {
        lemma_tagless_push(t, e);
    } else {
        let d = t.drop_last();
        lemma_insert_by_id_tagless(d, e);
        lemma_tagless_push(insert_by_id(d, e), t.last());
        assert(t =~= d.push(t.last()));
        lemma_tagless_push(d, t.last());
        let m = tagless(d).to_multiset();
        assert(m.insert(without_tag(e)).insert(without_tag(t.last())) =~= m.insert(without_tag(t.last())).insert(
            without_tag(e),
        ));
    }
}

/// Sorting by ID keeps every untagged element, as often as it occurs.
proof fn lemma_sort_by_id_tagless(s: Seq<ElementView>)
    ensures
        tagless(sort_by_id(s)).to_multiset() == tagless(s).to_multiset(),
    decreases s.len(),
{
    if s.len() > 0 {
        let d = s.drop_last();
        lemma_sort_by_id_tagless(d);
        lemma_insert_by_id_tagless(sort_by_id(d), s.last());
        assert(s =~= d.push(s.last()));
        lemma_tagless_push(d, s.last());
    } else {
        assert(sort_by_id(s) =~= s);
    }
}

/// The elements of `es` whose block key is among `ks`, in order.
pub open spec fn in_blocks(es: Seq<ElementView>, ks: Seq<(u8, i32, i32)>) -> Seq<ElementView>
    decreases es.len(),
{
    if es.len() == 0 {
        seq![]
    } else {
        let r = in_blocks(es.drop_last(), ks);
        if ks.contains(block_key(es.last())) {
            r.push(es.last())
        } else {
            r
        }
    }
}

/// No element is in no block.
proof fn lemma_in_no_blocks(es: Seq<ElementView>)
    ensures
        in_blocks(es, seq![]) == Seq::<ElementView>::empty(),
    decreases es.len(),
{
    if es.len() > 0 {
        lemma_in_no_blocks(es.drop_last());
    }
}

/// Every element is in the blocks of all its keys.
proof fn lemma_in_all_blocks(es: Seq<ElementView>, ks: Seq<(u8, i32, i32)>)
    requires
        forall|i: int| 0 <= i < es.len() ==> ks.contains(#[trigger] block_key(es[i])),
    ensures
        in_blocks(es, ks) == es,
    decreases es.len(),
{
    if es.len() > 0 {
        let d = es.drop_last();
        assert forall|i: int| 0 <= i < d.len() implies ks.contains(#[trigger] block_key(d[i])) by {
            assert(d[i] == es[i]);
        }
        lemma_in_all_blocks(d, ks);
        assert(ks.contains(block_key(es[es.len() - 1])));
        assert(es =~= d.push(es.last()));
    }
}

/// Taking one more key adds the untagged elements of its block.
proof fn lemma_in_blocks_push(es: Seq<ElementView>, ks: Seq<(u8, i32, i32)>, k: (u8, i32, i32))
    requires
        !ks.contains(k),
    ensures
        tagless(in_blocks(es, ks.push(k))).to_multiset() == tagless(in_blocks(es, ks)).to_multiset().add(
            tagless(block_of(es, k)).to_multiset(),
        ),
    decreases es.len(),
{
    let ks2 = ks.push(k);
    if es.len() == 0 {
        assert(tagless(Seq::<ElementView>::empty()) =~= Seq::<ElementView>::empty());
        assert(Seq::<ElementView>::empty().to_multiset().add(Seq::<ElementView>::empty().to_multiset())
            =~= Seq::<ElementView>::empty().to_multiset());
    } else {
        let d = es.drop_last();
        let x = es.last();
        lemma_in_blocks_push(d, ks, k);
        let a = tagless(in_blocks(d, ks)).to_multiset();
        let b = tagless(block_of(d, k)).to_multiset();
        let y = without_tag(x);
        assert(ks2.contains(block_key(x)) <==> (ks.contains(block_key(x)) || block_key(x) == k)) by {
            if ks2.contains(block_key(x)) {
                let i = choose|i: int| 0 <= i < ks2.len() && ks2[i] == block_key(x);
                if i < ks.len() {
                    assert(ks[i] == block_key(x));
                }
            }
            if ks.contains(block_key(x)) {
                let i = choose|i: int| 0 <= i < ks.len() && ks[i] == block_key(x);
                assert(ks2[i] == block_key(x));
            }
            if block_key(x) == k {
                assert(ks2[ks.len() as int] == k);
            }
        }
        if ks.contains(block_key(x)) {
            assert(block_key(x) != k);
            lemma_tagless_push(in_blocks(d, ks2), x);
            lemma_tagless_push(in_blocks(d, ks), x);
            assert(a.add(b).insert(y) =~= a.insert(y).add(b));
        } else if block_key(x) == k {
            lemma_tagless_push(in_blocks(d, ks2), x);
            lemma_tagless_push(block_of(d, k), x);
            assert(a.add(b).insert(y) =~= a.add(b.insert(y)));
        }
    }
}

/// The blocks of distinct keys hold the untagged elements whose keys they
/// are.
proof fn lemma_blocks_elems_multiset(es: Seq<ElementView>, ks: Seq<(u8, i32, i32)>)
    requires
        ks.no_duplicates(),
    ensures
        blocks_elems(es, ks).to_multiset() == tagless(in_blocks(es, ks)).to_multiset(),
    decreases ks.len(),
{
    if ks.len() == 0 {
        lemma_in_no_blocks(es);
        assert(ks =~= Seq::<(u8, i32, i32)>::empty());
        assert(tagless(Seq::<ElementView>::empty()) =~= Seq::<ElementView>::empty());
        assert(blocks_elems(es, ks) =~= Seq::<ElementView>::empty());
    } else {
        let d = ks.drop_last();
        let k = ks.last();
        assert(d.no_duplicates()) by {
            assert forall|i: int, j: int| 0 <= i < d.len() && 0 <= j < d.len() && i != j implies d[i]
                != d[j] by {
                assert(d[i] == ks[i] && d[j] == ks[j]);
            }
        }
        assert(!d.contains(k)) by {
            if d.contains(k) {
                let i = choose|i: int| 0 <= i < d.len() && d[i] == k;
                assert(ks[i] == ks[ks.len() - 1]);
            }
        }
        lemma_blocks_elems_multiset(es, d);
        lemma_in_blocks_push(es, d, k);
        assert(ks =~= d.push(k));
        assert(block_of(es, k).map_values(|e: ElementView| without_tag(e)) =~= tagless(block_of(es, k)));
        vstd::seq_lib::lemma_multiset_commutative(
            blocks_elems(es, d),
            block_of(es, k).map_values(|e: ElementView| without_tag(e)),
        );
        assert(blocks_elems(es, ks) == blocks_elems(es, d) + block_of(es, k).map_values(
            |e: ElementView| without_tag(e),
        ));
        assert(blocks_elems(es, ks).to_multiset() == blocks_elems(es, d).to_multiset().add(
            tagless(block_of(es, k)).to_multiset(),
        ));
        assert(in_blocks(es, ks) == in_blocks(es, d.push(k)));
    }
}

/// The block keys of `es` hold the key of each of its elements.
proof fn lemma_block_keys_cover(es: Seq<ElementView>)
    ensures
        forall|i: int| 0 <= i < es.len() ==> block_keys(es).contains(#[trigger] block_key(es[i])),
    decreases es.len(),
{
    if es.len() > 0 {
        let d = es.drop_last();
        lemma_block_keys_cover(d);
        let ks = block_keys(d);
        let k = block_key(es.last());
        lemma_block_keys_sorted(d);
        let p = lower_key_pos(ks, k);
        lemma_lower_key_pos(ks, k);
        lemma_insert_key(ks, k, p);
        let ks2 = insert_key(ks, k);
        assert forall|i: int| 0 <= i < es.len() implies ks2.contains(#[trigger] block_key(es[i])) by {
            if i < d.len() {
                assert(d[i] == es[i]);
                assert(ks.contains(block_key(d[i])));
                let w = choose|w: int| 0 <= w < ks.len() && ks[w] == block_key(d[i]);
                if !(p < ks.len() && ks[p] == k) {
                    if w < p {
                        assert(ks2[w] == ks[w]);
                    } else {
                        assert(ks2[w + 1] == ks[w]);
                    }
                }
            } else {
                if p < ks.len() && ks[p] == k {
                    assert(ks2[p] == k);
                } else {
                    assert(ks2[p] == k);
                }
            }
        }
    }
}

/// Reading back the format-2 file written from a mesh gives every element
/// of the mesh, without its physical tag, as often as the mesh has it, and
/// no other.
pub proof fn lemma_v2_readback_keeps_elements(m: MeshView)
    ensures
        v2_readback(m).elements.to_multiset() == tagless(m.elements).to_multiset(),
        v2_readback(m).elements.len() == m.elements.len(),
{
    lemma_sort_by_id_tagless(m.elements);
    crate::msh_write::lemma_sort_by_id_sorted(m.elements);
}

/// Reading back the format-4 file written from a mesh gives every element
/// of the mesh, without its physical tag, as often as the mesh has it, and
/// no other.
pub proof fn lemma_v4_readback_keeps_elements(m: MeshView)
    ensures
        v4_readback(m).elements.to_multiset() == tagless(m.elements).to_multiset(),
        v4_readback(m).elements.len() == m.elements.len(),
{
    let es = sort_by_id(m.elements);
    let ks = block_keys(es);
    lemma_block_keys_sorted(es);
    assert(ks.no_duplicates()) by {
        assert forall|i: int, j: int| 0 <= i < ks.len() && 0 <= j < ks.len() && i != j implies ks[i]
            != ks[j] by {
            assert(keys_sorted(ks));
            if i < j {
                assert(crate::msh_write_v4::block_lt(ks[i], ks[j]));
            } else {
                assert(crate::msh_write_v4::block_lt(ks[j], ks[i]));
            }
        }
    }
    lemma_blocks_elems_multiset(es, ks);
    lemma_block_keys_cover(es);
    lemma_in_all_blocks(es, ks);
    lemma_sort_by_id_tagless(m.elements);
    vstd::seq_lib::to_multiset_len(blocks_elems(es, ks));
    vstd::seq_lib::to_multiset_len(tagless(m.elements));
}

} // verus!
