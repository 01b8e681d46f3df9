//! What reading back a written format-4 MSH file gives.
use vstd::prelude::*;

use crate::element::{
    lemma_gmsh_type_id_roundtrip, spec_from_gmsh_type_id, spec_gmsh_type_id, ElementView,
};
use crate::mesh::{lemma_pairs_to_map, name_pairs, node_pairs, pairs_to_map, Mesh, MeshView, PointView};
use crate::msh_laws::{
    all_plain, clean_name, id_words, insert_all, lemma_all_plain_append, lemma_count_line,
    lemma_dec_int_word, lemma_dec_word, lemma_id_list, lemma_insert_all, lemma_insert_all_names,
    lemma_keyword_line, lemma_keywords, lemma_name_line_plain, lemma_names_section,
    lemma_sort_from, lemma_spaced_small, lemma_validate_supported, lemma_word_line, literal_point,
    plain_line, without_tag, writable,
};
use crate::msh_spec::{
    all_u64, element_blocks_v4, element_lines_v4, empty_mesh, float_words, kw_elements,
    kw_end_elements, kw_end_mesh_format, kw_end_nodes, kw_mesh_format, kw_nodes,
    kw_physical_names, node_blocks_v4, parse_from, read_coords, read_tags, some_u64,
    spec_parse_msh, spec_section, starts_with, words, MshErrorView, MshVersion,
};
use crate::msh_write::{
    dec_i, dec_u, format_lines, name_line, names_lines, sort_by_id, spec_validate, type_number,
    version_v4,
};
use crate::msh_write_v4::{
    block_key, block_keys, block_lines, block_of, blocks_lines, coord_line, element_line_v4,
    elements_lines_v4, insert_key, max_dim, nodes_lines_v4, v4_lines, v4_text, words4, zeros4,
};
use crate::text::{dec, lemma_parse_dec, lemma_parse_dec_int, no_ws, spaced, split_ws, trim};
use crate::text_laws::{good_words, lemma_float_literal_word, lemma_lines_of_joined, no_newline};

verus! {

// ─── What a written file reads back as ───────────────────────────────────────

/// The elements of the blocks `ks` of `es`, block after block, without
/// their physical tags.
pub open spec fn blocks_elems(es: Seq<ElementView>, ks: Seq<(u8, i32, i32)>) -> Seq<ElementView>
    decreases ks.len(),
{
    if ks.len() == 0 {
        seq![]
    } else {
        blocks_elems(es, ks.drop_last()) + block_of(es, ks.last()).map_values(
            |e: ElementView| without_tag(e),
        )
    }
}

/// What reading back the format-4 file of `m` gives: the same nodes and
/// names; the elements sorted by ID, then grouped by block in increasing
/// key order, without their physical tags.
pub open spec fn v4_readback(m: MeshView) -> MeshView {
    MeshView {
        nodes: m.nodes,
        elements: blocks_elems(sort_by_id(m.elements), block_keys(sort_by_id(m.elements))),
        physical_names: m.physical_names,
    }
}

// ─── Lines ───────────────────────────────────────────────────────────────────

/// A line of four good words.
proof fn lemma_words4_line(a: Seq<char>, b: Seq<char>, c: Seq<char>, d: Seq<char>)
    requires
        a.len() > 0 && no_ws(a),
        b.len() > 0 && no_ws(b),
        c.len() > 0 && no_ws(c),
        d.len() > 0 && no_ws(d),
    ensures
        trim(words4(a, b, c, d)) == words4(a, b, c, d),
        split_ws(trim(words4(a, b, c, d))) == seq![a, b, c, d],
        plain_line(words4(a, b, c, d)),
{
    let ws = seq![b, c, d];
    assert(good_words(ws));
    lemma_spaced_small(b, c, d);
    assert(words4(a, b, c, d) =~= a + spaced(ws));
    lemma_word_line(a, ws);
    assert(seq![a] + ws =~= seq![a, b, c, d]);
}

/// `0 0 0 0` is the line of four zeros.
proof fn lemma_zeros4()
    ensures
        dec(0) == seq!['0'],
        zeros4() == words4(dec(0), dec(0), dec(0), dec(0)),
        trim(zeros4()) == zeros4(),
        split_ws(trim(zeros4())) == seq![dec(0), dec(0), dec(0), dec(0)],
        plain_line(zeros4()),
        crate::text::parse_usize(dec(0)) == Some(0usize),
{
    assert(dec(0) =~= seq!['0']);
    lemma_dec_word(0);
    lemma_parse_dec(0);
    assert(zeros4() =~= words4(dec(0), dec(0), dec(0), dec(0)));
    lemma_words4_line(dec(0), dec(0), dec(0), dec(0));
}

/// A number on a line of its own.
proof fn lemma_number_line(n: nat)
    ensures
        trim(dec(n)) == dec(n),
        plain_line(dec(n)),
        dec(n).len() > 0,
        no_ws(dec(n)),
{
    lemma_dec_word(n);
    lemma_keyword_line(dec(n));
}

/// A coordinate line splits into its three literals.
proof fn lemma_coord_line(p: PointView)
    requires
        literal_point((0, p)),
    ensures
        trim(coord_line(p)) == coord_line(p),
        split_ws(trim(coord_line(p))) == seq![p.0, p.1, p.2],
        float_words(seq![p.0, p.1, p.2]) == seq![p.0, p.1, p.2],
        plain_line(coord_line(p)),
{
    lemma_float_literal_word(p.0);
    lemma_float_literal_word(p.1);
    lemma_float_literal_word(p.2);
    let ws = seq![p.1, p.2];
    assert(good_words(ws));
    lemma_spaced_small(p.1, p.2, p.2);
    assert(coord_line(p) =~= p.0 + spaced(ws));
    lemma_word_line(p.0, ws);
    assert(seq![p.0] + ws =~= seq![p.0, p.1, p.2]);
    let s = seq![p.0, p.1, p.2];
    assert(s.drop_last() =~= seq![p.0, p.1]);
    assert(seq![p.0, p.1].drop_last() =~= seq![p.0]);
    assert(seq![p.0].drop_last() =~= Seq::<Seq<char>>::empty());
    assert(float_words(Seq::<Seq<char>>::empty()) =~= Seq::<Seq<char>>::empty());
    assert(Seq::<Seq<char>>::empty().push(p.0) =~= seq![p.0]);
    assert(float_words(seq![p.0]) =~= seq![p.0]);
    assert(float_words(seq![p.0, p.1]) =~= seq![p.0, p.1]);
    assert(float_words(s) =~= s);
}

/// The words that all read as numbers read as the same numbers one by one.
proof fn lemma_some_all(ws: Seq<Seq<char>>, r: Seq<u64>)
    requires
        all_u64(ws) == Some(r),
    ensures
        some_u64(ws) == r,
    decreases ws.len(),
{
    if ws.len() > 0 {
        let r0 = all_u64(ws.drop_last())->0;
        lemma_some_all(ws.drop_last(), r0);
    }
}

/// A format-4 element line splits into its ID and node IDs.
proof fn lemma_element_line_v4(e: ElementView)
    ensures
        trim(element_line_v4(e)) == element_line_v4(e),
        some_u64(split_ws(trim(element_line_v4(e)))) == seq![e.id] + e.node_ids,
        plain_line(element_line_v4(e)),
{
    lemma_id_list(e.node_ids);
    lemma_dec_word(e.id as nat);
    lemma_word_line(dec_u(e.id), id_words(e.node_ids));
    let all = seq![e.id] + e.node_ids;
    assert(seq![dec_u(e.id)] + id_words(e.node_ids) =~= id_words(all));
    lemma_id_list(all);
    lemma_some_all(id_words(all), all);
}

// ─── The format section ──────────────────────────────────────────────────────

proof fn lemma_format_section_v4(lines: Seq<Seq<char>>, m: MeshView)
    requires
        lines.len() >= 3,
        lines[0] == kw_mesh_format(),
        lines[1] == version_v4(),
        lines[2] == kw_end_mesh_format(),
    ensures
        spec_section(lines, 0, MshVersion::V4, m) == Ok::<
            (MshVersion, MeshView, int),
            MshErrorView,
        >((MshVersion::V4, m, 3)),
{
    lemma_keywords();
    let v = seq!['4', '.', '1'];
    let ws = seq![seq!['0'], seq!['8']];
    assert(no_ws(v));
    assert(good_words(ws)) by {
        assert(no_ws(ws[0]));
        assert(no_ws(ws[1]));
    }
    lemma_spaced_small(seq!['0'], seq!['8'], seq!['8']);
    assert(version_v4() =~= v + spaced(ws));
    lemma_word_line(v, ws);
    assert(words(lines, 1) =~= seq![v] + ws);
    assert(v.take(2) =~= seq!['4', '.']);
    assert(starts_with(v, seq!['4', '.']));
    assert(!starts_with(v, seq!['2', '.']));
}

// ─── The nodes section ───────────────────────────────────────────────────────

/// Reading the ID lines of `np`.
proof fn lemma_read_tags(lines: Seq<Seq<char>>, i: int, np: Seq<(u64, PointView)>)
    requires
        0 <= i,
        i + np.len() <= lines.len(),
        forall|j: int| 0 <= j < np.len() ==> lines[i + j] == dec_u((#[trigger] np[j]).0),
    ensures
        read_tags(lines, i, np.len()) == Ok::<Seq<u64>, MshErrorView>(
            np.map_values(|p: (u64, PointView)| p.0),
        ),
    decreases np.len(),
{
    if np.len() > 0 {
        assert(lines[i + 0] == dec_u(np[0].0));
        lemma_number_line(np[0].0 as nat);
        lemma_parse_dec(np[0].0 as nat);
        let t = np.drop_first();
        assert forall|j: int| 0 <= j < t.len() implies lines[(i + 1) + j] == dec_u(
            (#[trigger] t[j]).0,
        ) by {
            assert(lines[i + (j + 1)] == dec_u(np[j + 1].0));
        }
        lemma_read_tags(lines, i + 1, t);
        assert(seq![np[0].0] + t.map_values(|p: (u64, PointView)| p.0) =~= np.map_values(
            |p: (u64, PointView)| p.0,
        ));
    } else {
        assert(np.map_values(|p: (u64, PointView)| p.0) =~= Seq::<u64>::empty());
    }
}

/// Reading the coordinate lines of `np` inserts its nodes in order.
proof fn lemma_read_coords(lines: Seq<Seq<char>>, i: int, np: Seq<(u64, PointView)>, m: MeshView)
    requires
        0 <= i,
        i + np.len() <= lines.len(),
        forall|j: int| 0 <= j < np.len() ==> lines[i + j] == coord_line((#[trigger] np[j]).1),
        forall|j: int| 0 <= j < np.len() ==> literal_point(#[trigger] np[j]),
    ensures
        read_coords(lines, i, np.map_values(|p: (u64, PointView)| p.0), m) == Ok::<
            MeshView,
            MshErrorView,
        >(MeshView { nodes: insert_all(m.nodes, np), ..m }),
    decreases np.len(),
{
    let tags = np.map_values(|p: (u64, PointView)| p.0);
    if np.len() > 0 {
        let p = np[0];
        assert(lines[i + 0] == coord_line(np[0].1));
        assert(literal_point(np[0]));
        lemma_coord_line(p.1);
        let t = np.drop_first();
        assert forall|j: int| 0 <= j < t.len() implies lines[(i + 1) + j] == coord_line(
            (#[trigger] t[j]).1,
        ) by {
            assert(lines[i + (j + 1)] == coord_line(np[j + 1].1));
        }
        assert forall|j: int| 0 <= j < t.len() implies literal_point(#[trigger] t[j]) by {
            assert(literal_point(np[j + 1]));
        }
        let m2 = MeshView { nodes: m.nodes.insert(p.0, p.1), ..m };
        lemma_read_coords(lines, i + 1, t, m2);
        assert(tags.drop_first() =~= t.map_values(|p: (u64, PointView)| p.0));
        assert(tags[0] == p.0);
        assert(words(lines, i) == seq![p.1.0, p.1.1, p.1.2]);
    } else {
        assert(MeshView { nodes: insert_all(m.nodes, np), ..m } == m);
    }
}

/// The nodes of an empty nodes section.
proof fn lemma_nodes_v4_empty(lines: Seq<Seq<char>>, p: int, dim: u8, m: MeshView)
    requires
        0 <= p,
        p + 2 < lines.len(),
        lines[p + 1] == zeros4(),
        lines[p + 2] == kw_end_nodes(),
    ensures
        crate::msh_spec::spec_nodes_v4(lines, p + 1, m) == Ok::<(MeshView, int), MshErrorView>(
            (m, p + 3),
        ),
{
    lemma_keywords();
    lemma_zeros4();
    assert(words(lines, p + 1) == seq![dec(0), dec(0), dec(0), dec(0)]);
    assert(node_blocks_v4(lines, p + 2, 0, m) == Ok::<(MeshView, int), MshErrorView>((m, p + 3)));
}

/// The nodes of a nodes section holding one block.
proof fn lemma_nodes_v4_block(
    lines: Seq<Seq<char>>,
    p: int,
    np: Seq<(u64, PointView)>,
    dim: u8,
    m: MeshView,
)
    requires
        0 <= p,
        np.len() > 0,
        np.len() <= usize::MAX,
        p + 1 + nodes_lines_v4(np, dim).len() < lines.len(),
        forall|j: int|
            0 <= j < nodes_lines_v4(np, dim).len() ==> lines[p + 1 + j] == #[trigger] nodes_lines_v4(
                np,
                dim,
            )[j],
        lines[p + 1 + nodes_lines_v4(np, dim).len()] == kw_end_nodes(),
        forall|j: int| 0 <= j < np.len() ==> literal_point(#[trigger] np[j]),
    ensures
        crate::msh_spec::spec_nodes_v4(lines, p + 1, m) == Ok::<(MeshView, int), MshErrorView>(
            (
                MeshView { nodes: insert_all(m.nodes, np), ..m },
                p + 2 + nodes_lines_v4(np, dim).len(),
            ),
        ),
{
    lemma_keywords();
    let nl = nodes_lines_v4(np, dim);
    let n = np.len();
    lemma_number_line(1);
    lemma_number_line(n);
    lemma_number_line(0);
    lemma_number_line(dim as nat);
    lemma_number_line(np[0].0 as nat);
    lemma_number_line(np.last().0 as nat);
    lemma_parse_dec(1);
    lemma_parse_dec(n);
    lemma_words4_line(dec(1), dec(n), dec_u(np[0].0), dec_u(np.last().0));
    lemma_words4_line(dec(dim as nat), dec(1), dec(0), dec(n));
    assert(lines[p + 1 + 0] == nl[0]);
    assert(lines[p + 1 + 1] == nl[1]);
    assert(words(lines, p + 1) == seq![dec(1), dec(n), dec_u(np[0].0), dec_u(np.last().0)]);
    assert(words(lines, p + 2) == seq![dec(dim as nat), dec(1), dec(0), dec(n)]);
    assert forall|j: int| 0 <= j < np.len() implies lines[(p + 3) + j] == dec_u(
        (#[trigger] np[j]).0,
    ) by {
        assert(lines[p + 1 + (2 + j)] == nl[2 + j]);
    }
    lemma_read_tags(lines, p + 3, np);
    assert forall|j: int| 0 <= j < np.len() implies lines[(p + 3 + n) + j] == coord_line(
        (#[trigger] np[j]).1,
    ) by {
        assert(lines[p + 1 + (2 + n + j)] == nl[2 + n + j]);
    }
    lemma_read_coords(lines, p + 3 + n, np, m);
    assert(nl.len() == 2 + 2 * n);
    let m2 = MeshView { nodes: insert_all(m.nodes, np), ..m };
    assert(node_blocks_v4(lines, p + 3 + 2 * n, 0, m2) == Ok::<(MeshView, int), MshErrorView>(
        (m2, p + 4 + 2 * n),
    ));
}

/// The nodes section of a format-4 file inserts its nodes.
proof fn lemma_nodes_section_v4(
    lines: Seq<Seq<char>>,
    p: int,
    np: Seq<(u64, PointView)>,
    dim: u8,
    m: MeshView,
)
    requires
        0 <= p,
        p + 1 + nodes_lines_v4(np, dim).len() < lines.len(),
        np.len() <= usize::MAX,
        lines[p] == kw_nodes(),
        forall|j: int|
            0 <= j < nodes_lines_v4(np, dim).len() ==> lines[p + 1 + j] == #[trigger] nodes_lines_v4(
                np,
                dim,
            )[j],
        lines[p + 1 + nodes_lines_v4(np, dim).len()] == kw_end_nodes(),
        forall|j: int| 0 <= j < np.len() ==> literal_point(#[trigger] np[j]),
    ensures
        spec_section(lines, p, MshVersion::V4, m) == Ok::<
            (MshVersion, MeshView, int),
            MshErrorView,
        >(
            (
                MshVersion::V4,
                MeshView { nodes: insert_all(m.nodes, np), ..m },
                p + 2 + nodes_lines_v4(np, dim).len(),
            ),
        ),
{
    lemma_keywords();
    assert(kw_nodes() != kw_mesh_format());
    assert(kw_nodes() != kw_physical_names());
    let nl = nodes_lines_v4(np, dim);
    if np.len() == 0 {
        assert(lines[p + 1 + 0] == nl[0]);
        lemma_nodes_v4_empty(lines, p, dim, m);
        assert(MeshView { nodes: insert_all(m.nodes, np), ..m } == m);
    } else {
        lemma_nodes_v4_block(lines, p, np, dim, m);
    }
}

// ─── The elements section ────────────────────────────────────────────────────

/// The elements of a block have its key and come from `es`; there are no
/// more of them than elements.
proof fn lemma_block_of(es: Seq<ElementView>, k: (u8, i32, i32))
    ensures
        block_of(es, k).len() <= es.len(),
        forall|j: int|
            0 <= j < block_of(es, k).len() ==> block_key(#[trigger] block_of(es, k)[j]) == k
                && es.contains(block_of(es, k)[j]),
    decreases es.len(),
{
    if es.len() > 0 {
        let t = es.drop_last();
        lemma_block_of(t, k);
        let b = block_of(es, k);
        assert forall|j: int| 0 <= j < b.len() implies block_key(#[trigger] b[j]) == k
            && es.contains(b[j]) by {
            if j < block_of(t, k).len() {
                assert(b[j] == block_of(t, k)[j]);
                let i = choose|i: int| 0 <= i < t.len() && t[i] == b[j];
                assert(es[i] == b[j]);
            } else {
                assert(b[j] == es.last());
                assert(es[es.len() - 1] == b[j]);
            }
        }
    }
}

/// Adding a key adds at most one key.
proof fn lemma_insert_key_len(ks: Seq<(u8, i32, i32)>, k: (u8, i32, i32))
    ensures
        insert_key(ks, k).len() <= ks.len() + 1,
    decreases ks.len(),
{
    if ks.len() > 0 {
        lemma_insert_key_len(ks.drop_last(), k);
    }
}

/// There are no more blocks than elements.
proof fn lemma_block_keys_len(es: Seq<ElementView>)
    ensures
        block_keys(es).len() <= es.len(),
    decreases es.len(),
{
    if es.len() > 0 {
        lemma_block_keys_len(es.drop_last());
        lemma_insert_key_len(block_keys(es.drop_last()), block_key(es.last()));
    }
}

/// The lines of the blocks, first block first.
proof fn lemma_blocks_lines_front(es: Seq<ElementView>, ks: Seq<(u8, i32, i32)>)
    requires
        ks.len() > 0,
    ensures
        blocks_lines(es, ks) == block_lines(ks[0], block_of(es, ks[0])) + blocks_lines(
            es,
            ks.drop_first(),
        ),
        blocks_elems(es, ks) == block_of(es, ks[0]).map_values(|e: ElementView| without_tag(e))
            + blocks_elems(es, ks.drop_first()),
    decreases ks.len(),
{
    if ks.len() == 1 {
        assert(ks.drop_last() =~= Seq::<(u8, i32, i32)>::empty());
        assert(ks.last() == ks[0]);
        assert(blocks_elems(es, ks.drop_last()) =~= Seq::<ElementView>::empty());
        assert(blocks_lines(es, ks.drop_last()) =~= Seq::<Seq<char>>::empty());
        assert(blocks_elems(es, ks.drop_first()) =~= Seq::<ElementView>::empty());
        assert(blocks_lines(es, ks.drop_first()) =~= Seq::<Seq<char>>::empty());
        assert(ks.drop_first() =~= Seq::<(u8, i32, i32)>::empty());
        assert(blocks_lines(es, ks) =~= block_lines(ks[0], block_of(es, ks[0])));
        assert(blocks_elems(es, ks) =~= block_of(es, ks[0]).map_values(
            |e: ElementView| without_tag(e),
        ));
    } else {
        let t = ks.drop_last();
        lemma_blocks_lines_front(es, t);
        assert(t.drop_first() =~= ks.drop_first().drop_last());
        assert(ks.drop_first().last() == ks.last());
        assert(t[0] == ks[0]);
    }
}

/// Reading the element lines of a block appends its elements without tags.
proof fn lemma_element_lines_v4(
    lines: Seq<Seq<char>>,
    i: int,
    b: Seq<ElementView>,
    et: crate::element::ElementType,
    m: MeshView,
)
    requires
        0 <= i,
        i + b.len() <= lines.len(),
        forall|j: int| 0 <= j < b.len() ==> lines[i + j] == element_line_v4(#[trigger] b[j]),
        forall|j: int| 0 <= j < b.len() ==> (#[trigger] b[j]).etype == et,
    ensures
        element_lines_v4(lines, i, b.len(), et, m) == Ok::<(MeshView, int), MshErrorView>(
            (
                MeshView {
                    elements: m.elements + b.map_values(|e: ElementView| without_tag(e)),
                    ..m
                },
                i + b.len(),
            ),
        ),
    decreases b.len(),
{
    if b.len() == 0 {
        assert(m.elements + b.map_values(|e: ElementView| without_tag(e)) =~= m.elements);
    } else {
        let e = b[0];
        assert(lines[i + 0] == element_line_v4(b[0]));
        lemma_element_line_v4(e);
        let vals = seq![e.id] + e.node_ids;
        assert(some_u64(words(lines, i)) == vals);
        assert(vals.drop_first() =~= e.node_ids);
        let t = b.drop_first();
        assert forall|j: int| 0 <= j < t.len() implies lines[(i + 1) + j] == element_line_v4(
            #[trigger] t[j],
        ) by {
            assert(lines[i + (j + 1)] == element_line_v4(b[j + 1]));
        }
        assert forall|j: int| 0 <= j < t.len() implies (#[trigger] t[j]).etype == et by {
            assert(b[j + 1].etype == et);
        }
        let m2 = MeshView { elements: m.elements.push(without_tag(e)), ..m };
        lemma_element_lines_v4(lines, i + 1, t, et, m2);
        assert(m2.elements + t.map_values(|e: ElementView| without_tag(e)) =~= m.elements
            + b.map_values(|e: ElementView| without_tag(e)));
    }
}

/// Reading a block of a format-4 file.
proof fn lemma_block_v4(
    lines: Seq<Seq<char>>,
    i: int,
    k: (u8, i32, i32),
    b: Seq<ElementView>,
    nb: nat,
    m: MeshView,
)
    requires
        0 <= i,
        i + block_lines(k, b).len() < lines.len(),
        b.len() <= usize::MAX,
        forall|j: int|
            0 <= j < block_lines(k, b).len() ==> lines[i + j] == #[trigger] block_lines(k, b)[j],
        forall|j: int| 0 <= j < b.len() ==> block_key(#[trigger] b[j]) == k,
        forall|j: int| 0 <= j < b.len() ==> spec_gmsh_type_id((#[trigger] b[j]).etype) is Some,
    ensures
        element_blocks_v4(lines, i, nb + 1, m) == element_blocks_v4(
            lines,
            i + block_lines(k, b).len(),
            nb,
            MeshView {
                elements: m.elements + b.map_values(|e: ElementView| without_tag(e)),
                ..m
            },
        ),
{
    let bl = block_lines(k, b);
    lemma_number_line(k.0 as nat);
    lemma_number_line(b.len());
    lemma_dec_int_word(k.1);
    lemma_dec_int_word(k.2);
    lemma_parse_dec_int(k.2);
    lemma_parse_dec(b.len());
    lemma_words4_line(dec(k.0 as nat), dec_i(k.1), dec_i(k.2), dec(b.len()));
    assert(lines[i + 0] == bl[0]);
    assert(words(lines, i) == seq![dec(k.0 as nat), dec_i(k.1), dec_i(k.2), dec(b.len())]);
    let et = spec_from_gmsh_type_id(k.2);
    assert forall|j: int| 0 <= j < b.len() implies (#[trigger] b[j]).etype == et by {
        assert(block_key(b[j]) == k);
        assert(spec_gmsh_type_id(b[j].etype) is Some);
        lemma_gmsh_type_id_roundtrip(b[j].etype, 0);
    }
    assert forall|j: int| 0 <= j < b.len() implies lines[(i + 1) + j] == element_line_v4(
        #[trigger] b[j],
    ) by {
        assert(lines[i + (1 + j)] == bl[1 + j]);
    }
    lemma_element_lines_v4(lines, i + 1, b, et, m);
}

/// Reading the blocks `ks` of a format-4 file.
proof fn lemma_blocks_v4(
    lines: Seq<Seq<char>>,
    i: int,
    es: Seq<ElementView>,
    ks: Seq<(u8, i32, i32)>,
    m: MeshView,
)
    requires
        0 <= i,
        i + blocks_lines(es, ks).len() < lines.len(),
        es.len() <= usize::MAX,
        forall|j: int|
            0 <= j < blocks_lines(es, ks).len() ==> lines[i + j] == #[trigger] blocks_lines(
                es,
                ks,
            )[j],
        lines[i + blocks_lines(es, ks).len()] == kw_end_elements(),
        forall|j: int| 0 <= j < es.len() ==> spec_gmsh_type_id((#[trigger] es[j]).etype) is Some,
    ensures
        element_blocks_v4(lines, i, ks.len(), m) == Ok::<(MeshView, int), MshErrorView>(
            (
                MeshView { elements: m.elements + blocks_elems(es, ks), ..m },
                i + blocks_lines(es, ks).len() + 1,
            ),
        ),
    decreases ks.len(),
{
    lemma_keywords();
    if ks.len() == 0 {
        assert(m.elements + blocks_elems(es, ks) =~= m.elements);
    } else {
        let k = ks[0];
        let b = block_of(es, k);
        let bl = block_lines(k, b);
        let rest = ks.drop_first();
        lemma_blocks_lines_front(es, ks);
        lemma_block_of(es, k);
        assert forall|j: int| 0 <= j < b.len() implies spec_gmsh_type_id(
            (#[trigger] b[j]).etype,
        ) is Some by {
            assert(es.contains(b[j]));
            let q = choose|q: int| 0 <= q < es.len() && es[q] == b[j];
            assert(spec_gmsh_type_id(es[q].etype) is Some);
        }
        assert forall|j: int| 0 <= j < bl.len() implies lines[i + j] == #[trigger] bl[j] by {
            assert(blocks_lines(es, ks)[j] == bl[j]);
        }
        lemma_block_v4(lines, i, k, b, rest.len(), m);
        let m2 = MeshView {
            elements: m.elements + b.map_values(|e: ElementView| without_tag(e)),
            ..m
        };
        let rl = blocks_lines(es, rest);
        assert forall|j: int| 0 <= j < rl.len() implies lines[(i + bl.len()) + j]
            == #[trigger] rl[j] by {
            assert(blocks_lines(es, ks)[bl.len() + j] == rl[j]);
            assert(lines[i + (bl.len() + j)] == blocks_lines(es, ks)[bl.len() + j]);
        }
        lemma_blocks_v4(lines, i + bl.len(), es, rest, m2);
        assert(m2.elements + blocks_elems(es, rest) =~= m.elements + blocks_elems(es, ks));
    }
}

/// The elements section of a format-4 file appends its elements, block by
/// block.
proof fn lemma_elements_section_v4(lines: Seq<Seq<char>>, p: int, es: Seq<ElementView>, m: MeshView)
    requires
        0 <= p,
        p + 1 + elements_lines_v4(es).len() < lines.len(),
        es.len() <= usize::MAX,
        lines[p] == kw_elements(),
        forall|j: int|
            0 <= j < elements_lines_v4(es).len() ==> lines[p + 1 + j]
                == #[trigger] elements_lines_v4(es)[j],
        lines[p + 1 + elements_lines_v4(es).len()] == kw_end_elements(),
        forall|j: int| 0 <= j < es.len() ==> spec_gmsh_type_id((#[trigger] es[j]).etype) is Some,
    ensures
        spec_section(lines, p, MshVersion::V4, m) == Ok::<
            (MshVersion, MeshView, int),
            MshErrorView,
        >(
            (
                MshVersion::V4,
                MeshView { elements: m.elements + blocks_elems(es, block_keys(es)), ..m },
                p + 2 + elements_lines_v4(es).len(),
            ),
        ),
{
    lemma_keywords();
    assert(kw_elements() != kw_mesh_format());
    assert(kw_elements() != kw_physical_names());
    assert(kw_elements() != kw_nodes());
    let el = elements_lines_v4(es);
    lemma_zeros4();
    assert(lines[p + 1 + 0] == el[0]);
    if es.len() == 0 {
        assert(block_keys(es) =~= Seq::<(u8, i32, i32)>::empty());
        assert(m.elements + blocks_elems(es, block_keys(es)) =~= m.elements);
    } else {
        let ks = block_keys(es);
        lemma_block_keys_len(es);
        lemma_number_line(ks.len());
        lemma_number_line(es.len());
        lemma_number_line(es[0].id as nat);
        lemma_number_line(es.last().id as nat);
        lemma_parse_dec(ks.len());
        lemma_words4_line(dec(ks.len()), dec(es.len()), dec_u(es[0].id), dec_u(es.last().id));
        assert(words(lines, p + 1) == seq![
            dec(ks.len()),
            dec(es.len()),
            dec_u(es[0].id),
            dec_u(es.last().id),
        ]);
        let bl = blocks_lines(es, ks);
        assert forall|j: int| 0 <= j < bl.len() implies lines[(p + 2) + j] == #[trigger] bl[j] by {
            assert(lines[p + 1 + (1 + j)] == el[1 + j]);
        }
        lemma_blocks_v4(lines, p + 2, es, ks, m);
    }
}

// ─── Writing then reading ────────────────────────────────────────────────────

/// Every line of a block is plain.
proof fn lemma_block_lines_plain(k: (u8, i32, i32), b: Seq<ElementView>)
    ensures
        all_plain(block_lines(k, b)),
{
    lemma_number_line(k.0 as nat);
    lemma_number_line(b.len());
    lemma_dec_int_word(k.1);
    lemma_dec_int_word(k.2);
    lemma_words4_line(dec(k.0 as nat), dec_i(k.1), dec_i(k.2), dec(b.len()));
    let h = seq![words4(dec(k.0 as nat), dec_i(k.1), dec_i(k.2), dec(b.len()))];
    let el = b.map_values(|e: ElementView| element_line_v4(e));
    assert forall|q: int| 0 <= q < el.len() implies plain_line(#[trigger] el[q]) by {
        lemma_element_line_v4(b[q]);
    }
    assert(all_plain(h));
    lemma_all_plain_append(h, el);
}

/// Every line of the blocks is plain.
proof fn lemma_blocks_lines_plain(es: Seq<ElementView>, ks: Seq<(u8, i32, i32)>)
    ensures
        all_plain(blocks_lines(es, ks)),
    decreases ks.len(),
{
    if ks.len() > 0 {
        lemma_blocks_lines_plain(es, ks.drop_last());
        lemma_block_lines_plain(ks.last(), block_of(es, ks.last()));
        lemma_all_plain_append(
            blocks_lines(es, ks.drop_last()),
            block_lines(ks.last(), block_of(es, ks.last())),
        );
    }
}

/// Every line of a format-4 file is plain.
proof fn lemma_v4_lines_plain(
    np: Seq<(u64, PointView)>,
    es: Seq<ElementView>,
    ns: Seq<((i32, i32), Seq<char>)>,
)
    requires
        crate::msh_laws::v2_parts_ok(np, es, ns),
    ensures
        all_plain(v4_lines(np, es, ns)),
{
    lemma_keywords();
    lemma_zeros4();
    lemma_count_line(ns.len());
    let a = format_lines(version_v4());
    assert(plain_line(version_v4()));
    assert(all_plain(a));
    let b = names_lines(ns);
    if ns.len() > 0 {
        let nm = ns.map_values(|p: ((i32, i32), Seq<char>)| name_line(p));
        assert forall|q: int| 0 <= q < nm.len() implies plain_line(#[trigger] nm[q]) by {
            lemma_name_line_plain(ns[q]);
        }
        let b0 = seq![crate::msh_spec::kw_physical_names(), dec(ns.len())];
        let b1 = seq![crate::msh_spec::kw_end_physical_names()];
        assert(all_plain(b0));
        assert(all_plain(b1));
        lemma_all_plain_append(b0, nm);
        lemma_all_plain_append(b0 + nm, b1);
    }
    assert(all_plain(b));
    let c = seq![kw_nodes()];
    assert(all_plain(c));
    let dim = max_dim(es);
    let nl = nodes_lines_v4(np, dim);
    if np.len() > 0 {
        let n = np.len();
        lemma_number_line(1);
        lemma_number_line(n);
        lemma_number_line(0);
        lemma_number_line(dim as nat);
        lemma_number_line(np[0].0 as nat);
        lemma_number_line(np.last().0 as nat);
        lemma_words4_line(dec(1), dec(n), dec_u(np[0].0), dec_u(np.last().0));
        lemma_words4_line(dec(dim as nat), dec(1), dec(0), dec(n));
        let h = seq![
            words4(dec(1), dec(n), dec_u(np[0].0), dec_u(np.last().0)),
            words4(dec(dim as nat), dec(1), dec(0), dec(n)),
        ];
        let ids = np.map_values(|p: (u64, PointView)| dec_u(p.0));
        let cs = np.map_values(|p: (u64, PointView)| coord_line(p.1));
        assert forall|q: int| 0 <= q < ids.len() implies plain_line(#[trigger] ids[q]) by {
            lemma_number_line(np[q].0 as nat);
        }
        assert forall|q: int| 0 <= q < cs.len() implies plain_line(#[trigger] cs[q]) by {
            lemma_coord_line(np[q].1);
        }
        assert(all_plain(h));
        lemma_all_plain_append(h, ids);
        lemma_all_plain_append(h + ids, cs);
    }
    assert(all_plain(nl));
    let d = seq![kw_end_nodes(), kw_elements()];
    assert(all_plain(d));
    let el = elements_lines_v4(es);
    if es.len() > 0 {
        let ks = block_keys(es);
        lemma_number_line(ks.len());
        lemma_number_line(es.len());
        lemma_number_line(es[0].id as nat);
        lemma_number_line(es.last().id as nat);
        lemma_words4_line(dec(ks.len()), dec(es.len()), dec_u(es[0].id), dec_u(es.last().id));
        let h = seq![words4(dec(ks.len()), dec(es.len()), dec_u(es[0].id), dec_u(es.last().id))];
        assert(all_plain(h));
        lemma_blocks_lines_plain(es, ks);
        lemma_all_plain_append(h, blocks_lines(es, ks));
    }
    assert(all_plain(el));
    let f = seq![kw_end_elements()];
    assert(all_plain(f));
    lemma_all_plain_append(a, b);
    lemma_all_plain_append(a + b, c);
    lemma_all_plain_append(a + b + c, nl);
    lemma_all_plain_append(a + b + c + nl, d);
    lemma_all_plain_append(a + b + c + nl + d, el);
    lemma_all_plain_append(a + b + c + nl + d + el, f);
}

/// Where each part of a format-4 file stands among its lines.
proof fn lemma_v4_lines_layout(
    np: Seq<(u64, PointView)>,
    es: Seq<ElementView>,
    ns: Seq<((i32, i32), Seq<char>)>,
)
    ensures
        ({
            let lines = v4_lines(np, es, ns);
            let h = names_lines(ns).len() as int;
            let nl = nodes_lines_v4(np, max_dim(es));
            let el = elements_lines_v4(es);
            let p = 3 + h;
            let p2 = p + 2 + nl.len();
            &&& lines.len() == p2 + 2 + el.len()
            &&& lines[0] == kw_mesh_format()
            &&& lines[1] == version_v4()
            &&& lines[2] == kw_end_mesh_format()
            &&& forall|j: int| 0 <= j < h ==> lines[3 + j] == #[trigger] names_lines(ns)[j]
            &&& lines[p] == kw_nodes()
            &&& forall|j: int| 0 <= j < nl.len() ==> lines[p + 1 + j] == #[trigger] nl[j]
            &&& lines[p + 1 + nl.len()] == kw_end_nodes()
            &&& lines[p2] == kw_elements()
            &&& forall|j: int| 0 <= j < el.len() ==> lines[p2 + 1 + j] == #[trigger] el[j]
            &&& lines[p2 + 1 + el.len()] == kw_end_elements()
        }),
{
    let lines = v4_lines(np, es, ns);
    let a = format_lines(version_v4());
    let b = names_lines(ns);
    let c = seq![kw_nodes()];
    let nl = nodes_lines_v4(np, max_dim(es));
    let d = seq![kw_end_nodes(), kw_elements()];
    let el = elements_lines_v4(es);
    let f = seq![kw_end_elements()];
    let h = b.len() as int;
    let p = 3 + h;
    let p2 = p + 2 + nl.len();
    assert(lines == a + b + c + nl + d + el + f);
    let u = a + b;
    let w = u + c + nl;
    let x = w + d + el;
    assert forall|j: int| 0 <= j < h implies lines[3 + j] == #[trigger] b[j] by {
        assert(lines[3 + j] == x[3 + j]);
        assert(x[3 + j] == w[3 + j]);
        assert(w[3 + j] == (u + c)[3 + j]);
        assert(u[3 + j] == b[j]);
    }
    assert forall|j: int| 0 <= j < nl.len() implies lines[p + 1 + j] == #[trigger] nl[j] by {
        assert(lines[p + 1 + j] == x[p + 1 + j]);
        assert(x[p + 1 + j] == w[p + 1 + j]);
    }
    assert forall|j: int| 0 <= j < el.len() implies lines[p2 + 1 + j] == #[trigger] el[j] by {
        assert(lines[p2 + 1 + j] == x[p2 + 1 + j]);
    }
    assert(lines[p] == (u + c)[p]);
    assert(lines[p + 1 + nl.len()] == (w + d)[p + 1 + nl.len()]);
    assert(lines[p2] == (w + d)[p2]);
}

/// The group-name section of a format-4 file reads back as the names.
#[verifier::rlimit(60)]
proof fn lemma_v4_names_part(
    np: Seq<(u64, PointView)>,
    es: Seq<ElementView>,
    ns: Seq<((i32, i32), Seq<char>)>,
)
    requires
        crate::msh_laws::v2_parts_ok(np, es, ns),
    ensures
        parse_from(v4_lines(np, es, ns), 3, MshVersion::V4, empty_mesh()) == parse_from(
            v4_lines(np, es, ns),
            3 + names_lines(ns).len() as int,
            MshVersion::V4,
            MeshView { physical_names: insert_all(empty_mesh().physical_names, ns), ..empty_mesh() },
        ),
{
    let lines = v4_lines(np, es, ns);
    lemma_v4_lines_layout(np, es, ns);
    let e0 = empty_mesh();
    let m1 = MeshView { physical_names: insert_all(e0.physical_names, ns), ..e0 };
    if ns.len() > 0 {
        assert forall|j: int| 0 <= j < ns.len() implies lines[3 + 2 + j] == name_line(
            #[trigger] ns[j],
        ) by {
            assert(lines[3 + (2 + j)] == names_lines(ns)[2 + j]);
        }
        assert(lines[3] == names_lines(ns)[0]);
        assert(lines[4] == names_lines(ns)[1]);
        assert(lines[3 + 2 + ns.len() as int] == names_lines(ns)[2 + ns.len() as int]);
        lemma_names_section(lines, 3, ns, MshVersion::V4, e0);
    } else {
        assert(m1 == e0);
    }
}

/// The lines of a format-4 file read back as its parts.
#[verifier::rlimit(60)]
proof fn lemma_v4_lines_parse(
    np: Seq<(u64, PointView)>,
    es: Seq<ElementView>,
    ns: Seq<((i32, i32), Seq<char>)>,
)
    requires
        crate::msh_laws::v2_parts_ok(np, es, ns),
    ensures
        parse_from(v4_lines(np, es, ns), 0, MshVersion::V4, empty_mesh()) == Ok::<
            MeshView,
            MshErrorView,
        >(
            MeshView {
                nodes: insert_all(Map::empty(), np),
                elements: blocks_elems(es, block_keys(es)),
                physical_names: insert_all(Map::empty(), ns),
            },
        ),
{
    let lines = v4_lines(np, es, ns);
    lemma_v4_lines_layout(np, es, ns);
    let h = names_lines(ns).len() as int;
    let nl = nodes_lines_v4(np, max_dim(es));
    let el = elements_lines_v4(es);
    let p = 3 + h;
    let p2 = p + 2 + nl.len();
    let e0 = empty_mesh();
    lemma_format_section_v4(lines, e0);
    assert(parse_from(lines, 0, MshVersion::V4, e0) == parse_from(lines, 3, MshVersion::V4, e0));
    let m1 = MeshView { physical_names: insert_all(e0.physical_names, ns), ..e0 };
    lemma_v4_names_part(np, es, ns);
    assert(parse_from(lines, 3, MshVersion::V4, e0) == parse_from(lines, p, MshVersion::V4, m1));
    let m2 = MeshView { nodes: insert_all(m1.nodes, np), ..m1 };
    lemma_nodes_section_v4(lines, p, np, max_dim(es), m1);
    assert(parse_from(lines, p, MshVersion::V4, m1) == parse_from(lines, p2, MshVersion::V4, m2));
    let m3 = MeshView { elements: m2.elements + blocks_elems(es, block_keys(es)), ..m2 };
    lemma_elements_section_v4(lines, p2, es, m2);
    assert(parse_from(lines, p2, MshVersion::V4, m2) == parse_from(
        lines,
        p2 + 2 + el.len(),
        MshVersion::V4,
        m3,
    ));
    assert(m3.elements =~= blocks_elems(es, block_keys(es)));
}

/// Reading back the format-4 file written from a mesh gives the mesh's
/// nodes and physical names unchanged, and its elements sorted by ID,
/// grouped by block (dimension, entity tag, type) in increasing order,
/// with their physical tags dropped (the format-4 reader does not keep
/// entity tags), provided the mesh can be written (supported types,
/// existing nodes), its coordinates are floating-point literals and its
/// group names hold no line feed and no quote at either end.
pub proof fn lemma_v4_roundtrip(m: Mesh)
    requires
        m.wf(),
        spec_validate(m@.nodes, m@.elements) is Ok,
        writable(m@),
        m@.nodes.len() <= usize::MAX,
        m@.elements.len() <= usize::MAX,
        m@.physical_names.len() <= usize::MAX,
    ensures
        spec_parse_msh(v4_text(m)) == Ok::<MeshView, MshErrorView>(v4_readback(m@)),
{
    let np = node_pairs(m.node_seq());
    let ns = name_pairs(m.name_seq());
    let es = sort_by_id(m@.elements);
    m.lemma_wf_distinct();
    lemma_pairs_to_map(np);
    lemma_pairs_to_map(ns);
    crate::mesh::lemma_distinct_pairs_map_len(np);
    crate::mesh::lemma_distinct_pairs_map_len(ns);
    lemma_sort_from(m@.elements);
    lemma_validate_supported(m@.nodes, m@.elements);
    assert forall|j: int| 0 <= j < np.len() implies literal_point(#[trigger] np[j]) by {
        assert(m@.nodes.contains_key(np[j].0));
        assert(pairs_to_map(np)[np[j].0] == np[j].1);
    }
    assert forall|j: int| 0 <= j < ns.len() implies clean_name(#[trigger] ns[j].1) by {
        assert(m@.physical_names.contains_key(ns[j].0));
        assert(pairs_to_map(ns)[ns[j].0] == ns[j].1);
    }
    assert forall|j: int| 0 <= j < es.len() implies spec_gmsh_type_id(
        (#[trigger] es[j]).etype,
    ) is Some by {
        assert(m@.elements.contains(es[j]));
        let i = choose|i: int| 0 <= i < m@.elements.len() && m@.elements[i] == es[j];
        assert(spec_gmsh_type_id(m@.elements[i].etype) is Some);
    }
    assert(crate::msh_laws::v2_parts_ok(np, es, ns));
    let lines = v4_lines(np, es, ns);
    lemma_v4_lines_plain(np, es, ns);
    assert forall|q: int| 0 <= q < lines.len() implies no_newline(#[trigger] lines[q]) && (
    lines[q].len() == 0 || lines[q].last() != '\r') by {
        assert(plain_line(lines[q]));
    }
    lemma_lines_of_joined(lines);
    lemma_v4_lines_parse(np, es, ns);
    lemma_insert_all(Seq::empty(), np);
    lemma_insert_all_names(Seq::empty(), ns);
    assert(Seq::<(u64, PointView)>::empty() + np =~= np);
    assert(Seq::<((i32, i32), Seq<char>)>::empty() + ns =~= ns);
    assert(pairs_to_map(Seq::<(u64, PointView)>::empty()) =~= Map::empty());
    assert(pairs_to_map(Seq::<((i32, i32), Seq<char>)>::empty()) =~= Map::empty());
}

} // verus!
