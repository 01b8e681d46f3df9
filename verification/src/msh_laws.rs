//! What reading back a written MSH file gives.
use vstd::prelude::*;

use crate::element::{
    lemma_gmsh_type_id_roundtrip, spec_from_gmsh_type_id, spec_gmsh_type_id, ElementView,
};
use crate::mesh::{
    lemma_pairs_to_map, name_pairs, node_pairs, pairs_to_map, distinct_keys, Mesh, MeshView,
    PointView,
};
use crate::msh_spec::{
    apply_name_line, elements_v2_loop, empty_mesh, kw_elements, kw_end, kw_end_elements,
    kw_end_mesh_format, kw_end_nodes, kw_end_physical_names, kw_mesh_format, kw_nodes,
    kw_physical_names, names_loop, nodes_v2_loop, parse_from, spec_format, spec_parse_msh,
    spec_section, starts_with, trim_quotes, trim_quotes_end, trim_quotes_start, find_char,
    name_fields, words, with_element, with_node, all_u64, MshVersion,
};
use crate::msh_write::{
    dec_i, dec_u, element_line_v2, format_lines, id_list, name_line, names_lines, node_line_v2,
    sort_by_id, spec_validate, tags_part, type_number, v2_lines, v2_text, version_v2,
    first_missing,
};
use crate::text::{
    dec, dec_int, is_float_literal, is_ws, join_lines, lemma_dec, lemma_parse_dec,
    lemma_parse_dec_int, no_ws, parse_i32, parse_u64, parse_usize, space, spaced, split_ws,
    trim,
};
use crate::text_laws::{
    good_words, lemma_float_literal_word, lemma_lines_of_joined, lemma_spaced_append,
    lemma_split_spaced, lemma_trim_noop, no_newline,
};

verus! {

// ─── What a written file reads back as ───────────────────────────────────────

/// `m` with the pairs of `ps` inserted in order.
pub open spec fn insert_all<K, V>(m: Map<K, V>, ps: Seq<(K, V)>) -> Map<K, V>
    decreases ps.len(),
{
    if ps.len() == 0 {
        m
    } else {
        insert_all(m.insert(ps[0].0, ps[0].1), ps.drop_first())
    }
}

/// An element with its physical tag dropped.
pub open spec fn without_tag(e: ElementView) -> ElementView {
    ElementView { physical_tag: None, ..e }
}

/// A physical group name that a file can carry: no line feed, and no
/// double quote at either end.
pub open spec fn clean_name(n: Seq<char>) -> bool {
    no_newline(n) && (n.len() == 0 || (n[0] != '"' && n.last() != '"'))
}

/// A mesh whose coordinates are all floating-point literals and whose
/// group names are all clean.
pub open spec fn writable(m: MeshView) -> bool {
    &&& forall|id: u64|
        #[trigger] m.nodes.contains_key(id) ==> is_float_literal(m.nodes[id].0)
            && is_float_literal(m.nodes[id].1) && is_float_literal(m.nodes[id].2)
    &&& forall|k: (i32, i32)| #[trigger]
        m.physical_names.contains_key(k) ==> clean_name(m.physical_names[k])
}

/// What reading back the format-2 file of `m` gives: the same nodes and
/// names, and the elements sorted by ID without their physical tags.
pub open spec fn v2_readback(m: MeshView) -> MeshView {
    MeshView {
        nodes: m.nodes,
        elements: sort_by_id(m.elements).map_values(|e: ElementView| without_tag(e)),
        physical_names: m.physical_names,
    }
}

// ─── Maps ────────────────────────────────────────────────────────────────────

pub(crate) proof fn lemma_insert_all(a: Seq<(u64, PointView)>, b: Seq<(u64, PointView)>)
    ensures
        insert_all(pairs_to_map(a), b) == pairs_to_map(a + b),
    decreases b.len(),
{
    if b.len() == 0 {
        assert(a + b =~= a);
    } else {
        assert(a.push(b[0]).drop_last() =~= a);
        lemma_insert_all(a.push(b[0]), b.drop_first());
        assert(a.push(b[0]) + b.drop_first() =~= a + b);
    }
}

pub(crate) proof fn lemma_insert_all_names(a: Seq<((i32, i32), Seq<char>)>, b: Seq<((i32, i32), Seq<char>)>)
    ensures
        insert_all(pairs_to_map(a), b) == pairs_to_map(a + b),
    decreases b.len(),
{
    if b.len() == 0 {
        assert(a + b =~= a);
    } else {
        assert(a.push(b[0]).drop_last() =~= a);
        lemma_insert_all_names(a.push(b[0]), b.drop_first());
        assert(a.push(b[0]) + b.drop_first() =~= a + b);
    }
}

// ─── Lines of words ──────────────────────────────────────────────────────────

pub(crate) proof fn lemma_spaced_push(ws: Seq<Seq<char>>, w: Seq<char>)
    ensures
        spaced(ws.push(w)) == spaced(ws) + space() + w,
{
    assert(ws.push(w).drop_last() =~= ws);
}

pub(crate) proof fn lemma_spaced_small(a: Seq<char>, b: Seq<char>, c: Seq<char>)
    ensures
        spaced(seq![a]) == space() + a,
        spaced(seq![a, b]) == space() + a + space() + b,
        spaced(seq![a, b, c]) == space() + a + space() + b + space() + c,
{
    assert(spaced(Seq::<Seq<char>>::empty()) == Seq::<char>::empty());
    lemma_spaced_push(Seq::<Seq<char>>::empty(), a);
    assert(Seq::<Seq<char>>::empty().push(a) =~= seq![a]);
    lemma_spaced_push(seq![a], b);
    assert(seq![a].push(b) =~= seq![a, b]);
    lemma_spaced_push(seq![a, b], c);
    assert(seq![a, b].push(c) =~= seq![a, b, c]);
    assert(Seq::<char>::empty() + space() + a =~= space() + a);
}

/// A line of space-separated good words trims to itself, splits into its
/// words, and holds no line feed nor a final carriage return.
pub(crate) proof fn lemma_word_line(w0: Seq<char>, ws: Seq<Seq<char>>)
    requires
        w0.len() > 0,
        no_ws(w0),
        good_words(ws),
    ensures
        trim(w0 + spaced(ws)) == w0 + spaced(ws),
        split_ws(trim(w0 + spaced(ws))) == seq![w0] + ws,
        plain_line(w0 + spaced(ws)),
    decreases ws.len(),
{
    lemma_split_spaced(w0, ws);
    let l = w0 + spaced(ws);
    lemma_no_ws_spaced(w0, ws);
    assert(l[0] == w0[0]);
    lemma_trim_noop(l);
}

/// The characters of a line of good words are not whitespace, except the
/// separating spaces.
pub(crate) proof fn lemma_no_ws_spaced(w0: Seq<char>, ws: Seq<Seq<char>>)
    requires
        w0.len() > 0,
        no_ws(w0),
        good_words(ws),
    ensures
        !is_ws((w0 + spaced(ws)).last()),
        no_newline(w0 + spaced(ws)),
    decreases ws.len(),
{
    let l = w0 + spaced(ws);
    if ws.len() == 0 {
        assert(l =~= w0);
        assert(no_newline(l)) by {
            assert forall|i: int| 0 <= i < l.len() implies #[trigger] l[i] != '\n' by {
                assert(!is_ws(l[i]));
            }
        }
    } else {
        let t = ws.drop_last();
        assert(good_words(t)) by {
            assert forall|k: int| 0 <= k < t.len() implies (#[trigger] t[k]).len() > 0 && no_ws(
                t[k],
            ) by {
                assert(t[k] == ws[k]);
            }
        }
        lemma_no_ws_spaced(w0, t);
        let w = ws.last();
        assert(ws[ws.len() - 1].len() > 0 && no_ws(ws[ws.len() - 1]));
        let a = w0 + spaced(t);
        assert(l =~= a + space() + w);
        assert(l.last() == w.last());
        assert(!is_ws(w[w.len() - 1]));
        assert forall|i: int| 0 <= i < l.len() implies #[trigger] l[i] != '\n' by {
            if i < a.len() {
                assert(l[i] == a[i]);
            } else if i == a.len() {
                assert(l[i] == ' ');
            } else {
                assert(l[i] == w[i - a.len() - 1]);
                assert(!is_ws(w[i - a.len() - 1]));
            }
        }
    }
}

/// A line that a reader gives back unchanged: no line feed, and no
/// carriage return at its end.
pub open spec fn plain_line(l: Seq<char>) -> bool {
    no_newline(l) && (l.len() == 0 || l.last() != '\r')
}

/// The decimal text of a number is a good word.
pub(crate) proof fn lemma_dec_word(n: nat)
    ensures
        dec(n).len() > 0,
        no_ws(dec(n)),
{
    lemma_dec(n);
}

/// The decimal text of a signed number is a good word.
pub(crate) proof fn lemma_dec_int_word(v: i32)
    ensures
        dec_int(v as int).len() > 0,
        no_ws(dec_int(v as int)),
{
    lemma_parse_dec_int(v);
}

/// A keyword line.
pub(crate) proof fn lemma_keyword_line(k: Seq<char>)
    requires
        k.len() > 0,
        no_ws(k),
    ensures
        trim(k) == k,
        plain_line(k),
{
    lemma_word_line(k, seq![]);
    assert(k + spaced(Seq::<Seq<char>>::empty()) =~= k);
}

pub(crate) proof fn lemma_keywords()
    ensures
        no_ws(kw_mesh_format()),
        no_ws(kw_end_mesh_format()),
        no_ws(kw_physical_names()),
        no_ws(kw_end_physical_names()),
        no_ws(kw_nodes()),
        no_ws(kw_end_nodes()),
        no_ws(kw_elements()),
        no_ws(kw_end_elements()),
        trim(kw_mesh_format()) == kw_mesh_format(),
        trim(kw_end_mesh_format()) == kw_end_mesh_format(),
        trim(kw_physical_names()) == kw_physical_names(),
        trim(kw_end_physical_names()) == kw_end_physical_names(),
        trim(kw_nodes()) == kw_nodes(),
        trim(kw_end_nodes()) == kw_end_nodes(),
        trim(kw_elements()) == kw_elements(),
        trim(kw_end_elements()) == kw_end_elements(),
        plain_line(kw_mesh_format()),
        plain_line(kw_end_mesh_format()),
        plain_line(kw_physical_names()),
        plain_line(kw_end_physical_names()),
        plain_line(kw_nodes()),
        plain_line(kw_end_nodes()),
        plain_line(kw_elements()),
        plain_line(kw_end_elements()),
{
    assert(no_ws(kw_mesh_format()));
    assert(no_ws(kw_end_mesh_format()));
    assert(no_ws(kw_physical_names()));
    assert(no_ws(kw_end_physical_names()));
    assert(no_ws(kw_nodes()));
    assert(no_ws(kw_end_nodes()));
    assert(no_ws(kw_elements()));
    assert(no_ws(kw_end_elements()));
    lemma_keyword_line(kw_mesh_format());
    lemma_keyword_line(kw_end_mesh_format());
    lemma_keyword_line(kw_physical_names());
    lemma_keyword_line(kw_end_physical_names());
    lemma_keyword_line(kw_nodes());
    lemma_keyword_line(kw_end_nodes());
    lemma_keyword_line(kw_elements());
    lemma_keyword_line(kw_end_elements());
}

/// A count line.
pub(crate) proof fn lemma_count_line(n: nat)
    requires
        n <= usize::MAX,
    ensures
        trim(dec(n)) == dec(n),
        parse_usize(trim(dec(n))) == Some(n as usize),
        plain_line(dec(n)),
{
    lemma_dec_word(n);
    lemma_keyword_line(dec(n));
    lemma_parse_dec(n);
}

// ─── The format section ──────────────────────────────────────────────────────

pub(crate) proof fn lemma_format_section(lines: Seq<Seq<char>>, m: MeshView)
    requires
        lines.len() >= 3,
        lines[0] == kw_mesh_format(),
        lines[1] == version_v2(),
        lines[2] == kw_end_mesh_format(),
    ensures
        spec_section(lines, 0, MshVersion::V4, m) == Ok::<
            (MshVersion, MeshView, int),
            crate::msh_spec::MshErrorView,
        >((MshVersion::V2, m, 3)),
{
    lemma_keywords();
    let v = seq!['2', '.', '2'];
    let ws = seq![seq!['0'], seq!['8']];
    assert(no_ws(v));
    assert(good_words(ws)) by {
        assert(no_ws(ws[0]));
        assert(no_ws(ws[1]));
    }
    lemma_spaced_small(seq!['0'], seq!['8'], seq!['8']);
    assert(version_v2() =~= v + spaced(ws));
    lemma_word_line(v, ws);
    assert(words(lines, 1) =~= seq![v] + ws);
    assert(v.take(2) =~= seq!['2', '.']);
    assert(starts_with(v, seq!['2', '.']));
}

// ─── The physical names section ──────────────────────────────────────────────

/// The first space of `w + ' ' + r` when `w` has none.
pub(crate) proof fn lemma_find_space(w: Seq<char>, r: Seq<char>)
    requires
        no_ws(w),
    ensures
        find_char(w + space() + r, ' ') == Some(w.len()),
    decreases w.len(),
{
    if w.len() == 0 {
        assert((w + space() + r)[0] == ' ');
    } else {
        assert((w + space() + r).drop_first() =~= w.drop_first() + space() + r);
        assert((w + space() + r)[0] == w[0]);
        assert(!is_ws(w[0]));
        assert(no_ws(w.drop_first())) by {
            assert forall|i: int| 0 <= i < w.drop_first().len() implies !is_ws(
                #[trigger] w.drop_first()[i],
            ) by {
                assert(w.drop_first()[i] == w[i + 1]);
            }
        }
        lemma_find_space(w.drop_first(), r);
    }
}

/// A quoted clean name loses exactly its quotes.
pub(crate) proof fn lemma_unquote(n: Seq<char>)
    requires
        clean_name(n),
    ensures
        trim_quotes(seq!['"'] + n + seq!['"']) == n,
{
    let q = seq!['"'] + n + seq!['"'];
    let r = n + seq!['"'];
    assert(q[0] == '"');
    assert(q.drop_first() =~= r);
    if n.len() == 0 {
        assert(r =~= seq!['"']);
        assert(r.drop_first() =~= Seq::<char>::empty());
        assert(trim_quotes_start(r.drop_first()) == Seq::<char>::empty());
        assert(trim_quotes_start(r) == Seq::<char>::empty());
        assert(trim_quotes_start(q) == Seq::<char>::empty());
        assert(trim_quotes_end(Seq::<char>::empty()) == Seq::<char>::empty());
        assert(n =~= Seq::<char>::empty());
    } else {
        assert(r[0] == n[0]);
        assert(trim_quotes_start(r) == r);
        assert(trim_quotes_start(q) == r);
        assert(r.last() == '"');
        assert(r.drop_last() =~= n);
        assert(n.last() != '"');
        assert(trim_quotes_end(n) == n);
        assert(trim_quotes_end(r) == n);
    }
}

/// A physical name line holds no line feed and ends with a quote.
pub(crate) proof fn lemma_name_line_plain(p: ((i32, i32), Seq<char>))
    requires
        clean_name(p.1),
    ensures
        plain_line(name_line(p)),
{
    let l = name_line(p);
    let d = dec_i(p.0.0);
    let t = dec_i(p.0.1);
    lemma_dec_int_word(p.0.0);
    lemma_dec_int_word(p.0.1);
    let a = d + space() + t + space() + seq!['"'];
    assert(l =~= a + p.1 + seq!['"']);
    assert forall|i: int| 0 <= i < l.len() implies #[trigger] l[i] != '\n' by {
        if i < d.len() {
            assert(l[i] == d[i]);
            assert(!is_ws(d[i]));
        } else if i == d.len() {
        } else if i < d.len() + 1 + t.len() {
            assert(l[i] == t[i - d.len() - 1]);
            assert(!is_ws(t[i - d.len() - 1]));
        } else if i < a.len() {
        } else if i < a.len() + p.1.len() {
            assert(l[i] == p.1[i - a.len()]);
        } else {
        }
    }
}

/// A physical name line reads back as its name.
pub(crate) proof fn lemma_name_line(p: ((i32, i32), Seq<char>), m: MeshView)
    requires
        clean_name(p.1),
    ensures
        apply_name_line(name_line(p), m) == (MeshView {
            physical_names: m.physical_names.insert(p.0, p.1),
            ..m
        }),
        plain_line(name_line(p)),
{
    let l = name_line(p);
    let d = dec_i(p.0.0);
    let t = dec_i(p.0.1);
    let q = seq!['"'] + p.1 + seq!['"'];
    lemma_dec_int_word(p.0.0);
    lemma_dec_int_word(p.0.1);
    lemma_parse_dec_int(p.0.0);
    lemma_parse_dec_int(p.0.1);
    assert(l =~= d + space() + (t + space() + q));
    assert(l[0] == d[0]);
    assert(l.last() == '"');
    lemma_trim_noop(l);
    lemma_find_space(d, t + space() + q);
    assert(l.skip(d.len() + 1int) =~= t + space() + q);
    lemma_find_space(t, q);
    assert(l.take(d.len() as int) =~= d);
    assert((t + space() + q).take(t.len() as int) =~= t);
    assert((t + space() + q).skip(t.len() + 1int) =~= q);
    assert(name_fields(trim(l)) == Some((d, t, q)));
    lemma_unquote(p.1);
    lemma_name_line_plain(p);
}

/// Reading a run of physical name lines inserts their names in order.
pub(crate) proof fn lemma_names_loop(
    lines: Seq<Seq<char>>,
    i: int,
    ns: Seq<((i32, i32), Seq<char>)>,
    m: MeshView,
)
    requires
        0 <= i,
        i + ns.len() < lines.len(),
        forall|j: int| 0 <= j < ns.len() ==> lines[i + j] == name_line(#[trigger] ns[j]),
        forall|j: int| 0 <= j < ns.len() ==> clean_name(#[trigger] ns[j].1),
        lines[i + ns.len()] == kw_end_physical_names(),
    ensures
        names_loop(lines, i, ns.len(), m) == Ok::<(MeshView, int), crate::msh_spec::MshErrorView>(
            (
                MeshView { physical_names: insert_all(m.physical_names, ns), ..m },
                i + ns.len() + 1,
            ),
        ),
    decreases ns.len(),
{
    lemma_keywords();
    if ns.len() > 0 {
        assert(lines[i + 0] == name_line(ns[0]));
        assert(clean_name(ns[0].1));
        lemma_name_line(ns[0], m);
        let m2 = apply_name_line(lines[i], m);
        let t = ns.drop_first();
        assert forall|j: int| 0 <= j < t.len() implies lines[(i + 1) + j] == name_line(
            #[trigger] t[j],
        ) by {
            assert(lines[i + (j + 1)] == name_line(ns[j + 1]));
        }
        assert forall|j: int| 0 <= j < t.len() implies clean_name(#[trigger] t[j].1) by {
            assert(clean_name(ns[j + 1].1));
        }
        lemma_names_loop(lines, i + 1, t, m2);
    }
}

// ─── The nodes section ───────────────────────────────────────────────────────

/// A node whose coordinates are floating-point literals.
pub open spec fn literal_point(p: (u64, PointView)) -> bool {
    is_float_literal(p.1.0) && is_float_literal(p.1.1) && is_float_literal(p.1.2)
}

/// A format-2 node line splits into its ID and coordinates.
pub(crate) proof fn lemma_node_line_v2(p: (u64, PointView))
    requires
        literal_point(p),
    ensures
        trim(node_line_v2(p)) == node_line_v2(p),
        words(seq![node_line_v2(p)], 0) == seq![dec_u(p.0), p.1.0, p.1.1, p.1.2],
        plain_line(node_line_v2(p)),
{
    let ws = seq![p.1.0, p.1.1, p.1.2];
    lemma_float_literal_word(p.1.0);
    lemma_float_literal_word(p.1.1);
    lemma_float_literal_word(p.1.2);
    lemma_dec_word(p.0 as nat);
    assert(good_words(ws));
    lemma_spaced_small(p.1.0, p.1.1, p.1.2);
    assert(node_line_v2(p) =~= dec_u(p.0) + spaced(ws));
    lemma_word_line(dec_u(p.0), ws);
    assert(seq![dec_u(p.0)] + ws =~= seq![dec_u(p.0), p.1.0, p.1.1, p.1.2]);
}

/// Reading a run of format-2 node lines inserts their nodes in order.
pub(crate) proof fn lemma_nodes_v2_loop(lines: Seq<Seq<char>>, i: int, ps: Seq<(u64, PointView)>, m: MeshView)
    requires
        0 <= i,
        i + ps.len() < lines.len(),
        forall|j: int| 0 <= j < ps.len() ==> lines[i + j] == node_line_v2(#[trigger] ps[j]),
        forall|j: int| 0 <= j < ps.len() ==> literal_point(#[trigger] ps[j]),
        lines[i + ps.len()] == kw_end_nodes(),
    ensures
        nodes_v2_loop(lines, i, ps.len(), m) == Ok::<(MeshView, int), crate::msh_spec::MshErrorView>(
            (MeshView { nodes: insert_all(m.nodes, ps), ..m }, i + ps.len() + 1),
        ),
    decreases ps.len(),
{
    lemma_keywords();
    if ps.len() > 0 {
        let p = ps[0];
        assert(lines[i + 0] == node_line_v2(ps[0]));
        assert(literal_point(ps[0]));
        lemma_node_line_v2(p);
        assert(words(lines, i) == words(seq![node_line_v2(p)], 0));
        lemma_parse_dec(p.0 as nat);
        let t = ps.drop_first();
        assert forall|j: int| 0 <= j < t.len() implies lines[(i + 1) + j] == node_line_v2(
            #[trigger] t[j],
        ) by {
            assert(lines[i + (j + 1)] == node_line_v2(ps[j + 1]));
        }
        assert forall|j: int| 0 <= j < t.len() implies literal_point(#[trigger] t[j]) by {
            assert(literal_point(ps[j + 1]));
        }
        lemma_nodes_v2_loop(lines, i + 1, t, with_node(m, p.0, p.1));
    }
}

// ─── The elements section ────────────────────────────────────────────────────

/// The IDs of `ids` as words.
pub open spec fn id_words(ids: Seq<u64>) -> Seq<Seq<char>> {
    ids.map_values(|n: u64| dec_u(n))
}

pub(crate) proof fn lemma_id_list(ids: Seq<u64>)
    ensures
        id_list(ids) == spaced(id_words(ids)),
        good_words(id_words(ids)),
        all_u64(id_words(ids)) == Some(ids),
    decreases ids.len(),
{
    if ids.len() > 0 {
        lemma_id_list(ids.drop_last());
        assert(id_words(ids).drop_last() =~= id_words(ids.drop_last()));
        lemma_dec_word(ids.last() as nat);
        lemma_parse_dec(ids.last() as nat);
        assert forall|k: int| 0 <= k < id_words(ids).len() implies (
        #[trigger] id_words(ids)[k]).len() > 0 && no_ws(id_words(ids)[k]) by {
            lemma_dec_word(ids[k] as nat);
        }
        assert(ids.drop_last().push(ids.last()) =~= ids);
    } else {
        assert(id_words(ids) =~= Seq::<Seq<char>>::empty());
    }
}

/// A format-2 element line of a supported type reads back as the element
/// without its tag.
pub(crate) proof fn lemma_element_line_v2(e: ElementView, m: MeshView, lines: Seq<Seq<char>>, i: int, rest: nat)
    requires
        spec_gmsh_type_id(e.etype) is Some,
        0 <= i < lines.len(),
        lines[i] == element_line_v2(e),
    ensures
        elements_v2_loop(lines, i, rest + 1, m) == elements_v2_loop(
            lines,
            i + 1,
            rest,
            with_element(m, without_tag(e)),
        ),
        plain_line(element_line_v2(e)),
{
    let tn = type_number(e.etype);
    let tw = match e.physical_tag {
        Some(tag) => seq![dec(2), dec_i(tag), dec(0)],
        None => seq![dec(0)],
    };
    let iw = id_words(e.node_ids);
    lemma_id_list(e.node_ids);
    lemma_dec_word(e.id as nat);
    lemma_dec_int_word(tn);
    lemma_parse_dec_int(tn);
    lemma_parse_dec(e.id as nat);
    lemma_parse_dec(2);
    lemma_parse_dec(0);
    lemma_dec_word(2);
    lemma_dec_word(0);
    lemma_gmsh_type_id_roundtrip(e.etype, 0);
    let head = seq![dec_i(tn)] + tw;
    assert(good_words(head)) by {
        assert forall|k: int| 0 <= k < head.len() implies (#[trigger] head[k]).len() > 0 && no_ws(
            head[k],
        ) by {
            if k >= 1 {
                if let Some(tag) = e.physical_tag {
                    lemma_dec_int_word(tag);
                    assert(head[k] == tw[k - 1]);
                } else {
                    assert(head[k] == tw[k - 1]);
                }
            }
        }
    }
    assert(good_words(head + iw)) by {
        assert forall|k: int| 0 <= k < (head + iw).len() implies (#[trigger] (head + iw)[k]).len()
            > 0 && no_ws((head + iw)[k]) by {
            if k < head.len() {
                assert((head + iw)[k] == head[k]);
            } else {
                assert((head + iw)[k] == iw[k - head.len()]);
            }
        }
    }
    lemma_spaced_append(head, iw);
    lemma_spaced_small(dec_i(tn), dec_i(tn), dec_i(tn));
    lemma_spaced_append(seq![dec_i(tn)], tw);
    match e.physical_tag {
        Some(tag) => {
            lemma_spaced_small(dec(2), dec_i(tag), dec(0));
            assert(spaced(tw) =~= tags_part(e.physical_tag));
        },
        None => {
            lemma_spaced_small(dec(0), dec(0), dec(0));
            assert(spaced(tw) =~= tags_part(e.physical_tag));
        },
    }
    assert(element_line_v2(e) =~= dec_u(e.id) + spaced(head + iw));
    lemma_word_line(dec_u(e.id), head + iw);
    let parts = seq![dec_u(e.id)] + (head + iw);
    assert(words(lines, i) == parts);
    let nt: usize = if e.physical_tag is Some {
        2
    } else {
        0
    };
    assert(parts[0] == dec_u(e.id));
    assert(parts[1] == dec_i(tn));
    assert(parts[2] == dec(nt as nat));
    assert(parts.skip(3 + nt) =~= iw);
    assert(spec_from_gmsh_type_id(tn) == e.etype);
    assert(without_tag(e) == ElementView {
        id: e.id,
        etype: spec_from_gmsh_type_id(tn),
        physical_tag: None,
        node_ids: e.node_ids,
    });
}

/// Reading a run of format-2 element lines appends their elements without
/// tags.
pub(crate) proof fn lemma_elements_v2_loop(lines: Seq<Seq<char>>, i: int, es: Seq<ElementView>, m: MeshView)
    requires
        0 <= i,
        i + es.len() < lines.len(),
        forall|j: int| 0 <= j < es.len() ==> lines[i + j] == element_line_v2(#[trigger] es[j]),
        forall|j: int| 0 <= j < es.len() ==> spec_gmsh_type_id((#[trigger] es[j]).etype) is Some,
        lines[i + es.len()] == kw_end_elements(),
    ensures
        elements_v2_loop(lines, i, es.len(), m) == Ok::<
            (MeshView, int),
            crate::msh_spec::MshErrorView,
        >(
            (
                MeshView {
                    elements: m.elements + es.map_values(|e: ElementView| without_tag(e)),
                    ..m
                },
                i + es.len() + 1,
            ),
        ),
    decreases es.len(),
{
    lemma_keywords();
    if es.len() == 0 {
        assert(m.elements + es.map_values(|e: ElementView| without_tag(e)) =~= m.elements);
    } else {
        let e = es[0];
        assert(lines[i + 0] == element_line_v2(es[0]));
        assert(spec_gmsh_type_id(es[0].etype) is Some);
        lemma_element_line_v2(e, m, lines, i, (es.len() - 1) as nat);
        let t = es.drop_first();
        assert forall|j: int| 0 <= j < t.len() implies lines[(i + 1) + j] == element_line_v2(
            #[trigger] t[j],
        ) by {
            assert(lines[i + (j + 1)] == element_line_v2(es[j + 1]));
        }
        assert forall|j: int| 0 <= j < t.len() implies spec_gmsh_type_id(
            (#[trigger] t[j]).etype,
        ) is Some by {
            assert(spec_gmsh_type_id(es[j + 1].etype) is Some);
        }
        let m2 = with_element(m, without_tag(e));
        lemma_elements_v2_loop(lines, i + 1, t, m2);
        assert(m2.elements + t.map_values(|e: ElementView| without_tag(e)) =~= m.elements
            + es.map_values(|e: ElementView| without_tag(e)));
    }
}

// ─── Sections ────────────────────────────────────────────────────────────────

#[verifier::spinoff_prover]
#[verifier::rlimit(80)]
pub(crate) proof fn lemma_names_section(
    lines: Seq<Seq<char>>,
    p: int,
    ns: Seq<((i32, i32), Seq<char>)>,
    ver: MshVersion,
    m: MeshView,
)
    requires
        0 <= p,
        p + ns.len() + 2 < lines.len(),
        ns.len() <= usize::MAX,
        lines[p] == kw_physical_names(),
        lines[p + 1] == dec(ns.len()),
        forall|j: int| 0 <= j < ns.len() ==> lines[p + 2 + j] == name_line(#[trigger] ns[j]),
        forall|j: int| 0 <= j < ns.len() ==> clean_name(#[trigger] ns[j].1),
        lines[p + 2 + ns.len()] == kw_end_physical_names(),
    ensures
        spec_section(lines, p, ver, m) == Ok::<
            (MshVersion, MeshView, int),
            crate::msh_spec::MshErrorView,
        >((ver, MeshView { physical_names: insert_all(m.physical_names, ns), ..m }, p + 3 + ns.len())),
{
    lemma_keywords();
    lemma_count_line(ns.len());
    assert forall|j: int| 0 <= j < ns.len() implies lines[(p + 2) + j] == name_line(
        #[trigger] ns[j],
    ) by {
        assert(lines[p + 2 + j] == name_line(ns[j]));
    }
    lemma_names_loop(lines, p + 2, ns, m);
    assert(kw_physical_names() != kw_mesh_format());
}

pub(crate) proof fn lemma_nodes_section_v2(lines: Seq<Seq<char>>, p: int, ps: Seq<(u64, PointView)>, m: MeshView)
    requires
        0 <= p,
        p + ps.len() + 2 < lines.len(),
        ps.len() <= usize::MAX,
        lines[p] == kw_nodes(),
        lines[p + 1] == dec(ps.len()),
        forall|j: int| 0 <= j < ps.len() ==> lines[p + 2 + j] == node_line_v2(#[trigger] ps[j]),
        forall|j: int| 0 <= j < ps.len() ==> literal_point(#[trigger] ps[j]),
        lines[p + 2 + ps.len()] == kw_end_nodes(),
    ensures
        spec_section(lines, p, MshVersion::V2, m) == Ok::<
            (MshVersion, MeshView, int),
            crate::msh_spec::MshErrorView,
        >((MshVersion::V2, MeshView { nodes: insert_all(m.nodes, ps), ..m }, p + 3 + ps.len())),
{
    lemma_keywords();
    lemma_count_line(ps.len());
    assert forall|j: int| 0 <= j < ps.len() implies lines[(p + 2) + j] == node_line_v2(
        #[trigger] ps[j],
    ) by {
        assert(lines[p + 2 + j] == node_line_v2(ps[j]));
    }
    lemma_nodes_v2_loop(lines, p + 2, ps, m);
    assert(kw_nodes() != kw_mesh_format());
    assert(kw_nodes() != kw_physical_names());
}

pub(crate) proof fn lemma_elements_section_v2(lines: Seq<Seq<char>>, p: int, es: Seq<ElementView>, m: MeshView)
    requires
        0 <= p,
        p + es.len() + 2 < lines.len(),
        es.len() <= usize::MAX,
        lines[p] == kw_elements(),
        lines[p + 1] == dec(es.len()),
        forall|j: int| 0 <= j < es.len() ==> lines[p + 2 + j] == element_line_v2(#[trigger] es[j]),
        forall|j: int| 0 <= j < es.len() ==> spec_gmsh_type_id((#[trigger] es[j]).etype) is Some,
        lines[p + 2 + es.len()] == kw_end_elements(),
    ensures
        spec_section(lines, p, MshVersion::V2, m) == Ok::<
            (MshVersion, MeshView, int),
            crate::msh_spec::MshErrorView,
        >(
            (
                MshVersion::V2,
                MeshView {
                    elements: m.elements + es.map_values(|e: ElementView| without_tag(e)),
                    ..m
                },
                p + 3 + es.len(),
            ),
        ),
{
    lemma_keywords();
    lemma_count_line(es.len());
    assert forall|j: int| 0 <= j < es.len() implies lines[(p + 2) + j] == element_line_v2(
        #[trigger] es[j],
    ) by {
        assert(lines[p + 2 + j] == element_line_v2(es[j]));
    }
    lemma_elements_v2_loop(lines, p + 2, es, m);
    assert(kw_elements() != kw_mesh_format());
    assert(kw_elements() != kw_physical_names());
    assert(kw_elements() != kw_nodes());
}

// ─── Validation and sorting ──────────────────────────────────────────────────

/// A mesh that validates has only supported element types.
pub(crate) proof fn lemma_validate_supported(nodes: Map<u64, PointView>, es: Seq<ElementView>)
    requires
        spec_validate(nodes, es) is Ok,
    ensures
        forall|j: int| 0 <= j < es.len() ==> spec_gmsh_type_id((#[trigger] es[j]).etype) is Some,
    decreases es.len(),
{
    if es.len() > 0 {
        lemma_validate_supported(nodes, es.drop_first());
        assert forall|j: int| 0 <= j < es.len() implies spec_gmsh_type_id(
            (#[trigger] es[j]).etype,
        ) is Some by {
            if j > 0 {
                assert(es[j] == es.drop_first()[j - 1]);
            }
        }
    }
}

/// Every element of `insert_by_id(s, e)` is `e` or an element of `s`.
pub(crate) proof fn lemma_insert_by_id_from(s: Seq<ElementView>, e: ElementView)
    ensures
        forall|k: int|
            0 <= k < crate::msh_write::insert_by_id(s, e).len() ==> (
            #[trigger] crate::msh_write::insert_by_id(s, e)[k]) == e || s.contains(
                crate::msh_write::insert_by_id(s, e)[k],
            ),
        crate::msh_write::insert_by_id(s, e).len() == s.len() + 1,
    decreases s.len(),
{
    let r = crate::msh_write::insert_by_id(s, e);
    if s.len() > 0 && s.last().id > e.id {
        let t = s.drop_last();
        lemma_insert_by_id_from(t, e);
        assert forall|k: int| 0 <= k < r.len() implies (#[trigger] r[k]) == e || s.contains(r[k]) by {
            if k < r.len() - 1 {
                let x = crate::msh_write::insert_by_id(t, e)[k];
                assert(r[k] == x);
                if x != e {
                    let j = choose|j: int| 0 <= j < t.len() && t[j] == x;
                    assert(s[j] == x);
                }
            } else {
                assert(r[k] == s[s.len() - 1]);
            }
        }
    } else if s.len() > 0 {
        assert forall|k: int| 0 <= k < r.len() implies (#[trigger] r[k]) == e || s.contains(r[k]) by {
            if k < s.len() {
                assert(r[k] == s[k]);
            }
        }
    }
}

/// Every element of `sort_by_id(s)` is an element of `s`.
pub(crate) proof fn lemma_sort_from(s: Seq<ElementView>)
    ensures
        forall|k: int| 0 <= k < sort_by_id(s).len() ==> s.contains(#[trigger] sort_by_id(s)[k]),
        sort_by_id(s).len() == s.len(),
    decreases s.len(),
{
    if s.len() > 0 {
        let t = s.drop_last();
        lemma_sort_from(t);
        lemma_insert_by_id_from(sort_by_id(t), s.last());
        assert forall|k: int| 0 <= k < sort_by_id(s).len() implies s.contains(
            #[trigger] sort_by_id(s)[k],
        ) by {
            let x = sort_by_id(s)[k];
            if x == s.last() {
                assert(s[s.len() - 1] == x);
            } else {
                assert(sort_by_id(t).contains(x));
                let j = choose|j: int| 0 <= j < sort_by_id(t).len() && sort_by_id(t)[j] == x;
                assert(t.contains(x));
                let i = choose|i: int| 0 <= i < t.len() && t[i] == x;
                assert(s[i] == x);
            }
        }
    }
}

// ─── Writing then reading ────────────────────────────────────────────────────

/// Every line is free of line feeds and of a final carriage return.
pub open spec fn all_plain(ls: Seq<Seq<char>>) -> bool {
    forall|q: int| 0 <= q < ls.len() ==> plain_line(#[trigger] ls[q])
}

pub(crate) proof fn lemma_all_plain_append(a: Seq<Seq<char>>, b: Seq<Seq<char>>)
    requires
        all_plain(a),
        all_plain(b),
    ensures
        all_plain(a + b),
{
    assert forall|q: int| 0 <= q < (a + b).len() implies plain_line(#[trigger] (a + b)[q]) by {
        if q < a.len() {
            assert((a + b)[q] == a[q]);
        } else {
            assert((a + b)[q] == b[q - a.len()]);
        }
    }
}

/// The parts of a format-2 file that read back: literal coordinates, clean
/// names, supported element types, and counts that fit a `usize`.
pub open spec fn v2_parts_ok(
    np: Seq<(u64, PointView)>,
    es: Seq<ElementView>,
    ns: Seq<((i32, i32), Seq<char>)>,
) -> bool {
    &&& forall|j: int| 0 <= j < np.len() ==> literal_point(#[trigger] np[j])
    &&& forall|j: int| 0 <= j < ns.len() ==> clean_name(#[trigger] ns[j].1)
    &&& forall|j: int| 0 <= j < es.len() ==> spec_gmsh_type_id((#[trigger] es[j]).etype) is Some
    &&& np.len() <= usize::MAX
    &&& es.len() <= usize::MAX
    &&& ns.len() <= usize::MAX
}

pub(crate) proof fn lemma_v2_lines_plain(
    np: Seq<(u64, PointView)>,
    es: Seq<ElementView>,
    ns: Seq<((i32, i32), Seq<char>)>,
)
    requires
        v2_parts_ok(np, es, ns),
    ensures
        all_plain(v2_lines(np, es, ns)),
{
    lemma_keywords();
    lemma_count_line(np.len());
    lemma_count_line(es.len());
    lemma_count_line(ns.len());
    assert(plain_line(version_v2()));
    let a = format_lines(version_v2());
    assert(all_plain(a));
    let b = names_lines(ns);
    if ns.len() > 0 {
        let nm = ns.map_values(|p: ((i32, i32), Seq<char>)| name_line(p));
        assert forall|q: int| 0 <= q < nm.len() implies plain_line(#[trigger] nm[q]) by {
            lemma_name_line_plain(ns[q]);
        }
        let b0 = seq![kw_physical_names(), dec(ns.len())];
        let b1 = seq![kw_end_physical_names()];
        assert(all_plain(b0));
        assert(all_plain(b1));
        lemma_all_plain_append(b0, nm);
        lemma_all_plain_append(b0 + nm, b1);
    }
    assert(all_plain(b));
    let c = seq![kw_nodes(), dec(np.len())];
    assert(all_plain(c));
    let nl = np.map_values(|p: (u64, PointView)| node_line_v2(p));
    assert forall|q: int| 0 <= q < nl.len() implies plain_line(#[trigger] nl[q]) by {
        lemma_node_line_v2(np[q]);
    }
    let d = seq![kw_end_nodes(), kw_elements(), dec(es.len())];
    assert(all_plain(d));
    let el = es.map_values(|e: ElementView| element_line_v2(e));
    assert forall|q: int| 0 <= q < el.len() implies plain_line(#[trigger] el[q]) by {
        lemma_element_line_v2(es[q], empty_mesh(), seq![element_line_v2(es[q])], 0, 0);
    }
    let f = seq![kw_end_elements()];
    assert(all_plain(f));
    lemma_all_plain_append(a, b);
    lemma_all_plain_append(a + b, c);
    lemma_all_plain_append(a + b + c, nl);
    lemma_all_plain_append(a + b + c + nl, d);
    lemma_all_plain_append(a + b + c + nl + d, el);
    lemma_all_plain_append(a + b + c + nl + d + el, f);
}

/// Where each part of a format-2 file stands among its lines.
pub(crate) proof fn lemma_v2_lines_layout(
    np: Seq<(u64, PointView)>,
    es: Seq<ElementView>,
    ns: Seq<((i32, i32), Seq<char>)>,
)
    ensures
        ({
            let lines = v2_lines(np, es, ns);
            let h = names_lines(ns).len() as int;
            let p = 3 + h;
            let p2 = p + 3 + np.len();
            &&& lines.len() == p2 + 3 + es.len()
            &&& lines[0] == kw_mesh_format()
            &&& lines[1] == version_v2()
            &&& lines[2] == kw_end_mesh_format()
            &&& forall|j: int| 0 <= j < h ==> lines[3 + j] == #[trigger] names_lines(ns)[j]
            &&& lines[p] == kw_nodes()
            &&& lines[p + 1] == dec(np.len())
            &&& forall|j: int| 0 <= j < np.len() ==> lines[p + 2 + j] == node_line_v2(#[trigger] np[j])
            &&& lines[p + 2 + np.len()] == kw_end_nodes()
            &&& lines[p2] == kw_elements()
            &&& lines[p2 + 1] == dec(es.len())
            &&& forall|j: int| 0 <= j < es.len() ==> lines[p2 + 2 + j] == element_line_v2(#[trigger] es[j])
            &&& lines[p2 + 2 + es.len()] == kw_end_elements()
        }),
{
    let lines = v2_lines(np, es, ns);
    let a = format_lines(version_v2());
    let b = names_lines(ns);
    let c = seq![kw_nodes(), dec(np.len())];
    let nl = np.map_values(|p: (u64, PointView)| node_line_v2(p));
    let d = seq![kw_end_nodes(), kw_elements(), dec(es.len())];
    let el = es.map_values(|e: ElementView| element_line_v2(e));
    let f = seq![kw_end_elements()];
    let h = b.len() as int;
    let p = 3 + h;
    let p2 = p + 3 + np.len();
    assert(lines == a + b + c + nl + d + el + f);
    let u = a + b;
    let w = u + c + nl;
    let x = w + d + el;
    assert forall|j: int| 0 <= j < h implies lines[3 + j] == #[trigger] b[j] by {
        assert(lines[3 + j] == x[3 + j]);
        assert(x[3 + j] == w[3 + j]);
        assert(w[3 + j] == (u + c)[3 + j]);
        assert(u[3 + j] == b[j]);
    }
    assert forall|j: int| 0 <= j < np.len() implies lines[p + 2 + j] == node_line_v2(
        #[trigger] np[j],
    ) by {
        assert(lines[p + 2 + j] == x[p + 2 + j]);
        assert(x[p + 2 + j] == w[p + 2 + j]);
        assert(w[p + 2 + j] == nl[j]);
    }
    assert forall|j: int| 0 <= j < es.len() implies lines[p2 + 2 + j] == element_line_v2(
        #[trigger] es[j],
    ) by {
        assert(lines[p2 + 2 + j] == x[p2 + 2 + j]);
        assert(x[p2 + 2 + j] == el[j]);
    }
    assert(lines[p] == (u + c)[p]);
    assert(lines[p + 1] == (u + c)[p + 1]);
    assert(lines[p + 2 + np.len()] == (w + d)[p + 2 + np.len()]);
    assert(lines[p2] == (w + d)[p2]);
    assert(lines[p2 + 1] == (w + d)[p2 + 1]);
}

/// The group-name section of a format-2 file reads back as the names.
#[verifier::rlimit(60)]
proof fn lemma_v2_names_part(
    np: Seq<(u64, PointView)>,
    es: Seq<ElementView>,
    ns: Seq<((i32, i32), Seq<char>)>,
)
    requires
        v2_parts_ok(np, es, ns),
    ensures
        parse_from(v2_lines(np, es, ns), 3, MshVersion::V2, empty_mesh()) == parse_from(
            v2_lines(np, es, ns),
            3 + names_lines(ns).len() as int,
            MshVersion::V2,
            MeshView { physical_names: insert_all(empty_mesh().physical_names, ns), ..empty_mesh() },
        ),
{
    let lines = v2_lines(np, es, ns);
    lemma_v2_lines_layout(np, es, ns);
    let e0 = empty_mesh();
    let m1 = MeshView { physical_names: insert_all(e0.physical_names, ns), ..e0 };
    if ns.len() > 0 {
        assert forall|j: int| 0 <= j < ns.len() implies lines[3 + 2 + j] == name_line(
            #[trigger] ns[j],
        ) by {
            assert(lines[3 + (2 + j)] == names_lines(ns)[2 + j]);
        }
        assert(lines[3] == names_lines(ns)[0]);
        assert(lines[4] == names_lines(ns)[1]);
        assert(lines[3 + 2 + ns.len() as int] == names_lines(ns)[2 + ns.len() as int]);
        lemma_names_section(lines, 3, ns, MshVersion::V2, e0);
    } else {
        assert(m1 == e0);
    }
}

/// The lines of a format-2 file read back as its parts.
#[verifier::rlimit(60)]
pub(crate) proof fn lemma_v2_lines_parse(
    np: Seq<(u64, PointView)>,
    es: Seq<ElementView>,
    ns: Seq<((i32, i32), Seq<char>)>,
)
    requires
        v2_parts_ok(np, es, ns),
    ensures
        parse_from(v2_lines(np, es, ns), 0, MshVersion::V4, empty_mesh()) == Ok::<
            MeshView,
            crate::msh_spec::MshErrorView,
        >(
            MeshView {
                nodes: insert_all(Map::empty(), np),
                elements: es.map_values(|e: ElementView| without_tag(e)),
                physical_names: insert_all(Map::empty(), ns),
            },
        ),
{
    let lines = v2_lines(np, es, ns);
    lemma_v2_lines_layout(np, es, ns);
    let h = names_lines(ns).len() as int;
    let p = 3 + h;
    let n = np.len() as int;
    let k = es.len() as int;
    let p2 = p + 3 + n;
    let e0 = empty_mesh();
    lemma_format_section(lines, e0);
    assert(parse_from(lines, 0, MshVersion::V4, e0) == parse_from(lines, 3, MshVersion::V2, e0));
    let m1 = MeshView { physical_names: insert_all(e0.physical_names, ns), ..e0 };
    lemma_v2_names_part(np, es, ns);
    assert(parse_from(lines, 3, MshVersion::V2, e0) == parse_from(lines, p, MshVersion::V2, m1));
    let m2 = MeshView { nodes: insert_all(m1.nodes, np), ..m1 };
    lemma_nodes_section_v2(lines, p, np, m1);
    assert(parse_from(lines, p, MshVersion::V2, m1) == parse_from(lines, p2, MshVersion::V2, m2));
    let m3 = MeshView {
        elements: m2.elements + es.map_values(|e: ElementView| without_tag(e)),
        ..m2
    };
    lemma_elements_section_v2(lines, p2, es, m2);
    assert(parse_from(lines, p2, MshVersion::V2, m2) == parse_from(
        lines,
        p2 + 3 + k,
        MshVersion::V2,
        m3,
    ));
    assert(m3.elements =~= es.map_values(|e: ElementView| without_tag(e)));
}

/// Reading back the format-2 file written from a mesh gives the mesh's
/// nodes and physical names unchanged, and its elements in ID order with
/// their physical tags dropped (the format-2 reader skips element tags),
/// provided the mesh can be written (supported types, existing nodes),
/// its coordinates are floating-point literals and its group names hold
/// no line feed and no quote at either end.
pub proof fn lemma_v2_roundtrip(m: Mesh)
    requires
        m.wf(),
        spec_validate(m@.nodes, m@.elements) is Ok,
        writable(m@),
        m@.nodes.len() <= usize::MAX,
        m@.elements.len() <= usize::MAX,
        m@.physical_names.len() <= usize::MAX,
    ensures
        spec_parse_msh(v2_text(m)) == Ok::<MeshView, crate::msh_spec::MshErrorView>(
            v2_readback(m@),
        ),
{
    let np = node_pairs(m.node_seq());
    let ns = name_pairs(m.name_seq());
    let es = sort_by_id(m@.elements);
    m.lemma_wf_distinct();
    lemma_pairs_to_map(np);
    lemma_pairs_to_map(ns);
    crate::mesh::lemma_distinct_pairs_map_len(np);
    crate::mesh::lemma_distinct_pairs_map_len(ns);
    lemma_sort_from(m@.elements);
    lemma_validate_supported(m@.nodes, m@.elements);
    assert forall|j: int| 0 <= j < np.len() implies literal_point(#[trigger] np[j]) by {
        assert(m@.nodes.contains_key(np[j].0));
        assert(pairs_to_map(np)[np[j].0] == np[j].1);
    }
    assert forall|j: int| 0 <= j < ns.len() implies clean_name(#[trigger] ns[j].1) by {
        assert(m@.physical_names.contains_key(ns[j].0));
        assert(pairs_to_map(ns)[ns[j].0] == ns[j].1);
    }
    assert forall|j: int| 0 <= j < es.len() implies spec_gmsh_type_id(
        (#[trigger] es[j]).etype,
    ) is Some by {
        assert(m@.elements.contains(es[j]));
        let i = choose|i: int| 0 <= i < m@.elements.len() && m@.elements[i] == es[j];
        assert(spec_gmsh_type_id(m@.elements[i].etype) is Some);
    }
    assert(v2_parts_ok(np, es, ns));
    let lines = v2_lines(np, es, ns);
    lemma_v2_lines_plain(np, es, ns);
    assert forall|q: int| 0 <= q < lines.len() implies no_newline(#[trigger] lines[q]) && (
    lines[q].len() == 0 || lines[q].last() != '\r') by {
        assert(plain_line(lines[q]));
    }
    lemma_lines_of_joined(lines);
    lemma_v2_lines_parse(np, es, ns);
    lemma_insert_all(Seq::empty(), np);
    lemma_insert_all_names(Seq::empty(), ns);
    assert(Seq::<(u64, PointView)>::empty() + np =~= np);
    assert(Seq::<((i32, i32), Seq<char>)>::empty() + ns =~= ns);
    assert(pairs_to_map(Seq::<(u64, PointView)>::empty()) =~= Map::empty());
    assert(pairs_to_map(Seq::<((i32, i32), Seq<char>)>::empty()) =~= Map::empty());
}

} // verus!
