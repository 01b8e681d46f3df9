//! Writing Gmsh MSH files (ASCII, format 2.2 and 4.1).
use vstd::prelude::*;
use vstd::std_specs::iter::IteratorSpec;

use crate::element::{spec_dimension, spec_gmsh_type_id, Element, ElementType, ElementView};
use crate::mesh::{
    elements_view, name_pairs, node_pairs, pairs_to_map, Mesh, MeshView, Node, PhysicalName,
    PointView,
};
use crate::msh::{
    kw_elements_chars, kw_end_elements_chars, kw_end_mesh_format_chars, kw_end_nodes_chars,
    kw_end_physical_names_chars, kw_mesh_format_chars, kw_nodes_chars, kw_physical_names_chars,
    MshError,
};
use crate::msh_spec::{
    kw_elements, kw_end_elements, kw_end_mesh_format, kw_end_nodes, kw_end_physical_names,
    kw_mesh_format, kw_nodes, kw_physical_names, MshErrorView,
};
use crate::text::{dec, dec_int, join_lines, push_dec, push_int, space};

verus! {

// ─── Text pieces ─────────────────────────────────────────────────────────────

/// The decimal text of an unsigned number.
pub open spec fn dec_u(n: u64) -> Seq<char> {
    dec(n as nat)
}

/// The decimal text of a signed number.
pub open spec fn dec_i(v: i32) -> Seq<char> {
    dec_int(v as int)
}

/// ` n1 n2 ...`: each node ID preceded by a space.
pub open spec fn id_list(ids: Seq<u64>) -> Seq<char>
    decreases ids.len(),
{
    if ids.len() == 0 {
        seq![]
    } else {
        id_list(ids.drop_last()) + space() + dec_u(ids.last())
    }
}

// ─── Validation ──────────────────────────────────────────────────────────────

/// The first node ID of `ids` that `nodes` lacks, if any.
pub open spec fn first_missing(nodes: Map<u64, PointView>, ids: Seq<u64>) -> Option<u64>
    decreases ids.len(),
{
    if ids.len() == 0 {
        None
    } else if !nodes.contains_key(ids[0]) {
        Some(ids[0])
    } else {
        first_missing(nodes, ids.drop_first())
    }
}

/// Whether a mesh can be written: the first element, in order, of an
/// unsupported type or with a node that the mesh lacks gives the error.
pub open spec fn spec_validate(nodes: Map<u64, PointView>, elems: Seq<ElementView>) -> Result<
    (),
    MshErrorView,
>
    decreases elems.len(),
{
    if elems.len() == 0 {
        Ok(())
    } else {
        let e = elems[0];
        if spec_gmsh_type_id(e.etype) is None {
            Err(MshErrorView::UnsupportedElementType(e.etype))
        } else {
            match first_missing(nodes, e.node_ids) {
                Some(id) => Err(MshErrorView::MissingNode(id)),
                None => spec_validate(nodes, elems.drop_first()),
            }
        }
    }
}

// ─── Sorting elements by ID ──────────────────────────────────────────────────

/// `e` inserted into `s` after every element whose ID is at most `e.id`.
pub open spec fn insert_by_id(s: Seq<ElementView>, e: ElementView) -> Seq<ElementView>
    decreases s.len(),
{
    if s.len() == 0 {
        seq![e]
    } else if s.last().id <= e.id {
        s.push(e)
    } else {
        insert_by_id(s.drop_last(), e).push(s.last())
    }
}

/// The elements of `s` stably sorted by ID.
pub open spec fn sort_by_id(s: Seq<ElementView>) -> Seq<ElementView>
    decreases s.len(),
{
    if s.len() == 0 {
        seq![]
    } else {
        insert_by_id(sort_by_id(s.drop_last()), s.last())
    }
}

/// The IDs of `s` do not decrease.
pub open spec fn sorted_ids(s: Seq<ElementView>) -> bool {
    forall|i: int, j: int| 0 <= i < j < s.len() ==> s[i].id <= s[j].id
}

/// Inserting after the elements with an ID at most `e.id` is inserting at
/// the first position with a greater ID.
pub proof fn lemma_insert_by_id(s: Seq<ElementView>, e: ElementView, p: int)
    requires
        sorted_ids(s),
        0 <= p <= s.len(),
        forall|i: int| 0 <= i < p ==> s[i].id <= e.id,
        forall|i: int| p <= i < s.len() ==> s[i].id > e.id,
    ensures
        insert_by_id(s, e) == s.insert(p, e),
        sorted_ids(s.insert(p, e)),
    decreases s.len(),
{
    if s.len() == 0 {
        assert(s.insert(p, e) =~= seq![e]);
    } else if s.last().id <= e.id {
        assert(p == s.len());
        assert(s.insert(p, e) =~= s.push(e));
    } else {
        let t = s.drop_last();
        assert(p < s.len());
        lemma_insert_by_id(t, e, p);
        assert(t.insert(p, e).push(s.last()) =~= s.insert(p, e));
    }
    let r = s.insert(p, e);
    assert forall|i: int, j: int| 0 <= i < j < r.len() implies r[i].id <= r[j].id by {
        if j < p {
            assert(r[i] == s[i] && r[j] == s[j]);
        } else if j == p {
            assert(r[i] == s[i]);
        } else if i == p {
            assert(r[j] == s[j - 1]);
        } else if i < p {
            assert(r[i] == s[i] && r[j] == s[j - 1]);
        } else {
            assert(r[i] == s[i - 1] && r[j] == s[j - 1]);
        }
    }
}

/// Inserting by ID adds the element once and keeps the others.
proof fn lemma_insert_by_id_multiset(t: Seq<ElementView>, e: ElementView)
    ensures
        insert_by_id(t, e).to_multiset() == t.to_multiset().insert(e),
    decreases t.len(),
{
    broadcast use vstd::seq_lib::to_multiset_build;

    if t.len() == 0 {
        assert(seq![e] =~= Seq::<ElementView>::empty().push(e));
        assert(t =~= Seq::<ElementView>::empty());
    } else if t.last().id <= e.id {
    } else {
        let d = t.drop_last();
        lemma_insert_by_id_multiset(d, e);
        assert(t =~= d.push(t.last()));
        assert(d.to_multiset().insert(e).insert(t.last()) =~= d.to_multiset().insert(t.last()).insert(e));
    }
}

/// Sorting by ID keeps every element, as often as it occurs.
pub proof fn lemma_sort_by_id_permutes(s: Seq<ElementView>)
    ensures
        sort_by_id(s).to_multiset() == s.to_multiset(),
    decreases s.len(),
{
    broadcast use vstd::seq_lib::to_multiset_build;

    if s.len() > 0 {
        lemma_sort_by_id_permutes(s.drop_last());
        lemma_insert_by_id_multiset(sort_by_id(s.drop_last()), s.last());
        assert(s =~= s.drop_last().push(s.last()));
    } else {
        assert(sort_by_id(s) =~= s);
    }
}

/// Sorting gives non-decreasing IDs and keeps the number of elements.
pub proof fn lemma_sort_by_id_sorted(s: Seq<ElementView>)
    ensures
        sorted_ids(sort_by_id(s)),
        sort_by_id(s).len() == s.len(),
    decreases s.len(),
{
    if s.len() > 0 {
        lemma_sort_by_id_sorted(s.drop_last());
        let t = sort_by_id(s.drop_last());
        let e = s.last();
        let p = upper_bound_pos(t, e.id);
        lemma_upper_bound_pos(t, e.id);
        lemma_insert_by_id(t, e, p);
    }
}

/// The first position of a sorted sequence with an ID greater than `id`.
pub open spec fn upper_bound_pos(s: Seq<ElementView>, id: u64) -> int
    decreases s.len(),
{
    if s.len() == 0 {
        0
    } else if s.last().id <= id {
        s.len() as int
    } else {
        upper_bound_pos(s.drop_last(), id)
    }
}

/// The first position with a greater ID splits a sorted sequence into the
/// IDs at most `id` and the greater ones.
pub proof fn lemma_upper_bound_pos(s: Seq<ElementView>, id: u64)
    requires
        sorted_ids(s),
    ensures
        0 <= upper_bound_pos(s, id) <= s.len(),
        forall|i: int| 0 <= i < upper_bound_pos(s, id) ==> s[i].id <= id,
        forall|i: int| upper_bound_pos(s, id) <= i < s.len() ==> s[i].id > id,
    decreases s.len(),
{
    if s.len() > 0 {
        let t = s.drop_last();
        assert(sorted_ids(t)) by {
            assert forall|i: int, j: int| 0 <= i < j < t.len() implies t[i].id <= t[j].id by {
                assert(t[i] == s[i] && t[j] == s[j]);
            }
        }
        lemma_upper_bound_pos(t, id);
        if s.last().id > id {
            assert forall|i: int| upper_bound_pos(s, id) <= i < s.len() implies s[i].id > id by {
                if i < s.len() - 1 {
                    assert(s[i] == t[i]);
                }
            }
            assert forall|i: int| 0 <= i < upper_bound_pos(s, id) implies s[i].id <= id by {
                assert(s[i] == t[i]);
            }
        } else {
            assert forall|i: int| 0 <= i < s.len() implies s[i].id <= id by {
                if i < s.len() - 1 {
                    assert(s[i].id <= s[s.len() - 1].id);
                }
            }
        }
    }
}

/// The values of a sequence of element references.
pub open spec fn refs_view(s: Seq<&Element>) -> Seq<ElementView> {
    s.map_values(|e: &Element| e@)
}

/// The elements of `elems` stably sorted by ID.
pub fn sorted_elements(elems: &Vec<Element>) -> (r: Vec<&Element>)
    ensures
        refs_view(r@) == sort_by_id(elements_view(elems@)),
{
    let ghost ev = elements_view(elems@);
    let mut out: Vec<&Element> = Vec::new();
    let mut i: usize = 0;
    assert(refs_view(out@) =~= sort_by_id(ev.take(0)));
    while i < elems.len()
        invariant
            i <= elems@.len(),
            ev == elements_view(elems@),
            refs_view(out@) == sort_by_id(ev.take(i as int)),
        decreases elems@.len() - i,
    {
        proof {
            lemma_sort_by_id_sorted(ev.take(i as int));
            assert(ev.take(i + 1).drop_last() =~= ev.take(i as int));
        }
        let e = &elems[i];
        let id = e.id;
        let ghost s = refs_view(out@);
        let mut lo: usize = 0;
        let mut hi: usize = out.len();
        if hi > 0 && out[hi - 1].id <= id {
            lo = hi;
            assert forall|k: int| 0 <= k < lo implies s[k].id <= id by {
                assert(s[hi - 1].id == out@[hi - 1].id);
                if k < hi - 1 {
                    assert(s[k].id <= s[hi - 1].id);
                }
            }
        }
        while lo < hi
            invariant
                lo <= hi <= out@.len(),
                s == refs_view(out@),
                sorted_ids(s),
                forall|k: int| 0 <= k < lo ==> s[k].id <= id,
                forall|k: int| hi <= k < s.len() ==> s[k].id > id,
            decreases hi - lo,
        {
            let mid = lo + (hi - lo) / 2;
            assert(s[mid as int].id == out@[mid as int].id);
            assert(forall|k: int| 0 <= k < mid ==> s[k].id <= s[mid as int].id);
            assert(forall|k: int| mid < k < s.len() ==> s[mid as int].id <= s[k].id);
            if out[mid].id <= id {
                lo = mid + 1;
            } else {
                hi = mid;
            }
        }
        proof {
            lemma_insert_by_id(s, e@, lo as int);
        }
        out.insert(lo, e);
        assert(refs_view(out@) =~= s.insert(lo as int, e@));
        i = i + 1;
    }
    assert(ev.take(i as int) =~= ev);
    out
}

// ─── Format 2.2 text ─────────────────────────────────────────────────────────

/// The physical name line of `p`: dimension, tag and quoted name.
pub open spec fn name_line(p: ((i32, i32), Seq<char>)) -> Seq<char> {
    dec_i(p.0.0) + space() + dec_i(p.0.1) + space() + seq!['"'] + p.1 + seq!['"']
}

/// The physical names section, absent when there are no names.
pub open spec fn names_lines(names: Seq<((i32, i32), Seq<char>)>) -> Seq<Seq<char>> {
    if names.len() == 0 {
        seq![]
    } else {
        seq![kw_physical_names(), dec(names.len())] + names.map_values(
            |p: ((i32, i32), Seq<char>)| name_line(p),
        ) + seq![kw_end_physical_names()]
    }
}

/// The format section announcing version `v`.
pub open spec fn format_lines(v: Seq<char>) -> Seq<Seq<char>> {
    seq![kw_mesh_format(), v, kw_end_mesh_format()]
}

/// `2.2 0 8`
pub open spec fn version_v2() -> Seq<char> {
    seq!['2', '.', '2', ' ', '0', ' ', '8']
}

/// `4.1 0 8`
pub open spec fn version_v4() -> Seq<char> {
    seq!['4', '.', '1', ' ', '0', ' ', '8']
}

/// A format-2 node line: ID and coordinates.
pub open spec fn node_line_v2(p: (u64, PointView)) -> Seq<char> {
    dec_u(p.0) + space() + p.1.0 + space() + p.1.1 + space() + p.1.2
}

/// The Gmsh type number of an element, zero for an unsupported type.
pub open spec fn type_number(t: ElementType) -> i32 {
    match spec_gmsh_type_id(t) {
        Some(n) => n,
        None => 0,
    }
}

/// The tag fields of a format-2 element line.
pub open spec fn tags_part(t: Option<i32>) -> Seq<char> {
    match t {
        Some(tag) => space() + dec(2) + space() + dec_i(tag) + space() + dec(0),
        None => space() + dec(0),
    }
}

/// A format-2 element line: ID, type, tags and node IDs.
pub open spec fn element_line_v2(e: ElementView) -> Seq<char> {
    dec_u(e.id) + space() + dec_i(type_number(e.etype)) + tags_part(e.physical_tag) + id_list(
        e.node_ids,
    )
}

/// The lines of the format-2 file of the given nodes, elements (already
/// in the order to write) and names.
pub open spec fn v2_lines(
    nodes: Seq<(u64, PointView)>,
    elems: Seq<ElementView>,
    names: Seq<((i32, i32), Seq<char>)>,
) -> Seq<Seq<char>> {
    format_lines(version_v2()) + names_lines(names) + seq![kw_nodes(), dec(nodes.len())]
        + nodes.map_values(|p: (u64, PointView)| node_line_v2(p)) + seq![
        kw_end_nodes(),
        kw_elements(),
        dec(elems.len()),
    ] + elems.map_values(|e: ElementView| element_line_v2(e)) + seq![kw_end_elements()]
}

/// The text of the format-2 file of `m`.
pub open spec fn v2_text(m: Mesh) -> Seq<char> {
    join_lines(
        v2_lines(
            node_pairs(m.node_seq()),
            sort_by_id(elements_view(m.element_seq())),
            name_pairs(m.name_seq()),
        ),
    )
}

/// Joining two runs of lines is joining each.
pub proof fn lemma_join_lines_append(a: Seq<Seq<char>>, b: Seq<Seq<char>>)
    ensures
        join_lines(a + b) == join_lines(a) + join_lines(b),
    decreases b.len(),
{
    if b.len() == 0 {
        assert(a + b =~= a);
        assert(join_lines(b) =~= Seq::<char>::empty());
        assert(join_lines(a) + Seq::<char>::empty() =~= join_lines(a));
    } else {
        lemma_join_lines_append(a, b.drop_last());
        assert((a + b).drop_last() =~= a + b.drop_last());
        assert(join_lines(a) + join_lines(b) =~= join_lines(a) + join_lines(b.drop_last()) + b.last()
            + seq!['\n']);
    }
}

// ─── Writing helpers ─────────────────────────────────────────────────────────

/// Appends the characters of `s` to `out`.
pub(crate) fn push_string(out: &mut Vec<char>, s: &String)
    ensures
        final(out)@ == old(out)@ + s@,
{
    broadcast use vstd::string::group_string_axioms;

    let mut it = s.as_str().chars();
    loop
        invariant
            out@ + it.remaining() == old(out)@ + s@,
            it.decrease() is Some,
        ensures
            out@ == old(out)@ + s@,
        decreases it.decrease()->0,
    {
        match it.next() {
            Some(c) => {
                out.push(c);
            },
            None => {
                assert(out@ =~= old(out)@ + s@);
                break ;
            },
        }
    }
}

/// Appends the characters of `w` to `out`.
pub(crate) fn push_chars(out: &mut Vec<char>, w: &Vec<char>)
    ensures
        final(out)@ == old(out)@ + w@,
{
    let mut i: usize = 0;
    while i < w.len()
        invariant
            i <= w@.len(),
            out@ == old(out)@ + w@.take(i as int),
        decreases w@.len() - i,
    {
        out.push(w[i]);
        i = i + 1;
        assert(out@ =~= old(out)@ + w@.take(i as int));
    }
    assert(w@.take(i as int) =~= w@);
}

/// Appends the line `w` and a line feed to `out`.
pub(crate) fn push_line(out: &mut Vec<char>, w: &Vec<char>)
    ensures
        final(out)@ == old(out)@ + join_lines(seq![w@]),
{
    push_chars(out, w);
    out.push('\n');
    assert(seq![w@].drop_last() =~= Seq::<Seq<char>>::empty());
    assert(join_lines(Seq::<Seq<char>>::empty()) == Seq::<char>::empty());
    assert(join_lines(seq![w@]) =~= w@ + seq!['\n']);
    assert(out@ =~= old(out)@ + join_lines(seq![w@]));
}

/// Appends a number on a line of its own.
pub(crate) fn push_count_line(out: &mut Vec<char>, n: usize)
    ensures
        final(out)@ == old(out)@ + join_lines(seq![dec(n as nat)]),
{
    push_dec(out, n as u64);
    out.push('\n');
    assert(seq![dec(n as nat)].drop_last() =~= Seq::<Seq<char>>::empty());
    assert(join_lines(Seq::<Seq<char>>::empty()) == Seq::<char>::empty());
    assert(join_lines(seq![dec(n as nat)]) =~= dec(n as nat) + seq!['\n']);
    assert(out@ =~= old(out)@ + join_lines(seq![dec(n as nat)]));
}

/// The Gmsh type number of an element type, or the error for an
/// unsupported type.
pub fn gmsh_type_id(element_type: ElementType) -> (r: Result<i32, MshError>)
    ensures
        match spec_gmsh_type_id(element_type) {
            Some(n) => r matches Ok(k) && k == n,
            None => r matches Err(e) && e@ == MshErrorView::UnsupportedElementType(element_type),
        },
{
    match element_type {
        ElementType::Point1 => Ok(15),
        ElementType::Line2 => Ok(1),
        ElementType::Triangle3 => Ok(2),
        ElementType::Quad4 => Ok(3),
        ElementType::Tetrahedron4 => Ok(4),
        ElementType::Hexahedron8 => Ok(5),
        ElementType::Prism6 => Ok(6),
        ElementType::Pyramid5 => Ok(7),
        ElementType::Unknown(_) => Err(MshError::UnsupportedElementType(element_type)),
    }
}

/// Checks that every element has a supported type and existing nodes.
pub fn validate_mesh(mesh: &Mesh) -> (r: Result<(), MshError>)
    requires
        mesh.wf(),
    ensures
        match spec_validate(mesh@.nodes, mesh@.elements) {
            Ok(()) => r is Ok,
            Err(e) => r matches Err(x) && x@ == e,
        },
{
    let elems = mesh.elements();
    let ghost ev = mesh@.elements;
    let mut i: usize = 0;
    assert(ev.skip(0) =~= ev);
    while i < elems.len()
        invariant
            mesh.wf(),
            elems@ == mesh.element_seq(),
            ev == mesh@.elements,
            ev == elements_view(elems@),
            i <= elems@.len(),
            spec_validate(mesh@.nodes, ev) == spec_validate(mesh@.nodes, ev.skip(i as int)),
        decreases elems@.len() - i,
    {
        let ghost rest = ev.skip(i as int);
        assert(rest[0] == elems@[i as int]@);
        assert(rest.drop_first() =~= ev.skip(i + 1));
        let e = &elems[i];
        match gmsh_type_id(e.etype) {
            Err(x) => return Err(x),
            Ok(_) => {},
        }
        let mut k: usize = 0;
        assert(e.node_ids@.skip(0) =~= e.node_ids@);
        while k < e.node_ids.len()
            invariant
                mesh.wf(),
                i < elems@.len(),
                ev == mesh@.elements,
                ev.len() == elems@.len(),
                ev.skip(i as int).len() > 0,
                ev.skip(i as int)[0] == e@,
                ev.skip(i as int).drop_first() == ev.skip(i + 1),
                spec_gmsh_type_id(e.etype) is Some,
                spec_validate(mesh@.nodes, ev) == spec_validate(mesh@.nodes, ev.skip(i as int)),
                k <= e.node_ids@.len(),
                first_missing(mesh@.nodes, e.node_ids@) == first_missing(
                    mesh@.nodes,
                    e.node_ids@.skip(k as int),
                ),
            decreases e.node_ids@.len() - k,
        {
            let ghost r2 = e.node_ids@.skip(k as int);
            assert(r2[0] == e.node_ids@[k as int]);
            assert(r2.drop_first() =~= e.node_ids@.skip(k + 1));
            let id = e.node_ids[k];
            if !mesh.contains_node(id) {
                return Err(MshError::MissingNode(id));
            }
            k = k + 1;
        }
        assert(e.node_ids@.skip(k as int) =~= Seq::<u64>::empty());
        i = i + 1;
    }
    assert(ev.skip(i as int) =~= Seq::<ElementView>::empty());
    Ok(())
}

/// The text of `out` as a string.
pub(crate) fn chars_to_string(out: &Vec<char>) -> (s: String)
    ensures
        s@ == out@,
{
    let mut s = String::new();
    let mut i: usize = 0;
    while i < out.len()
        invariant
            i <= out@.len(),
            s@ == out@.take(i as int),
        decreases out@.len() - i,
    {
        s.push(out[i]);
        i = i + 1;
        assert(s@ =~= out@.take(i as int));
    }
    assert(out@.take(i as int) =~= out@);
    s
}

/// The Gmsh type number of an element type, zero for an unsupported type.
pub(crate) fn type_number_of(t: ElementType) -> (n: i32)
    ensures
        n == type_number(t),
{
    match gmsh_type_id(t) {
        Ok(n) => n,
        Err(_) => 0,
    }
}

/// Joining one more line.
pub(crate) proof fn lemma_join_take(ls: Seq<Seq<char>>, i: int)
    requires
        0 <= i < ls.len(),
    ensures
        join_lines(ls.take(i + 1)) == join_lines(ls.take(i)) + ls[i] + seq!['\n'],
{
    assert(ls.take(i + 1).drop_last() =~= ls.take(i));
}

/// Appends the format section announcing `v`.
pub(crate) fn push_format(out: &mut Vec<char>, v: &Vec<char>)
    ensures
        final(out)@ == old(out)@ + join_lines(format_lines(v@)),
{
    let ghost ls = format_lines(v@);
    push_line(out, &kw_mesh_format_chars());
    push_line(out, v);
    push_line(out, &kw_end_mesh_format_chars());
    proof {
        assert(ls.take(0) =~= Seq::<Seq<char>>::empty());
        lemma_join_take(ls, 0);
        lemma_join_take(ls, 1);
        lemma_join_take(ls, 2);
        assert(ls.take(3) =~= ls);
        assert(join_lines(seq![ls[0]]) =~= ls[0] + seq!['\n']) by {
            assert(seq![ls[0]].drop_last() =~= Seq::<Seq<char>>::empty());
        }
        assert(join_lines(seq![ls[1]]) =~= ls[1] + seq!['\n']) by {
            assert(seq![ls[1]].drop_last() =~= Seq::<Seq<char>>::empty());
        }
        assert(join_lines(seq![ls[2]]) =~= ls[2] + seq!['\n']) by {
            assert(seq![ls[2]].drop_last() =~= Seq::<Seq<char>>::empty());
        }
        assert(join_lines(Seq::<Seq<char>>::empty()) == Seq::<char>::empty());
    }
    assert(out@ =~= old(out)@ + join_lines(format_lines(v@)));
}

/// Appends the physical name line of `p`, without its line feed.
fn push_name_line(out: &mut Vec<char>, p: &PhysicalName)
    ensures
        final(out)@ == old(out)@ + name_line(((p.dim, p.tag), p.name@)),
{
    push_int(out, p.dim as i64);
    out.push(' ');
    push_int(out, p.tag as i64);
    out.push(' ');
    out.push('"');
    push_string(out, &p.name);
    out.push('"');
    assert(out@ =~= old(out)@ + name_line(((p.dim, p.tag), p.name@)));
}

/// Appends the physical names section of `mesh`.
pub(crate) fn push_names_section(out: &mut Vec<char>, mesh: &Mesh)
    ensures
        final(out)@ == old(out)@ + join_lines(names_lines(name_pairs(mesh.name_seq()))),
{
    let names = mesh.physical_names();
    let ghost np = name_pairs(names@);
    if names.len() == 0 {
        assert(names_lines(np) =~= Seq::<Seq<char>>::empty());
        assert(join_lines(Seq::<Seq<char>>::empty()) == Seq::<char>::empty());
        assert(out@ =~= old(out)@ + join_lines(names_lines(np)));
        return ;
    }
    let ghost body = np.map_values(|p: ((i32, i32), Seq<char>)| name_line(p));
    let ghost head = seq![kw_physical_names(), dec(np.len())];
    push_line(out, &kw_physical_names_chars());
    push_count_line(out, names.len());
    proof {
        lemma_join_lines_append(seq![kw_physical_names()], seq![dec(np.len())]);
        assert(seq![kw_physical_names()] + seq![dec(np.len())] =~= head);
    }
    let ghost start = out@;
    let mut i: usize = 0;
    assert(body.take(0) =~= Seq::<Seq<char>>::empty());
    while i < names.len()
        invariant
            i <= names@.len(),
            np == name_pairs(names@),
            body == np.map_values(|p: ((i32, i32), Seq<char>)| name_line(p)),
            out@ == start + join_lines(body.take(i as int)),
        decreases names@.len() - i,
    {
        proof {
            lemma_join_take(body, i as int);
        }
        push_name_line(out, &names[i]);
        out.push('\n');
        i = i + 1;
        assert(out@ =~= start + join_lines(body.take(i as int)));
    }
    assert(body.take(i as int) =~= body);
    push_line(out, &kw_end_physical_names_chars());
    proof {
        lemma_join_lines_append(head, body);
        lemma_join_lines_append(head + body, seq![kw_end_physical_names()]);
        assert(names_lines(np) =~= head + body + seq![kw_end_physical_names()]);
    }
    assert(out@ =~= old(out)@ + join_lines(names_lines(np)));
}

/// Appends the format-2 node lines of `nodes`.
fn push_node_lines_v2(out: &mut Vec<char>, nodes: &Vec<Node>)
    ensures
        final(out)@ == old(out)@ + join_lines(
            node_pairs(nodes@).map_values(|p: (u64, PointView)| node_line_v2(p)),
        ),
{
    let ghost body = node_pairs(nodes@).map_values(|p: (u64, PointView)| node_line_v2(p));
    let mut i: usize = 0;
    assert(body.take(0) =~= Seq::<Seq<char>>::empty());
    while i < nodes.len()
        invariant
            i <= nodes@.len(),
            body == node_pairs(nodes@).map_values(|p: (u64, PointView)| node_line_v2(p)),
            out@ == old(out)@ + join_lines(body.take(i as int)),
        decreases nodes@.len() - i,
    {
        proof {
            lemma_join_take(body, i as int);
        }
        let n = &nodes[i];
        push_dec(out, n.id);
        out.push(' ');
        push_string(out, &n.position.x);
        out.push(' ');
        push_string(out, &n.position.y);
        out.push(' ');
        push_string(out, &n.position.z);
        out.push('\n');
        i = i + 1;
        assert(out@ =~= old(out)@ + join_lines(body.take(i as int)));
    }
    assert(body.take(i as int) =~= body);
}

/// Appends ` n1 n2 ...` for the IDs of `ids`.
pub(crate) fn push_id_list(out: &mut Vec<char>, ids: &Vec<u64>)
    ensures
        final(out)@ == old(out)@ + id_list(ids@),
{
    let mut i: usize = 0;
    assert(ids@.take(0) =~= Seq::<u64>::empty());
    while i < ids.len()
        invariant
            i <= ids@.len(),
            out@ == old(out)@ + id_list(ids@.take(i as int)),
        decreases ids@.len() - i,
    {
        assert(ids@.take(i + 1).drop_last() =~= ids@.take(i as int));
        out.push(' ');
        push_dec(out, ids[i]);
        i = i + 1;
        assert(out@ =~= old(out)@ + id_list(ids@.take(i as int)));
    }
    assert(ids@.take(i as int) =~= ids@);
}

/// Appends the format-2 line of `e`, without its line feed.
fn push_element_line_v2(out: &mut Vec<char>, e: &Element)
    ensures
        final(out)@ == old(out)@ + element_line_v2(e@),
{
    push_dec(out, e.id);
    out.push(' ');
    push_int(out, type_number_of(e.etype) as i64);
    let ghost mid = out@;
    match e.physical_tag {
        Some(tag) => {
            out.push(' ');
            push_dec(out, 2);
            out.push(' ');
            push_int(out, tag as i64);
            out.push(' ');
            push_dec(out, 0);
        },
        None => {
            out.push(' ');
            push_dec(out, 0);
        },
    }
    assert(out@ =~= mid + tags_part(e.physical_tag));
    push_id_list(out, &e.node_ids);
    assert(out@ =~= old(out)@ + element_line_v2(e@));
}

/// Appends the format-2 element lines of `elems`.
fn push_element_lines_v2(out: &mut Vec<char>, elems: &Vec<&Element>)
    ensures
        final(out)@ == old(out)@ + join_lines(
            refs_view(elems@).map_values(|e: ElementView| element_line_v2(e)),
        ),
{
    let ghost body = refs_view(elems@).map_values(|e: ElementView| element_line_v2(e));
    let mut i: usize = 0;
    assert(body.take(0) =~= Seq::<Seq<char>>::empty());
    while i < elems.len()
        invariant
            i <= elems@.len(),
            body == refs_view(elems@).map_values(|e: ElementView| element_line_v2(e)),
            out@ == old(out)@ + join_lines(body.take(i as int)),
        decreases elems@.len() - i,
    {
        proof {
            lemma_join_take(body, i as int);
        }
        let e = elems[i];
        push_element_line_v2(out, e);
        out.push('\n');
        i = i + 1;
        assert(out@ =~= old(out)@ + join_lines(body.take(i as int)));
    }
    assert(body.take(i as int) =~= body);
}

/// Writes a mesh as a Gmsh MSH file, format 2.2 (ASCII): nodes in ID
/// order, elements stably sorted by ID.
pub fn write_msh_v2(mesh: &Mesh) -> (r: Result<String, MshError>)
    requires
        mesh.wf(),
    ensures
        match spec_validate(mesh@.nodes, mesh@.elements) {
            Ok(()) => r matches Ok(s) && s@ == v2_text(*mesh),
            Err(e) => r matches Err(x) && x@ == e,
        },
{
    match validate_mesh(mesh) {
        Err(e) => return Err(e),
        Ok(()) => {},
    }
    let nodes = mesh.nodes();
    let elements = sorted_elements(mesh.elements());
    let ghost np = node_pairs(nodes@);
    let ghost ev = refs_view(elements@);
    let ghost names = name_pairs(mesh.name_seq());
    let mut out: Vec<char> = Vec::new();
    let version = vec!['2', '.', '2', ' ', '0', ' ', '8'];
    assert(version@ =~= version_v2());
    push_format(&mut out, &version);
    push_names_section(&mut out, mesh);
    push_line(&mut out, &kw_nodes_chars());
    push_count_line(&mut out, nodes.len());
    push_node_lines_v2(&mut out, nodes);
    push_line(&mut out, &kw_end_nodes_chars());
    push_line(&mut out, &kw_elements_chars());
    push_count_line(&mut out, elements.len());
    push_element_lines_v2(&mut out, &elements);
    push_line(&mut out, &kw_end_elements_chars());
    proof {
        let a = format_lines(version_v2());
        let b = names_lines(names);
        let c = seq![kw_nodes(), dec(np.len())];
        let d = np.map_values(|p: (u64, PointView)| node_line_v2(p));
        let e = seq![kw_end_nodes(), kw_elements(), dec(ev.len())];
        let f = ev.map_values(|e: ElementView| element_line_v2(e));
        let g = seq![kw_end_elements()];
        lemma_join_lines_append(seq![kw_nodes()], seq![dec(np.len())]);
        assert(seq![kw_nodes()] + seq![dec(np.len())] =~= c);
        lemma_join_lines_append(seq![kw_end_nodes()], seq![kw_elements()]);
        lemma_join_lines_append(seq![kw_end_nodes()] + seq![kw_elements()], seq![dec(ev.len())]);
        assert(seq![kw_end_nodes()] + seq![kw_elements()] + seq![dec(ev.len())] =~= e);
        lemma_join_lines_append(a, b);
        lemma_join_lines_append(a + b, c);
        lemma_join_lines_append(a + b + c, d);
        lemma_join_lines_append(a + b + c + d, e);
        lemma_join_lines_append(a + b + c + d + e, f);
        lemma_join_lines_append(a + b + c + d + e + f, g);
        assert(v2_lines(np, ev, names) =~= a + b + c + d + e + f + g);
        assert(join_lines(Seq::<Seq<char>>::empty()) == Seq::<char>::empty());
    }
    assert(out@ =~= v2_text(*mesh));
    Ok(chars_to_string(&out))
}

} // verus!
