//! Boundary faces of volume meshes: the faces of volume elements that no
//! other volume element shares.
use vstd::prelude::*;
use vstd::relations::sorted_by;

use crate::element::{spec_dimension, spec_faces, Element, ElementView};
use crate::laplacian::count_of;
use crate::mesh::{elements_view, Mesh};

verus! {

broadcast use vstd::seq_lib::group_to_multiset_ensures;

// ─── Face keys ───────────────────────────────────────────────────────────────

/// The order of node IDs.
pub open spec fn id_order() -> spec_fn(u64, u64) -> bool {
    |a: u64, b: u64| a <= b
}

/// The node IDs of a face in increasing order: what identifies the face
/// whatever its orientation.
pub open spec fn face_key(f: Seq<u64>) -> Seq<u64> {
    f.sort_by(id_order())
}

/// The node IDs of `f` in increasing order.
pub fn sorted_ids_of(f: &Vec<u64>) -> (r: Vec<u64>)
    ensures
        r@ == face_key(f@),
{
    let mut r: Vec<u64> = Vec::new();
    let mut i: usize = 0;
    assert(f@.take(0) =~= Seq::<u64>::empty());
    while i < f.len()
        invariant
            i <= f@.len(),
            sorted_by(r@, id_order()),
            r@.to_multiset() == f@.take(i as int).to_multiset(),
        decreases f@.len() - i,
    {
        let x = f[i];
        let mut p: usize = 0;
        while p < r.len() && r[p] <= x
            invariant
                p <= r@.len(),
                forall|q: int| 0 <= q < p ==> r@[q] <= x,
            decreases r@.len() - p,
        {
            p = p + 1;
        }
        let ghost before = r@;
        assert forall|q: int| p <= q < before.len() implies x < before[q] by {
            if q > p {
                assert(id_order()(before[p as int], before[q]));
            }
        }
        r.insert(p, x);
        assert(r@ == before.insert(p as int, x));
        assert(sorted_by(r@, id_order())) by {
            assert forall|a: int, b: int| 0 <= a < b < r@.len() implies #[trigger] id_order()(
                r@[a],
                r@[b],
            ) by {
                if b < p {
                    assert(id_order()(before[a], before[b]));
                } else if a < p && b == p {
                } else if a < p {
                    assert(r@[b] == before[b - 1]);
                } else if a == p {
                    assert(r@[b] == before[b - 1]);
                } else {
                    assert(r@[a] == before[a - 1] && r@[b] == before[b - 1]);
                    assert(id_order()(before[a - 1], before[b - 1]));
                }
            }
        }
        assert(f@.take(i + 1) =~= f@.take(i as int).push(x));
        i = i + 1;
    }
    assert(f@.take(i as int) =~= f@);
    proof {
        f@.lemma_sort_by_ensures(id_order());
        vstd::seq_lib::lemma_sorted_unique(r@, face_key(f@), id_order());
    }
    r
}

// ─── Lexicographic order ─────────────────────────────────────────────────────

/// Lexicographic order of ID lists, a proper prefix first.
pub open spec fn lex_le(a: Seq<u64>, b: Seq<u64>) -> bool
    decreases a.len(),
{
    if a.len() == 0 {
        true
    } else if b.len() == 0 {
        false
    } else if a[0] != b[0] {
        a[0] < b[0]
    } else {
        lex_le(a.drop_first(), b.drop_first())
    }
}

/// The lexicographic order is total and transitive.
pub proof fn lemma_lex_order(a: Seq<u64>, b: Seq<u64>, c: Seq<u64>)
    ensures
        lex_le(a, b) || lex_le(b, a),
        lex_le(a, b) && lex_le(b, c) ==> lex_le(a, c),
        lex_le(a, a),
    decreases a.len(),
{
    if a.len() > 0 && b.len() > 0 && c.len() > 0 {
        lemma_lex_order(a.drop_first(), b.drop_first(), c.drop_first());
    } else if a.len() > 0 && b.len() > 0 {
        lemma_lex_order(a.drop_first(), b.drop_first(), b.drop_first());
    } else if a.len() > 0 {
        lemma_lex_order(a.drop_first(), a.drop_first(), a.drop_first());
    }
}

/// Whether `a` comes before or with `b` in lexicographic order.
fn lex_le_exec(a: &Vec<u64>, b: &Vec<u64>) -> (r: bool)
    ensures
        r == lex_le(a@, b@),
{
    let mut i: usize = 0;
    assert(a@.skip(0) =~= a@);
    assert(b@.skip(0) =~= b@);
    while i < a.len() && i < b.len() && a[i] == b[i]
        invariant
            i <= a@.len(),
            i <= b@.len(),
            lex_le(a@, b@) == lex_le(a@.skip(i as int), b@.skip(i as int)),
        decreases a@.len() - i,
    {
        assert(a@.skip(i as int).drop_first() =~= a@.skip(i + 1));
        assert(b@.skip(i as int).drop_first() =~= b@.skip(i + 1));
        assert(a@.skip(i as int)[0] == a@[i as int]);
        assert(b@.skip(i as int)[0] == b@[i as int]);
        i = i + 1;
    }
    if i < a.len() {
        assert(a@.skip(i as int)[0] == a@[i as int]);
    }
    if i < b.len() {
        assert(b@.skip(i as int)[0] == b@[i as int]);
    }
    if i == a.len() {
        true
    } else if i == b.len() {
        false
    } else {
        a[i] < b[i]
    }
}

// ─── Faces of volume elements ────────────────────────────────────────────────

/// The node IDs of the local face `lf` of an element with nodes `ids`.
pub open spec fn face_nodes(ids: Seq<u64>, lf: Seq<usize>) -> Seq<u64> {
    lf.map_values(|i: usize| ids[i as int])
}

/// Whether every face of a volume element refers to nodes it has.
pub open spec fn faces_consistent(e: ElementView) -> bool {
    spec_dimension(e.etype) != 3 || forall|f: int, j: int|
        0 <= f < spec_faces(e.etype).len() && 0 <= j < spec_faces(e.etype)[f].len() ==> (
        #[trigger] spec_faces(e.etype)[f][j]) < e.node_ids.len()
}

/// The faces of `e` if it is a volume element, none otherwise.
pub open spec fn own_faces(e: ElementView) -> Seq<Seq<u64>> {
    if spec_dimension(e.etype) == 3 {
        spec_faces(e.etype).map_values(|lf: Seq<usize>| face_nodes(e.node_ids, lf))
    } else {
        seq![]
    }
}

/// The faces of the volume elements of `es`, element after element.
pub open spec fn volume_faces(es: Seq<ElementView>) -> Seq<Seq<u64>>
    decreases es.len(),
{
    if es.len() == 0 {
        seq![]
    } else {
        volume_faces(es.drop_last()) + own_faces(es.last())
    }
}

/// The ID of the first volume element of `es` with a face that refers to
/// a node it lacks.
pub open spec fn first_inconsistent(es: Seq<ElementView>) -> Option<u64>
    decreases es.len(),
{
    if es.len() == 0 {
        None
    } else if !faces_consistent(es[0]) {
        Some(es[0].id)
    } else {
        first_inconsistent(es.drop_first())
    }
}

/// The keys of a list of faces.
pub open spec fn keys_of(fs: Seq<Seq<u64>>) -> Seq<Seq<u64>> {
    fs.map_values(|f: Seq<u64>| face_key(f))
}

/// The faces among `fs` whose key occurs once in `keys`, in order.
pub open spec fn once_faces(fs: Seq<Seq<u64>>, keys: Seq<Seq<u64>>) -> Seq<Seq<u64>>
    decreases fs.len(),
{
    if fs.len() == 0 {
        seq![]
    } else {
        let r = once_faces(fs.drop_last(), keys);
        if count_of(keys, face_key(fs.last())) == 1 {
            r.push(fs.last())
        } else {
            r
        }
    }
}

/// `f` placed after the faces of `s` whose key is lexicographically at
/// most its own.
pub open spec fn insert_by_key(s: Seq<Seq<u64>>, f: Seq<u64>) -> Seq<Seq<u64>>
    decreases s.len(),
{
    if s.len() == 0 {
        seq![f]
    } else if lex_le(face_key(s.last()), face_key(f)) {
        s.push(f)
    } else {
        insert_by_key(s.drop_last(), f).push(s.last())
    }
}

/// The faces of `s` stably sorted by key.
pub open spec fn sort_by_key(s: Seq<Seq<u64>>) -> Seq<Seq<u64>>
    decreases s.len(),
{
    if s.len() == 0 {
        seq![]
    } else {
        insert_by_key(sort_by_key(s.drop_last()), s.last())
    }
}

/// The keys of `s` never decrease.
pub open spec fn keys_ordered(s: Seq<Seq<u64>>) -> bool {
    forall|i: int, j: int| 0 <= i < j < s.len() ==> lex_le(face_key(s[i]), face_key(s[j]))
}

/// The boundary faces of the volume elements of `es`: those whose key
/// occurs once among all their faces, in increasing key order.
pub open spec fn spec_boundary_faces(es: Seq<ElementView>) -> Seq<Seq<u64>> {
    sort_by_key(once_faces(volume_faces(es), keys_of(volume_faces(es))))
}

/// Inserting after the faces with a key at most `f`'s is inserting at the
/// first position with a greater key.
pub proof fn lemma_insert_by_key(s: Seq<Seq<u64>>, f: Seq<u64>, p: int)
    requires
        keys_ordered(s),
        0 <= p <= s.len(),
        forall|i: int| 0 <= i < p ==> lex_le(face_key(s[i]), face_key(f)),
        forall|i: int| p <= i < s.len() ==> !lex_le(face_key(#[trigger] s[i]), face_key(f)),
    ensures
        insert_by_key(s, f) == s.insert(p, f),
        keys_ordered(s.insert(p, f)),
    decreases s.len(),
{
    if s.len() == 0 {
        assert(s.insert(p, f) =~= seq![f]);
    } else if lex_le(face_key(s.last()), face_key(f)) {
        assert(p == s.len());
        assert(s.insert(p, f) =~= s.push(f));
    } else {
        let t = s.drop_last();
        assert(keys_ordered(t)) by {
            assert forall|i: int, j: int| 0 <= i < j < t.len() implies lex_le(
                face_key(t[i]),
                face_key(t[j]),
            ) by {
                assert(t[i] == s[i] && t[j] == s[j]);
            }
        }
        lemma_insert_by_key(t, f, p);
        assert(t.insert(p, f).push(s.last()) =~= s.insert(p, f));
    }
    let r = s.insert(p, f);
    assert forall|i: int, j: int| 0 <= i < j < r.len() implies lex_le(
        face_key(r[i]),
        face_key(r[j]),
    ) by {
        if j < p {
            assert(r[i] == s[i] && r[j] == s[j]);
        } else if j == p {
            assert(r[i] == s[i]);
        } else if i == p {
            assert(r[j] == s[j - 1]);
            lemma_lex_order(face_key(f), face_key(s[j - 1]), face_key(s[j - 1]));
        } else if i < p {
            assert(r[i] == s[i] && r[j] == s[j - 1]);
        } else {
            assert(r[i] == s[i - 1] && r[j] == s[j - 1]);
        }
    }
}

/// Sorting by key orders the keys.
pub proof fn lemma_sort_by_key_ordered(s: Seq<Seq<u64>>)
    ensures
        keys_ordered(sort_by_key(s)),
        sort_by_key(s).len() == s.len(),
    decreases s.len(),
{
    if s.len() > 0 {
        lemma_sort_by_key_ordered(s.drop_last());
        let t = sort_by_key(s.drop_last());
        let f = s.last();
        let p = upper_key_pos(t, f);
        lemma_upper_key_pos(t, f);
        lemma_insert_by_key(t, f, p);
    }
}

/// The first position of `s` whose key is greater than `f`'s.
pub open spec fn upper_key_pos(s: Seq<Seq<u64>>, f: Seq<u64>) -> int
    decreases s.len(),
{
    if s.len() == 0 {
        0
    } else if lex_le(face_key(s.last()), face_key(f)) {
        s.len() as int
    } else {
        upper_key_pos(s.drop_last(), f)
    }
}

/// The first position with a greater key splits ordered faces.
pub proof fn lemma_upper_key_pos(s: Seq<Seq<u64>>, f: Seq<u64>)
    requires
        keys_ordered(s),
    ensures
        0 <= upper_key_pos(s, f) <= s.len(),
        forall|i: int| 0 <= i < upper_key_pos(s, f) ==> lex_le(face_key(s[i]), face_key(f)),
        forall|i: int|
            upper_key_pos(s, f) <= i < s.len() ==> !lex_le(face_key(#[trigger] s[i]), face_key(f)),
    decreases s.len(),
{
    if s.len() > 0 {
        let t = s.drop_last();
        assert(keys_ordered(t)) by {
            assert forall|i: int, j: int| 0 <= i < j < t.len() implies lex_le(
                face_key(t[i]),
                face_key(t[j]),
            ) by {
                assert(t[i] == s[i] && t[j] == s[j]);
            }
        }
        lemma_upper_key_pos(t, f);
        if lex_le(face_key(s.last()), face_key(f)) {
            assert forall|i: int| 0 <= i < s.len() implies lex_le(face_key(s[i]), face_key(f)) by {
                if i < s.len() - 1 {
                    lemma_lex_order(face_key(s[i]), face_key(s[s.len() - 1]), face_key(f));
                }
            }
        } else {
            assert forall|i: int| upper_key_pos(s, f) <= i < s.len() implies !lex_le(
                face_key(#[trigger] s[i]),
                face_key(f),
            ) by {
                if i < s.len() - 1 {
                    assert(s[i] == t[i]);
                }
            }
            assert forall|i: int| 0 <= i < upper_key_pos(s, f) implies lex_le(
                face_key(s[i]),
                face_key(f),
            ) by {
                assert(s[i] == t[i]);
            }
        }
    }
}

// ─── Computing them ──────────────────────────────────────────────────────────

/// The values of a list of ID lists.
pub open spec fn lists_view(v: Seq<Vec<u64>>) -> Seq<Seq<u64>> {
    v.map_values(|f: Vec<u64>| f@)
}

/// The faces of one volume element, or its ID if a face refers to a node it
/// lacks.
pub(crate) fn element_own_faces(e: &Element) -> (r: Result<Vec<Vec<u64>>, u64>)
    ensures
        match r {
            Ok(fs) => faces_consistent(e@) && lists_view(fs@) == own_faces(e@),
            Err(id) => !faces_consistent(e@) && id == e.id,
        },
{
    let mut out: Vec<Vec<u64>> = Vec::new();
    if e.dimension() != 3 {
        assert(lists_view(out@) =~= own_faces(e@));
        return Ok(out);
    }
    let locals = e.etype.faces();
    let ghost lv = spec_faces(e.etype);
    assert(crate::element::faces_view(locals@).len() == locals@.len());
    let mut f: usize = 0;
    while f < locals.len()
        invariant
            f <= locals@.len(),
            lv.len() == locals@.len(),
            crate::element::faces_view(locals@) == lv,
            lv == spec_faces(e.etype),
            spec_dimension(e.etype) == 3,
            forall|g: int, j: int|
                0 <= g < f && 0 <= j < lv[g].len() ==> (#[trigger] lv[g][j]) < e.node_ids@.len(),
            lists_view(out@) == lv.take(f as int).map_values(
                |lf: Seq<usize>| face_nodes(e.node_ids@, lf),
            ),
        decreases locals@.len() - f,
    {
        let lf = &locals[f];
        assert(crate::element::faces_view(locals@)[f as int] == locals@[f as int]@);
        assert(lf@ == lv[f as int]);
        let mut nodes: Vec<u64> = Vec::new();
        let mut j: usize = 0;
        while j < lf.len()
            invariant
                j <= lf@.len(),
                f < lv.len(),
                lv == spec_faces(e.etype),
                spec_dimension(e.etype) == 3,
                lf@ == lv[f as int],
                forall|q: int| 0 <= q < j ==> (#[trigger] lf@[q]) < e.node_ids@.len(),
                nodes@ == lf@.take(j as int).map_values(|i: usize| e.node_ids@[i as int]),
            decreases lf@.len() - j,
        {
            let li = lf[j];
            if li >= e.node_ids.len() {
                assert(!faces_consistent(e@)) by {
                    assert(lv[f as int][j as int] == li);
                    assert(e@.etype == e.etype);
                    assert(spec_faces(e@.etype)[f as int][j as int] == li);
                    assert(e@.node_ids.len() == e.node_ids@.len());
                }
                return Err(e.id);
            }
            nodes.push(e.node_ids[li]);
            assert(nodes@ =~= lf@.take(j + 1).map_values(|i: usize| e.node_ids@[i as int]));
            j = j + 1;
        }
        assert(lf@.take(j as int) =~= lf@);
        let ghost before = out@;
        out.push(nodes);
        assert(lists_view(out@) =~= lists_view(before).push(face_nodes(e.node_ids@, lv[f as int])));
        assert(lv.take(f + 1).map_values(|lf: Seq<usize>| face_nodes(e.node_ids@, lf))
            =~= lv.take(f as int).map_values(|lf: Seq<usize>| face_nodes(e.node_ids@, lf)).push(
            face_nodes(e.node_ids@, lv[f as int]),
        ));
        f = f + 1;
    }
    assert(lv.take(f as int) =~= lv);
    Ok(out)
}

/// A copy of an ID list.
pub(crate) fn copy_ids(v: &Vec<u64>) -> (r: Vec<u64>)
    ensures
        r@ == v@,
{
    let mut r: Vec<u64> = Vec::new();
    let mut i: usize = 0;
    while i < v.len()
        invariant
            i <= v@.len(),
            r@ == v@.take(i as int),
        decreases v@.len() - i,
    {
        r.push(v[i]);
        assert(r@ =~= v@.take(i + 1));
        i = i + 1;
    }
    assert(v@.take(i as int) =~= v@);
    r
}

/// Whether two ID lists are equal.
pub(crate) fn same_ids(a: &Vec<u64>, b: &Vec<u64>) -> (r: bool)
    ensures
        r == (a@ == b@),
{
    if a.len() != b.len() {
        return false;
    }
    let mut i: usize = 0;
    while i < a.len()
        invariant
            i <= a@.len(),
            a@.len() == b@.len(),
            forall|q: int| 0 <= q < i ==> a@[q] == b@[q],
        decreases a@.len() - i,
    {
        if a[i] != b[i] {
            return false;
        }
        i = i + 1;
    }
    assert(a@ =~= b@);
    true
}

/// The boundary faces of the volume elements of a mesh: the faces that no
/// other volume face has the same nodes as, in increasing order of their
/// sorted node IDs, each in the orientation of its element; or the ID of
/// the first volume element with a face that refers to a node it lacks.
pub fn boundary_faces(mesh: &Mesh) -> (r: Result<Vec<Vec<u64>>, u64>)
    ensures
        match first_inconsistent(mesh@.elements) {
            Some(id) => r matches Err(x) && x == id,
            None => r matches Ok(fs) && lists_view(fs@) == spec_boundary_faces(mesh@.elements),
        },
{
    let elems = mesh.elements();
    let ghost es = elements_view(elems@);
    let mut faces: Vec<Vec<u64>> = Vec::new();
    let mut k: usize = 0;
    assert(es.take(0) =~= Seq::<ElementView>::empty());
    assert(es.skip(0) =~= es);
    while k < elems.len()
        invariant
            k <= elems@.len(),
            es == elements_view(elems@),
            es == mesh@.elements,
            lists_view(faces@) == volume_faces(es.take(k as int)),
            first_inconsistent(es) == first_inconsistent(es.skip(k as int)),
        decreases elems@.len() - k,
    {
        assert(es.take(k + 1).drop_last() =~= es.take(k as int));
        assert(es.skip(k as int)[0] == es[k as int]);
        assert(es.skip(k as int).drop_first() =~= es.skip(k + 1));
        match element_own_faces(&elems[k]) {
            Err(id) => {
                return Err(id);
            },
            Ok(own) => {
                let ghost before = faces@;
                let mut t: usize = 0;
                while t < own.len()
                    invariant
                        t <= own@.len(),
                        lists_view(faces@) == lists_view(before) + lists_view(own@).take(t as int),
                    decreases own@.len() - t,
                {
                    let ghost prev = faces@;
                    faces.push(copy_ids(&own[t]));
                    assert(lists_view(faces@) =~= lists_view(prev).push(own@[t as int]@));
                    assert(lists_view(own@).take(t + 1) =~= lists_view(own@).take(t as int).push(
                        own@[t as int]@,
                    ));
                    t = t + 1;
                }
                assert(lists_view(own@).take(t as int) =~= lists_view(own@));
            },
        }
        k = k + 1;
    }
    assert(es.take(k as int) =~= es);
    assert(es.skip(k as int) =~= Seq::<ElementView>::empty());
    let ghost fs = lists_view(faces@);
    let mut keys: Vec<Vec<u64>> = Vec::new();
    let mut t: usize = 0;
    while t < faces.len()
        invariant
            t <= faces@.len(),
            fs == lists_view(faces@),
            lists_view(keys@) == keys_of(fs).take(t as int),
        decreases faces@.len() - t,
    {
        let key = sorted_ids_of(&faces[t]);
        let ghost prev = keys@;
        keys.push(key);
        assert(lists_view(keys@) =~= lists_view(prev).push(face_key(fs[t as int])));
        assert(keys_of(fs).take(t + 1) =~= keys_of(fs).take(t as int).push(face_key(fs[t as int])));
        t = t + 1;
    }
    assert(keys_of(fs).take(t as int) =~= keys_of(fs));
    let ghost ks = keys_of(fs);
    let mut out: Vec<Vec<u64>> = Vec::new();
    let mut out_keys: Vec<Vec<u64>> = Vec::new();
    let mut p: usize = 0;
    assert(fs.take(0) =~= Seq::<Seq<u64>>::empty());
    while p < faces.len()
        invariant
            p <= faces@.len(),
            fs == lists_view(faces@),
            ks == keys_of(fs),
            lists_view(keys@) == ks,
            keys@.len() == faces@.len(),
            lists_view(out@) == sort_by_key(once_faces(fs.take(p as int), ks)),
            out_keys@.len() == out@.len(),
            forall|i: int| 0 <= i < out@.len() ==> (#[trigger] out_keys@[i])@ == face_key(out@[i]@),
        decreases faces@.len() - p,
    {
        assert(fs.take(p + 1).drop_last() =~= fs.take(p as int));
        let mut c: usize = 0;
        let mut q: usize = 0;
        while q < keys.len()
            invariant
                q <= keys@.len(),
                p < faces@.len(),
                lists_view(keys@) == ks,
                keys@.len() == faces@.len(),
                ks.len() == fs.len(),
                fs.len() == faces@.len(),
                c == count_of(ks.take(q as int), ks[p as int]),
                c <= q,
            decreases keys@.len() - q,
        {
            assert(ks.take(q + 1).drop_last() =~= ks.take(q as int));
            assert(ks[q as int] == keys@[q as int]@);
            assert(ks[p as int] == keys@[p as int]@);
            if same_ids(&keys[q], &keys[p]) {
                c = c + 1;
            }
            q = q + 1;
        }
        assert(ks.take(q as int) =~= ks);
        assert(ks[p as int] == face_key(fs[p as int]));
        if c == 1 {
            let ghost s = lists_view(out@);
            proof {
                lemma_sort_by_key_ordered(once_faces(fs.take(p as int), ks));
            }
            let key = &keys[p];
            assert(key@ == face_key(fs[p as int]));
            let mut lo: usize = 0;
            while lo < out_keys.len() && lex_le_exec(&out_keys[lo], key)
                invariant
                    lo <= out_keys@.len(),
                    out_keys@.len() == out@.len(),
                    s == lists_view(out@),
                    forall|i: int| 0 <= i < out@.len() ==> (#[trigger] out_keys@[i])@ == face_key(out@[i]@),
                    key@ == face_key(fs[p as int]),
                    forall|i: int| 0 <= i < lo ==> lex_le(face_key(s[i]), face_key(fs[p as int])),
                decreases out_keys@.len() - lo,
            {
                assert(out_keys@[lo as int]@ == face_key(out@[lo as int]@));
                assert(s[lo as int] == out@[lo as int]@);
                lo = lo + 1;
            }
            assert forall|i: int| lo <= i < s.len() implies !lex_le(
                face_key(#[trigger] s[i]),
                face_key(fs[p as int]),
            ) by {
                assert(out_keys@[lo as int]@ == face_key(out@[lo as int]@));
                assert(s[lo as int] == out@[lo as int]@);
                if i > lo {
                    assert(lex_le(face_key(s[lo as int]), face_key(s[i])));
                } else {
                    lemma_lex_order(face_key(s[i]), face_key(s[i]), face_key(s[i]));
                }
                lemma_lex_order(face_key(s[i]), face_key(fs[p as int]), face_key(s[lo as int]));
                lemma_lex_order(face_key(s[lo as int]), face_key(s[i]), face_key(fs[p as int]));
            }
            proof {
                lemma_insert_by_key(s, fs[p as int], lo as int);
            }
            let ghost old_out = out@;
            let ghost old_keys = out_keys@;
            out.insert(lo, copy_ids(&faces[p]));
            out_keys.insert(lo, copy_ids(&keys[p]));
            assert(lists_view(out@) =~= s.insert(lo as int, fs[p as int]));
            assert forall|i: int| 0 <= i < out@.len() implies (#[trigger] out_keys@[i])@ == face_key(
                out@[i]@,
            ) by {
                if i < lo {
                    assert(out_keys@[i] == old_keys[i] && out@[i] == old_out[i]);
                } else if i > lo {
                    assert(out_keys@[i] == old_keys[i - 1] && out@[i] == old_out[i - 1]);
                }
            }
            let ghost pre = once_faces(fs.take(p as int), ks);
            assert(once_faces(fs.take(p + 1), ks) == pre.push(fs[p as int]));
            assert(pre.push(fs[p as int]).drop_last() =~= pre);
            assert(sort_by_key(pre.push(fs[p as int])) == insert_by_key(sort_by_key(pre), fs[p as int]));
        } else {
            assert(once_faces(fs.take(p + 1), ks) == once_faces(fs.take(p as int), ks));
        }
        p = p + 1;
    }
    assert(fs.take(p as int) =~= fs);
    Ok(out)
}

} // verus!
