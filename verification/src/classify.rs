//! Grouping the volume elements of a mesh into regions, the connected
//! components of the relation "has a face with the same nodes", each with
//! the geometric faces that bound it.
use vstd::prelude::*;
use std::collections::HashMap;

use crate::boundary::{
    element_own_faces, face_key, faces_consistent, keys_of, lists_view, own_faces, same_ids, sorted_ids_of,
};
use crate::components::{
    as_ints, bfs_components, components_of, connected_components, graph_view, in_range, linked, lists_as_ints,
    symmetric,
};
use crate::element::{spec_dimension, Element, ElementView};
use crate::mesh::{element_refs_view, elements_of_dim, lemma_elements_of_dim, Mesh};
use crate::faces::copy_indices;
use crate::topology::{GFace, GRegion};

verus! {

/// The faces of `e` as sorted node ID lists, if it is a volume element
/// whose faces refer only to nodes it has; none otherwise.
pub open spec fn face_keys_of(e: ElementView) -> Seq<Seq<u64>> {
    if faces_consistent(e) {
        keys_of(own_faces(e))
    } else {
        seq![]
    }
}

/// Elements `a` and `b` have a face with the same nodes: they share a full
/// face, not only an edge or a node.
pub open spec fn share_face(a: ElementView, b: ElementView) -> bool {
    exists|i: int, j: int|
        0 <= i < face_keys_of(a).len() && 0 <= j < face_keys_of(b).len() && #[trigger] face_keys_of(a)[i]
            == #[trigger] face_keys_of(b)[j]
}

/// `id` is the ID of a volume element of `es`.
pub open spec fn volume_id(es: Seq<ElementView>, id: u64) -> bool {
    exists|e: ElementView| #[trigger] es.contains(e) && e.id == id && spec_dimension(e.etype) == 3
}

/// The IDs of the elements of `vs` at the indices `is`.
pub open spec fn ids_at(vs: Seq<ElementView>, is: Seq<int>) -> Seq<u64> {
    is.map_values(|i: int| vs[i].id)
}

/// Member `t` of the list `m` shares a face with a member before it.
pub open spec fn joins_earlier(vs: Seq<ElementView>, m: Seq<int>, t: int) -> bool {
    exists|u: int| 0 <= u < t && share_face(vs[m[t]], vs[m[u]])
}

/// Some list of `ms` holds `i`.
pub open spec fn in_a_region(ms: Seq<Seq<int>>, i: int) -> bool {
    exists|j: int| 0 <= j < ms.len() && #[trigger] ms[j].contains(i)
}

/// The lists `ms` of element indices split the elements `vs` into regions:
/// every element is in exactly one region, once; an element sharing a face
/// with a member of a region is a member; each member after the first
/// shares a face with an earlier one; each region starts with its smallest
/// index, and the regions come in the order of their first index.
pub open spec fn regions_of(vs: Seq<ElementView>, ms: Seq<Seq<int>>) -> bool {
    &&& forall|j: int, t: int| 0 <= j < ms.len() && 0 <= t < ms[j].len() ==> 0 <= #[trigger] ms[j][t] < vs.len()
    &&& forall|i: int| 0 <= i < vs.len() ==> #[trigger] in_a_region(ms, i)
    &&& forall|j1: int, t1: int, j2: int, t2: int|
        0 <= j1 < ms.len() && 0 <= j2 < ms.len() && 0 <= t1 < ms[j1].len() && 0 <= t2 < ms[j2].len()
            && #[trigger] ms[j1][t1] == #[trigger] ms[j2][t2] ==> j1 == j2 && t1 == t2
    &&& forall|j: int, t: int, q: int|
        0 <= j < ms.len() && 0 <= t < ms[j].len() && 0 <= q < vs.len() && share_face(
            vs[#[trigger] ms[j][t]],
            #[trigger] vs[q],
        ) ==> ms[j].contains(q)
    &&& forall|j: int, t: int| 0 <= j < ms.len() && 0 < t < ms[j].len() ==> #[trigger] joins_earlier(vs, ms[j], t)
    &&& forall|j: int| 0 <= j < ms.len() ==> (#[trigger] ms[j]).len() > 0
    &&& forall|j: int, t: int| 0 <= j < ms.len() && 0 <= t < ms[j].len() ==> ms[j][0] <= #[trigger] ms[j][t]
    &&& forall|j1: int, j2: int| 0 <= j1 < j2 < ms.len() ==> #[trigger] ms[j1][0] < #[trigger] ms[j2][0]
}

/// The node a face key is filed under: its smallest node ID.
pub open spec fn bucket_of(k: Seq<u64>) -> u64 {
    if k.len() > 0 {
        k[0]
    } else {
        0
    }
}

/// The face keys of a list of elements.
pub open spec fn keys_view(keys: Seq<Vec<Vec<u64>>>) -> Seq<Seq<Seq<u64>>> {
    keys.map_values(|v: Vec<Vec<u64>>| lists_view(v@))
}

/// Element `i` is filed under the node of its face `k`.
pub open spec fn filed(bm: Map<u64, Vec<usize>>, kv: Seq<Seq<Seq<u64>>>, i: int, k: int) -> bool {
    bm.contains_key(bucket_of(kv[i][k])) && bm[bucket_of(kv[i][k])]@.contains(i as usize)
}

/// Every filed element index is below `n`.
pub open spec fn buckets_in_range(bm: Map<u64, Vec<usize>>, n: int) -> bool {
    forall|x: u64, t: int| bm.contains_key(x) && 0 <= t < bm[x]@.len() ==> #[trigger] bm[x]@[t] < n
}

/// The list filed under node `x` in `bm`, empty where there is none.
pub open spec fn list_at(bm: Map<u64, Vec<usize>>, x: u64) -> Seq<usize> {
    if bm.contains_key(x) {
        bm[x]@
    } else {
        seq![]
    }
}

/// Element index `j` once for each of its faces `fk` filed under node `x`.
pub open spec fn filings(fk: Seq<Seq<u64>>, x: u64, j: usize) -> Seq<usize>
    decreases fk.len(),
{
    if fk.len() == 0 {
        seq![]
    } else {
        filings(fk.drop_last(), x, j) + if bucket_of(fk.last()) == x {
            seq![j]
        } else {
            seq![]
        }
    }
}

/// The element indices that the first `n` elements of `vs` file under node
/// `x`, element after element.
pub open spec fn filed_under(vs: Seq<ElementView>, x: u64, n: nat) -> Seq<usize>
    decreases n,
{
    if n == 0 {
        seq![]
    } else {
        filed_under(vs, x, (n - 1) as nat) + filings(face_keys_of(vs[n - 1]), x, (n - 1) as usize)
    }
}

/// The entries of `cands` whose element has a face with the nodes `key`,
/// in order.
pub open spec fn having_face(vs: Seq<ElementView>, cands: Seq<usize>, key: Seq<u64>) -> Seq<usize>
    decreases cands.len(),
{
    if cands.len() == 0 {
        seq![]
    } else {
        having_face(vs, cands.drop_last(), key) + if face_keys_of(vs[cands.last() as int]).contains(key) {
            seq![cands.last()]
        } else {
            seq![]
        }
    }
}

/// The elements of `vs` found to have a face with the nodes `key`: those
/// filed under its node that have it, in filing order.
pub open spec fn found_for(vs: Seq<ElementView>, key: Seq<u64>) -> Seq<usize> {
    having_face(vs, filed_under(vs, bucket_of(key), vs.len()), key)
}

/// The neighbour list of element `i` after its first `k` faces: for each
/// face in turn, the elements found to have it.
pub open spec fn face_row(vs: Seq<ElementView>, i: int, k: nat) -> Seq<usize>
    decreases k,
{
    if k == 0 {
        seq![]
    } else {
        face_row(vs, i, (k - 1) as nat) + found_for(vs, face_keys_of(vs[i])[k - 1])
    }
}

/// The face-sharing graph of the elements `vs`, as the search builds it.
pub open spec fn face_graph_of(vs: Seq<ElementView>) -> Seq<Seq<usize>> {
    Seq::new(vs.len(), |i: int| face_row(vs, i, face_keys_of(vs[i]).len()))
}

fn bucket_key(k: &Vec<u64>) -> (r: u64)
    ensures
        r == bucket_of(k@),
{
    if k.len() > 0 {
        k[0]
    } else {
        0
    }
}

/// The face keys of one element.
fn element_face_keys(e: &Element) -> (r: Vec<Vec<u64>>)
    ensures
        lists_view(r@) == face_keys_of(e@),
{
    let mut r: Vec<Vec<u64>> = Vec::new();
    match element_own_faces(e) {
        Err(_) => {
            assert(lists_view(r@) =~= face_keys_of(e@));
            r
        },
        Ok(fs) => {
            let ghost fv = lists_view(fs@);
            let mut k: usize = 0;
            while k < fs.len()
                invariant
                    k <= fs@.len(),
                    fv == lists_view(fs@),
                    lists_view(r@) == keys_of(fv).take(k as int),
                decreases fs@.len() - k,
            {
                let key = sorted_ids_of(&fs[k]);
                let ghost before = r@;
                r.push(key);
                assert(lists_view(r@) =~= keys_of(fv).take(k + 1)) by {
                    assert(lists_view(r@) =~= lists_view(before).push(key@));
                    assert(fv[k as int] == fs@[k as int]@);
                }
                k = k + 1;
            }
            assert(keys_of(fv).take(k as int) =~= keys_of(fv));
            r
        },
    }
}

/// Whether some key of `keys` equals `k`.
fn has_key(keys: &Vec<Vec<u64>>, k: &Vec<u64>) -> (r: bool)
    ensures
        r == exists|j: int| 0 <= j < keys@.len() && #[trigger] lists_view(keys@)[j] == k@,
{
    let mut j: usize = 0;
    while j < keys.len()
        invariant
            j <= keys@.len(),
            forall|q: int| 0 <= q < j ==> #[trigger] lists_view(keys@)[q] != k@,
        decreases keys@.len() - j,
    {
        if same_ids(&keys[j], k) {
            assert(lists_view(keys@)[j as int] == k@);
            return true;
        }
        j = j + 1;
    }
    false
}

/// Files element `i` under the node of each of its faces.
fn file_element(
    bucket: &mut HashMap<u64, Vec<usize>>,
    keys: &Vec<Vec<Vec<u64>>>,
    i: usize,
    Ghost(n): Ghost<int>,
)
    requires
        i < keys@.len() == n,
        buckets_in_range(old(bucket)@, n),
    ensures
        buckets_in_range(final(bucket)@, n),
        forall|p: int, k: int|
            0 <= p < n && 0 <= k < keys_view(keys@)[p].len() && #[trigger] filed(old(bucket)@, keys_view(keys@), p, k)
                ==> filed(final(bucket)@, keys_view(keys@), p, k),
        forall|k: int| 0 <= k < keys_view(keys@)[i as int].len() ==> #[trigger] filed(final(bucket)@, keys_view(keys@), i as int, k),
        forall|x: u64|
            #[trigger] list_at(final(bucket)@, x) == list_at(old(bucket)@, x) + filings(keys_view(keys@)[i as int], x, i),
{
    let ghost kv = keys_view(keys@);
    let row = &keys[i];
    assert(kv[i as int] == lists_view(row@));
    let mut k: usize = 0;
    assert forall|x: u64| #[trigger] list_at(bucket@, x) == list_at(old(bucket)@, x) + filings(kv[i as int].take(0), x, i) by {
        assert(list_at(old(bucket)@, x) + filings(kv[i as int].take(0), x, i) =~= list_at(old(bucket)@, x));
    }
    while k < row.len()
        invariant
            k <= row@.len(),
            i < keys@.len() == n,
            kv == keys_view(keys@),
            kv[i as int] == lists_view(row@),
            row@ == keys@[i as int]@,
            buckets_in_range(bucket@, n),
            forall|p: int, k2: int|
                0 <= p < n && 0 <= k2 < kv[p].len() && #[trigger] filed(old(bucket)@, kv, p, k2) ==> filed(bucket@, kv, p, k2),
            forall|k2: int| 0 <= k2 < k ==> #[trigger] filed(bucket@, kv, i as int, k2),
            forall|x: u64| #[trigger] list_at(bucket@, x) == list_at(old(bucket)@, x) + filings(kv[i as int].take(k as int), x, i),
        decreases row@.len() - k,
    {
        let b = bucket_key(&row[k]);
        assert(b == bucket_of(kv[i as int][k as int]));
        let ghost before = bucket@;
        let list = match bucket.remove(&b) {
            Some(v) => {
                let mut v = v;
                let ghost old_v = v@;
                v.push(i);
                assert forall|y: usize| old_v.contains(y) implies v@.contains(y) by {
                    let p = choose|p: int| 0 <= p < old_v.len() && old_v[p] == y;
                    assert(v@[p] == y);
                }
                v
            },
            None => {
                let v = vec![i];
                v
            },
        };
        assert(list@[list@.len() - 1] == i);
        assert(list@.contains(i));
        assert forall|t: int| 0 <= t < list@.len() implies #[trigger] list@[t] < n by {
            if t < list@.len() - 1 {
                assert(before.contains_key(b));
                assert(list@[t] == before[b]@[t]);
            }
        }
        bucket.insert(b, list);
        assert(bucket@ == before.insert(b, list));
        assert forall|x: u64, t: int| bucket@.contains_key(x) && 0 <= t < bucket@[x]@.len() implies #[trigger] bucket@[x]@[t] < n by {
            if x != b {
                assert(bucket@[x] == before[x]);
            }
        }
        assert forall|p: int, k2: int|
            0 <= p < n && 0 <= k2 < kv[p].len() && #[trigger] filed(old(bucket)@, kv, p, k2) implies filed(bucket@, kv, p, k2) by {
            let x = bucket_of(kv[p][k2]);
            assert(filed(before, kv, p, k2));
            if x == b {
                let w = choose|w: int| 0 <= w < before[x]@.len() && before[x]@[w] == p as usize;
                assert(list@[w] == p as usize);
            }
        }
        assert forall|x: u64| #[trigger] list_at(bucket@, x) == list_at(old(bucket)@, x) + filings(kv[i as int].take(k + 1), x, i) by {
            let f1 = kv[i as int].take(k + 1);
            assert(f1.drop_last() =~= kv[i as int].take(k as int));
            assert(f1.last() == kv[i as int][k as int]);
            if x == b {
                assert(list_at(bucket@, x) == list@);
                assert(list@ =~= list_at(before, x).push(i));
                assert(list_at(old(bucket)@, x) + filings(f1, x, i) =~= (list_at(old(bucket)@, x) + filings(
                    kv[i as int].take(k as int),
                    x,
                    i,
                )).push(i));
            } else {
                assert(list_at(bucket@, x) == list_at(before, x));
                assert(filings(f1, x, i) =~= filings(kv[i as int].take(k as int), x, i));
            }
        }
        assert forall|k2: int| 0 <= k2 < k + 1 implies #[trigger] filed(bucket@, kv, i as int, k2) by {
            let x = bucket_of(kv[i as int][k2]);
            if k2 < k {
                assert(filed(before, kv, i as int, k2));
                if x == b {
                    let w = choose|w: int| 0 <= w < before[x]@.len() && before[x]@[w] == i;
                    assert(list@[w] == i);
                }
            }
        }
        k = k + 1;
    }
    assert(kv[i as int].take(k as int) =~= kv[i as int]);
}

/// `keys` holds the face keys of the elements `vs`, and `bm` files each
/// element under the node of each of its faces.
pub open spec fn indexed(keys: Seq<Vec<Vec<u64>>>, bm: Map<u64, Vec<usize>>, vs: Seq<ElementView>) -> bool {
    &&& keys.len() == vs.len() <= usize::MAX
    &&& forall|q: int| 0 <= q < vs.len() ==> #[trigger] keys_view(keys)[q] == face_keys_of(vs[q])
    &&& buckets_in_range(bm, vs.len() as int)
    &&& forall|p: int, k: int|
        0 <= p < vs.len() && 0 <= k < keys_view(keys)[p].len() ==> #[trigger] filed(bm, keys_view(keys), p, k)
    &&& forall|x: u64| #[trigger] list_at(bm, x) == filed_under(vs, x, vs.len())
}

/// The face keys of the elements `vol`, and each element filed under the
/// node of each of its faces.
fn face_index(vol: &Vec<&Element>, Ghost(vs): Ghost<Seq<ElementView>>) -> (r: (
    Vec<Vec<Vec<u64>>>,
    HashMap<u64, Vec<usize>>,
))
    requires
        vs == element_refs_view(vol@),
    ensures
        indexed(r.0@, r.1@, vs),
{
    let n = vol.len();
    let mut keys: Vec<Vec<Vec<u64>>> = Vec::new();
    let mut i: usize = 0;
    while i < n
        invariant
            i <= n,
            n == vs.len(),
            vs == element_refs_view(vol@),
            keys@.len() == i,
            forall|q: int| 0 <= q < i ==> #[trigger] keys_view(keys@)[q] == face_keys_of(vs[q]),
        decreases n - i,
    {
        let ks = element_face_keys(vol[i]);
        assert(vs[i as int] == vol@[i as int]@);
        let ghost before = keys@;
        keys.push(ks);
        assert forall|q: int| 0 <= q < i + 1 implies #[trigger] keys_view(keys@)[q] == face_keys_of(vs[q]) by {
            if q < i {
                assert(keys@[q] == before[q]);
                assert(keys_view(before)[q] == face_keys_of(vs[q]));
            }
        }
        i = i + 1;
    }
    let ghost kv = keys_view(keys@);
    let mut bucket: HashMap<u64, Vec<usize>> = HashMap::new();
    let mut i: usize = 0;
    while i < n
        invariant
            i <= n,
            n == vs.len(),
            keys@.len() == n,
            kv == keys_view(keys@),
            forall|q: int| 0 <= q < n ==> #[trigger] kv[q] == face_keys_of(vs[q]),
            buckets_in_range(bucket@, n as int),
            forall|p: int, k: int| 0 <= p < i && 0 <= k < kv[p].len() ==> #[trigger] filed(bucket@, kv, p, k),
            forall|x: u64| #[trigger] list_at(bucket@, x) == filed_under(vs, x, i as nat),
        decreases n - i,
    {
        let ghost b0 = bucket@;
        file_element(&mut bucket, &keys, i, Ghost(n as int));
        assert forall|x: u64| #[trigger] list_at(bucket@, x) == filed_under(vs, x, (i + 1) as nat) by {
            assert(kv[i as int] == face_keys_of(vs[i as int]));
            assert(list_at(bucket@, x) == list_at(b0, x) + filings(kv[i as int], x, i));
        }
        assert forall|p: int, k: int| 0 <= p < i + 1 && 0 <= k < kv[p].len() implies #[trigger] filed(bucket@, kv, p, k) by {
            if p < i {
                assert(filed(b0, kv, p, k));
            }
        }
        i = i + 1;
    }
    (keys, bucket)
}

/// The elements with a face whose sorted nodes are `key`, found among those
/// filed under its node.
fn elements_with_key(
    bucket: &HashMap<u64, Vec<usize>>,
    keys: &Vec<Vec<Vec<u64>>>,
    key: &Vec<u64>,
    Ghost(vs): Ghost<Seq<ElementView>>,
) -> (found: Vec<usize>)
    requires
        indexed(keys@, bucket@, vs),
    ensures
        forall|m: int|
            0 <= m < found@.len() ==> #[trigger] found@[m] < vs.len() && face_keys_of(vs[found@[m] as int]).contains(key@),
        forall|j: int| 0 <= j < vs.len() && #[trigger] face_keys_of(vs[j]).contains(key@) ==> found@.contains(j as usize),
        found@ == found_for(vs, key@),
{
    let ghost kv = keys_view(keys@);
    let ghost n = vs.len() as int;
    let mut found: Vec<usize> = Vec::new();
    let b = bucket_key(key);
    assert(list_at(bucket@, b) == filed_under(vs, b, vs.len()));
    match bucket.get(&b) {
        None => {
            assert(found@ =~= found_for(vs, key@));
            assert forall|j: int| 0 <= j < vs.len() && #[trigger] face_keys_of(vs[j]).contains(key@) implies found@.contains(
                j as usize,
            ) by {
                let jj = choose|jj: int| 0 <= jj < face_keys_of(vs[j]).len() && face_keys_of(vs[j])[jj] == key@;
                assert(kv[j] == face_keys_of(vs[j]));
                assert(filed(bucket@, kv, j, jj));
            }
        },
        Some(cands) => {
            let mut t: usize = 0;
            while t < cands.len()
                invariant
                    t <= cands@.len(),
                    cands@ == bucket@[b]@,
                    bucket@.contains_key(b),
                    b == bucket_of(key@),
                    kv == keys_view(keys@),
                    n == vs.len(),
                    indexed(keys@, bucket@, vs),
                    forall|m: int|
                        0 <= m < found@.len() ==> #[trigger] found@[m] < vs.len() && face_keys_of(vs[found@[m] as int]).contains(key@),
                    forall|u: int| 0 <= u < t && #[trigger] face_keys_of(vs[cands@[u] as int]).contains(key@) ==> found@.contains(cands@[u]),
                    found@ == having_face(vs, cands@.take(t as int), key@),
                decreases cands@.len() - t,
            {
                let j = cands[t];
                let ghost c1 = cands@.take(t + 1);
                assert(c1.drop_last() =~= cands@.take(t as int));
                assert(c1.last() == j);
                assert(j < n);
                assert(kv[j as int] == lists_view(keys@[j as int]@));
                let ghost before = found@;
                if has_key(&keys[j], key) {
                    found.push(j);
                    assert(found@[found@.len() - 1] == j);
                    assert(face_keys_of(vs[j as int]).contains(key@)) by {
                        let jj = choose|jj: int| 0 <= jj < keys@[j as int]@.len() && #[trigger] lists_view(keys@[j as int]@)[jj] == key@;
                        assert(face_keys_of(vs[j as int])[jj] == key@);
                    }
                    assert forall|m: int| 0 <= m < found@.len() implies #[trigger] found@[m] < vs.len() && face_keys_of(
                        vs[found@[m] as int],
                    ).contains(key@) by {
                        if m < before.len() {
                            assert(found@[m] == before[m]);
                        }
                    }
                    assert forall|y: usize| before.contains(y) implies found@.contains(y) by {
                        let p = choose|p: int| 0 <= p < before.len() && before[p] == y;
                        assert(found@[p] == y);
                    }
                    assert(found@.contains(j));
                    assert(found@ =~= having_face(vs, c1, key@));
                } else {
                    assert(!face_keys_of(vs[j as int]).contains(key@)) by {
                        if face_keys_of(vs[j as int]).contains(key@) {
                            let jj = choose|jj: int| 0 <= jj < face_keys_of(vs[j as int]).len() && face_keys_of(vs[j as int])[jj] == key@;
                            assert(lists_view(keys@[j as int]@)[jj] == key@);
                        }
                    }
                    assert(found@ =~= having_face(vs, c1, key@));
                }
                t = t + 1;
            }
            assert(cands@.take(t as int) =~= cands@);
            assert(found@ == found_for(vs, key@));
            assert forall|j: int| 0 <= j < vs.len() && #[trigger] face_keys_of(vs[j]).contains(key@) implies found@.contains(
                j as usize,
            ) by {
                let jj = choose|jj: int| 0 <= jj < face_keys_of(vs[j]).len() && face_keys_of(vs[j])[jj] == key@;
                assert(kv[j] == face_keys_of(vs[j]));
                assert(filed(bucket@, kv, j, jj));
                assert(bucket_of(kv[j][jj]) == b);
                assert(cands@.contains(j as usize));
                let u = choose|u: int| 0 <= u < cands@.len() && cands@[u] == j as usize;
                assert(cands@[u] as int == j);
                assert(face_keys_of(vs[cands@[u] as int]).contains(key@));
            }
        },
    }
    found
}

/// Elements `a` and `b` share a face exactly when `b` has one of the faces
/// of `a`.
proof fn lemma_share_face(a: ElementView, b: ElementView)
    ensures
        share_face(a, b) <==> exists|k: int| 0 <= k < face_keys_of(a).len() && #[trigger] face_keys_of(b).contains(face_keys_of(a)[k]),
{
    if share_face(a, b) {
        let (i, j) = choose|i: int, j: int|
            0 <= i < face_keys_of(a).len() && 0 <= j < face_keys_of(b).len() && #[trigger] face_keys_of(a)[i]
                == #[trigger] face_keys_of(b)[j];
        assert(face_keys_of(b).contains(face_keys_of(a)[i]));
    }
    if exists|k: int| 0 <= k < face_keys_of(a).len() && #[trigger] face_keys_of(b).contains(face_keys_of(a)[k]) {
        let k = choose|k: int| 0 <= k < face_keys_of(a).len() && #[trigger] face_keys_of(b).contains(face_keys_of(a)[k]);
        let j = choose|j: int| 0 <= j < face_keys_of(b).len() && face_keys_of(b)[j] == face_keys_of(a)[k];
        assert(face_keys_of(a)[k] == face_keys_of(b)[j]);
    }
}

/// For each element, the elements that share a face with it.
fn face_graph(
    bucket: &HashMap<u64, Vec<usize>>,
    keys: &Vec<Vec<Vec<u64>>>,
    Ghost(vs): Ghost<Seq<ElementView>>,
) -> (g: Vec<Vec<usize>>)
    requires
        indexed(keys@, bucket@, vs),
    ensures
        g@.len() == vs.len(),
        forall|i: int, j: int| 0 <= i < vs.len() && 0 <= j < vs.len() ==> (#[trigger] linked(graph_view(g@), i, j) <==> share_face(vs[i], vs[j])),
        in_range(graph_view(g@)),
        graph_view(g@) == face_graph_of(vs),
{
    let ghost kv = keys_view(keys@);
    let n = keys.len();
    let mut g: Vec<Vec<usize>> = Vec::new();
    let mut i: usize = 0;
    while i < n
        invariant
            i <= n,
            n == vs.len(),
            kv == keys_view(keys@),
            indexed(keys@, bucket@, vs),
            g@.len() == i,
            forall|a: int, j: int| 0 <= a < i && 0 <= j < n ==> (#[trigger] linked(graph_view(g@), a, j) <==> share_face(vs[a], vs[j])),
            forall|a: int, t: int| 0 <= a < i && 0 <= t < g@[a]@.len() ==> #[trigger] g@[a]@[t] < n,
            forall|a: int| 0 <= a < i ==> (#[trigger] g@[a])@ == face_row(vs, a, face_keys_of(vs[a]).len()),
        decreases n - i,
    {
        let mut row: Vec<usize> = Vec::new();
        let mut k: usize = 0;
        assert(kv[i as int] == lists_view(keys@[i as int]@));
        assert(kv[i as int] == face_keys_of(vs[i as int]));
        while k < keys[i].len()
            invariant
                k <= keys@[i as int]@.len(),
                i < n,
                n == vs.len(),
                kv == keys_view(keys@),
                kv[i as int] == lists_view(keys@[i as int]@),
                kv[i as int] == face_keys_of(vs[i as int]),
                indexed(keys@, bucket@, vs),
                forall|m: int| 0 <= m < row@.len() ==> #[trigger] row@[m] < vs.len() && share_face(vs[i as int], vs[row@[m] as int]),
                forall|j: int, k2: int|
                    0 <= j < n && 0 <= k2 < k && #[trigger] face_keys_of(vs[j]).contains(face_keys_of(vs[i as int])[k2])
                        ==> row@.contains(j as usize),
                row@ == face_row(vs, i as int, k as nat),
            decreases keys@[i as int]@.len() - k,
        {
            let key = &keys[i][k];
            assert(key@ == face_keys_of(vs[i as int])[k as int]);
            let found = elements_with_key(bucket, keys, key, Ghost(vs));
            let ghost row0 = row@;
            let mut m: usize = 0;
            while m < found.len()
                invariant
                    m <= found@.len(),
                    i < n,
                    n == vs.len(),
                    k < face_keys_of(vs[i as int]).len(),
                    key@ == face_keys_of(vs[i as int])[k as int],
                    forall|q: int|
                        0 <= q < found@.len() ==> #[trigger] found@[q] < vs.len() && face_keys_of(vs[found@[q] as int]).contains(key@),
                    row@ == row0 + found@.take(m as int),
                    forall|q: int| 0 <= q < row@.len() ==> #[trigger] row@[q] < vs.len() && share_face(vs[i as int], vs[row@[q] as int]),
                decreases found@.len() - m,
            {
                let j = found[m];
                proof {
                    lemma_share_face(vs[i as int], vs[j as int]);
                    assert(face_keys_of(vs[j as int]).contains(face_keys_of(vs[i as int])[k as int]));
                }
                let ghost before = row@;
                row.push(j);
                assert(row@ =~= row0 + found@.take(m + 1));
                assert forall|q: int| 0 <= q < row@.len() implies #[trigger] row@[q] < vs.len() && share_face(vs[i as int], vs[row@[q] as int]) by {
                    if q < before.len() {
                        assert(row@[q] == before[q]);
                    }
                }
                m = m + 1;
            }
            assert(found@.take(m as int) =~= found@);
            assert(row@ == face_row(vs, i as int, (k + 1) as nat));
            assert forall|j: int, k2: int|
                0 <= j < n && 0 <= k2 < k + 1 && #[trigger] face_keys_of(vs[j]).contains(face_keys_of(vs[i as int])[k2])
                    implies row@.contains(j as usize) by {
                if k2 < k {
                    assert(row0.contains(j as usize));
                    let q = choose|q: int| 0 <= q < row0.len() && row0[q] == j as usize;
                    assert(row@[q] == j as usize);
                } else {
                    assert(found@.contains(j as usize));
                    let q = choose|q: int| 0 <= q < found@.len() && found@[q] == j as usize;
                    assert(row@[row0.len() + q] == j as usize);
                }
            }
            k = k + 1;
        }
        assert(keys@[i as int]@.len() == face_keys_of(vs[i as int]).len());
        let ghost before = g@;
        g.push(row);
        proof {
            let gv = graph_view(g@);
            assert forall|a: int| 0 <= a < i + 1 implies (#[trigger] g@[a])@ == face_row(vs, a, face_keys_of(vs[a]).len()) by {
                if a < i {
                    assert(g@[a] == before[a]);
                }
            }
            assert(gv[i as int] == row@);
            assert forall|a: int, j: int| 0 <= a < i + 1 && 0 <= j < n implies (#[trigger] linked(graph_view(g@), a, j) <==> share_face(vs[a], vs[j])) by {
                if a < i {
                    assert(gv[a] == graph_view(before)[a]);
                    assert(linked(gv, a, j) == linked(graph_view(before), a, j));
                } else {
                    if linked(gv, a, j) {
                        let m = choose|m: int| 0 <= m < gv[a].len() && gv[a][m] as int == j;
                        assert(row@[m] as int == j);
                    }
                    if share_face(vs[a], vs[j]) {
                        lemma_share_face(vs[a], vs[j]);
                        let k2 = choose|k2: int| 0 <= k2 < face_keys_of(vs[a]).len() && #[trigger] face_keys_of(vs[j]).contains(face_keys_of(vs[a])[k2]);
                        assert(face_keys_of(vs[j]).contains(face_keys_of(vs[i as int])[k2]));
                        assert(row@.contains(j as usize));
                        let m = choose|m: int| 0 <= m < row@.len() && row@[m] == j as usize;
                        assert(gv[a][m] as int == j);
                    }
                }
            }
            assert forall|a: int, t: int| 0 <= a < i + 1 && 0 <= t < g@[a]@.len() implies #[trigger] g@[a]@[t] < n by {
                if a < i {
                    assert(g@[a] == before[a]);
                }
            }
        }
        i = i + 1;
    }
    assert(graph_view(g@) =~= face_graph_of(vs));
    g
}

// ─── The geometric faces that bound a region ────────────────────────────────

/// The polygon `f` is a face of the element `e`.
pub open spec fn is_face_of(f: Seq<u64>, e: ElementView) -> bool {
    face_keys_of(e).contains(face_key(f))
}

/// The polygon `f` is a face of one of the elements of `vs` at the indices
/// `m`.
pub open spec fn face_in(f: Seq<u64>, vs: Seq<ElementView>, m: Seq<int>) -> bool {
    exists|u: int| 0 <= u < m.len() && #[trigger] is_face_of(f, vs[m[u]])
}

/// One of the polygons `ps` is a face of one of the elements of `vs` at the
/// indices `m`.
pub open spec fn bounds(ps: Seq<Seq<u64>>, vs: Seq<ElementView>, m: Seq<int>) -> bool {
    exists|p: int| 0 <= p < ps.len() && #[trigger] face_in(ps[p], vs, m)
}

/// The polygons of each geometric face.
pub open spec fn polygons_of(fs: Seq<GFace>) -> Seq<Seq<Seq<u64>>> {
    fs.map_values(|f: GFace| lists_view(f.mesh_faces@))
}

/// The indices among the first `n` of the polygon lists `gp` whose polygons
/// bound the elements of `vs` at the indices `m`, in increasing order.
pub open spec fn bounding_faces(gp: Seq<Seq<Seq<u64>>>, vs: Seq<ElementView>, m: Seq<int>, n: nat) -> Seq<usize>
    decreases n,
{
    if n == 0 {
        seq![]
    } else {
        let r = bounding_faces(gp, vs, m, (n - 1) as nat);
        if bounds(gp[n - 1], vs, m) {
            r.push((n - 1) as usize)
        } else {
            r
        }
    }
}

/// `base`, with `t` after it where `flag` holds.
pub open spec fn marked(base: Seq<usize>, t: usize, flag: bool) -> Seq<usize> {
    if flag {
        base.push(t)
    } else {
        base
    }
}

/// The faces found among the first `n` come before `n`.
proof fn lemma_bounding_below(gp: Seq<Seq<Seq<u64>>>, vs: Seq<ElementView>, m: Seq<int>, n: nat)
    requires
        n <= usize::MAX,
    ensures
        forall|k: int| 0 <= k < bounding_faces(gp, vs, m, n).len() ==> #[trigger] bounding_faces(gp, vs, m, n)[k] < n,
    decreases n,
{
    if n > 0 {
        lemma_bounding_below(gp, vs, m, (n - 1) as nat);
        let r = bounding_faces(gp, vs, m, (n - 1) as nat);
        assert forall|k: int| 0 <= k < r.push((n - 1) as usize).len() implies #[trigger] r.push((n - 1) as usize)[k] < n by {
            if k < r.len() {
                assert(r.push((n - 1) as usize)[k] == r[k]);
            }
        }
    }
}

/// The list each element is in, for lists `comps` that split the graph `gv`.
fn region_owner(comps: &Vec<Vec<usize>>, n: usize, Ghost(gv): Ghost<Seq<Seq<usize>>>) -> (owner: Vec<usize>)
    requires
        components_of(gv, lists_as_ints(comps@)),
        gv.len() == n,
    ensures
        owner@.len() == n,
        forall|i: int| 0 <= i < n ==> #[trigger] owner@[i] < comps@.len(),
        forall|i: int, c: int|
            0 <= i < n && 0 <= c < comps@.len() ==> (#[trigger] lists_as_ints(comps@)[c].contains(i) <==> #[trigger] owner@[i]
                == c),
{
    let ghost ms = lists_as_ints(comps@);
    let mut owner: Vec<usize> = Vec::new();
    let mut i: usize = 0;
    while i < n
        invariant
            i <= n,
            owner@.len() == i,
        decreases n - i,
    {
        owner.push(0);
        i = i + 1;
    }
    let mut c: usize = 0;
    while c < comps.len()
        invariant
            c <= comps@.len(),
            ms == lists_as_ints(comps@),
            components_of(gv, ms),
            gv.len() == n,
            owner@.len() == n,
            forall|c2: int, u: int| 0 <= c2 < c && 0 <= u < ms[c2].len() ==> owner@[#[trigger] ms[c2][u]] == c2,
        decreases comps@.len() - c,
    {
        let members = &comps[c];
        assert(ms[c as int] == as_ints(members@));
        let mut u: usize = 0;
        while u < members.len()
            invariant
                u <= members@.len(),
                c < comps@.len(),
                members@ == comps@[c as int]@,
                ms == lists_as_ints(comps@),
                ms[c as int] == as_ints(members@),
                components_of(gv, ms),
                gv.len() == n,
                owner@.len() == n,
                forall|c2: int, u2: int| 0 <= c2 < c && 0 <= u2 < ms[c2].len() ==> owner@[#[trigger] ms[c2][u2]] == c2,
                forall|u2: int| 0 <= u2 < u ==> owner@[#[trigger] ms[c as int][u2]] == c,
            decreases members@.len() - u,
        {
            let x = members[u];
            assert(ms[c as int][u as int] == x as int);
            let ghost before = owner@;
            owner.set(x, c);
            assert forall|c2: int, u2: int| 0 <= c2 < c && 0 <= u2 < ms[c2].len() implies owner@[#[trigger] ms[c2][u2]] == c2 by {
                if ms[c2][u2] == x as int {
                    assert(ms[c2][u2] == ms[c as int][u as int]);
                }
                assert(owner@[ms[c2][u2]] == before[ms[c2][u2]]);
            }
            assert forall|u2: int| 0 <= u2 < u + 1 implies owner@[#[trigger] ms[c as int][u2]] == c by {
                if u2 < u {
                    if ms[c as int][u2] == x as int {
                        assert(ms[c as int][u2] == ms[c as int][u as int]);
                    }
                    assert(owner@[ms[c as int][u2]] == before[ms[c as int][u2]]);
                }
            }
            u = u + 1;
        }
        c = c + 1;
    }
    assert forall|i: int| 0 <= i < n implies #[trigger] owner@[i] < comps@.len() && ms[owner@[i] as int].contains(i) by {
        assert(crate::components::in_a_component(ms, i));
        let c2 = choose|c2: int| 0 <= c2 < ms.len() && #[trigger] ms[c2].contains(i);
        let u = choose|u: int| 0 <= u < ms[c2].len() && ms[c2][u] == i;
        assert(owner@[ms[c2][u]] == c2);
    }
    assert forall|i: int, c2: int|
        0 <= i < n && 0 <= c2 < comps@.len() implies (#[trigger] ms[c2].contains(i) <==> #[trigger] owner@[i] == c2) by {
        if ms[c2].contains(i) {
            let u = choose|u: int| 0 <= u < ms[c2].len() && ms[c2][u] == i;
            assert(owner@[ms[c2][u]] == c2);
        }
        if owner@[i] == c2 {
            assert(ms[owner@[i] as int].contains(i));
        }
    }
    owner
}

/// For each of the `nreg` regions, the geometric faces of `faces` that
/// bound it, in increasing order; `owner` gives the region of each element.
fn region_faces(
    bucket: &HashMap<u64, Vec<usize>>,
    keys: &Vec<Vec<Vec<u64>>>,
    owner: &Vec<usize>,
    faces: &Vec<GFace>,
    nreg: usize,
    Ghost(vs): Ghost<Seq<ElementView>>,
    Ghost(ms): Ghost<Seq<Seq<int>>>,
) -> (lists: Vec<Vec<usize>>)
    requires
        indexed(keys@, bucket@, vs),
        owner@.len() == vs.len(),
        ms.len() == nreg,
        forall|i: int| 0 <= i < vs.len() ==> #[trigger] owner@[i] < nreg,
        forall|i: int, c: int| 0 <= i < vs.len() && 0 <= c < nreg ==> (#[trigger] ms[c].contains(i) <==> #[trigger] owner@[i] == c),
        forall|c: int, u: int| 0 <= c < nreg && 0 <= u < ms[c].len() ==> 0 <= #[trigger] ms[c][u] < vs.len(),
    ensures
        lists@.len() == nreg,
        forall|c: int| 0 <= c < nreg ==> (#[trigger] lists@[c])@ == bounding_faces(polygons_of(faces@), vs, ms[c], faces@.len()),
{
    let ghost gp = polygons_of(faces@);
    let mut lists: Vec<Vec<usize>> = Vec::new();
    let mut c: usize = 0;
    while c < nreg
        invariant
            c <= nreg,
            lists@.len() == c,
            forall|c2: int| 0 <= c2 < c ==> (#[trigger] lists@[c2])@ == Seq::<usize>::empty(),
        decreases nreg - c,
    {
        lists.push(Vec::new());
        c = c + 1;
    }
    let mut t: usize = 0;
    while t < faces.len()
        invariant
            t <= faces@.len(),
            gp == polygons_of(faces@),
            indexed(keys@, bucket@, vs),
            owner@.len() == vs.len(),
            ms.len() == nreg,
            forall|i: int| 0 <= i < vs.len() ==> #[trigger] owner@[i] < nreg,
            forall|i: int, c2: int| 0 <= i < vs.len() && 0 <= c2 < nreg ==> (#[trigger] ms[c2].contains(i) <==> #[trigger] owner@[i] == c2),
            forall|c2: int, u: int| 0 <= c2 < nreg && 0 <= u < ms[c2].len() ==> 0 <= #[trigger] ms[c2][u] < vs.len(),
            lists@.len() == nreg,
            forall|c2: int| 0 <= c2 < nreg ==> (#[trigger] lists@[c2])@ == bounding_faces(gp, vs, ms[c2], t as nat),
        decreases faces@.len() - t,
    {
        let polys = &faces[t].mesh_faces;
        assert(gp[t as int] == lists_view(polys@));
        proof {
            assert forall|c2: int| 0 <= c2 < nreg implies #[trigger] lists@[c2]@ == marked(
                bounding_faces(gp, vs, ms[c2], t as nat),
                t,
                exists|q: int| 0 <= q < 0 && #[trigger] face_in(gp[t as int][q], vs, ms[c2]),
            ) by {}
        }
        let mut p: usize = 0;
        while p < polys.len()
            invariant
                p <= polys@.len(),
                t < faces@.len(),
                gp == polygons_of(faces@),
                gp[t as int] == lists_view(polys@),
                indexed(keys@, bucket@, vs),
                owner@.len() == vs.len(),
                ms.len() == nreg,
                forall|i: int| 0 <= i < vs.len() ==> #[trigger] owner@[i] < nreg,
                forall|i: int, c2: int| 0 <= i < vs.len() && 0 <= c2 < nreg ==> (#[trigger] ms[c2].contains(i) <==> #[trigger] owner@[i] == c2),
                forall|c2: int, u: int| 0 <= c2 < nreg && 0 <= u < ms[c2].len() ==> 0 <= #[trigger] ms[c2][u] < vs.len(),
                lists@.len() == nreg,
                forall|c2: int| 0 <= c2 < nreg ==> #[trigger] lists@[c2]@ == marked(
                    bounding_faces(gp, vs, ms[c2], t as nat),
                    t,
                    exists|q: int| 0 <= q < p && #[trigger] face_in(gp[t as int][q], vs, ms[c2]),
                ),
            decreases polys@.len() - p,
        {
            let key = sorted_ids_of(&polys[p]);
            let ghost poly = gp[t as int][p as int];
            assert(poly == polys@[p as int]@);
            assert(key@ == face_key(poly));
            let found = elements_with_key(bucket, keys, &key, Ghost(vs));
            let ghost l0 = lists@;
            let mut m: usize = 0;
            while m < found.len()
                invariant
                    m <= found@.len(),
                    t < faces@.len(),
                    lists@.len() == nreg,
                    owner@.len() == vs.len(),
                    forall|i: int| 0 <= i < vs.len() ==> #[trigger] owner@[i] < nreg,
                    forall|q: int|
                        0 <= q < found@.len() ==> #[trigger] found@[q] < vs.len() && face_keys_of(vs[found@[q] as int]).contains(key@),
                    forall|c2: int| 0 <= c2 < nreg ==> #[trigger] lists@[c2]@ == marked(
                        bounding_faces(gp, vs, ms[c2], t as nat),
                        t,
                        (exists|q: int| 0 <= q < p && #[trigger] face_in(gp[t as int][q], vs, ms[c2])) || (exists|q: int|
                            0 <= q < m && #[trigger] owner@[found@[q] as int] == c2),
                    ),
                decreases found@.len() - m,
            {
                let i = found[m];
                let c2 = owner[i];
                let ghost base = bounding_faces(gp, vs, ms[c2 as int], t as nat);
                proof {
                    lemma_bounding_below(gp, vs, ms[c2 as int], t as nat);
                }
                let len = lists[c2].len();
                let ghost before = lists@;
                if len == 0 || lists[c2][len - 1] != t {
                    assert(before[c2 as int]@ == base) by {
                        if before[c2 as int]@ != base {
                            assert(before[c2 as int]@ == base.push(t));
                        }
                    }
                    lists[c2].push(t);
                } else {
                    assert(before[c2 as int]@ != base) by {
                        if before[c2 as int]@ == base {
                            assert(base[len - 1] < t);
                        }
                    }
                }
                assert forall|c3: int| 0 <= c3 < nreg implies #[trigger] lists@[c3]@ == marked(
                    bounding_faces(gp, vs, ms[c3], t as nat),
                    t,
                    (exists|q: int| 0 <= q < p && #[trigger] face_in(gp[t as int][q], vs, ms[c3])) || (exists|q: int|
                        0 <= q < m + 1 && #[trigger] owner@[found@[q] as int] == c3),
                ) by {
                    if c3 == c2 as int {
                        assert(owner@[found@[m as int] as int] == c3);
                    } else {
                        assert(lists@[c3] == before[c3]);
                        if exists|q: int| 0 <= q < m + 1 && #[trigger] owner@[found@[q] as int] == c3 {
                            let q = choose|q: int| 0 <= q < m + 1 && #[trigger] owner@[found@[q] as int] == c3;
                            assert(q < m);
                        }
                    }
                }
                m = m + 1;
            }
            assert forall|c2: int| 0 <= c2 < nreg implies #[trigger] lists@[c2]@ == marked(
                bounding_faces(gp, vs, ms[c2], t as nat),
                t,
                exists|q: int| 0 <= q < p + 1 && #[trigger] face_in(gp[t as int][q], vs, ms[c2]),
            ) by {
                let hit_found = exists|q: int| 0 <= q < m && #[trigger] owner@[found@[q] as int] == c2;
                if hit_found {
                    let q = choose|q: int| 0 <= q < m && #[trigger] owner@[found@[q] as int] == c2;
                    let i = found@[q] as int;
                    assert(ms[c2].contains(i));
                    let u = choose|u: int| 0 <= u < ms[c2].len() && ms[c2][u] == i;
                    assert(is_face_of(poly, vs[ms[c2][u]]));
                    assert(face_in(gp[t as int][p as int], vs, ms[c2]));
                }
                if face_in(gp[t as int][p as int], vs, ms[c2]) {
                    let u = choose|u: int| 0 <= u < ms[c2].len() && #[trigger] is_face_of(poly, vs[ms[c2][u]]);
                    let i = ms[c2][u];
                    assert(face_keys_of(vs[i]).contains(key@));
                    assert(found@.contains(i as usize));
                    let q = choose|q: int| 0 <= q < found@.len() && found@[q] == i as usize;
                    assert(ms[c2].contains(i));
                    assert(owner@[found@[q] as int] == c2);
                }
                if exists|q: int| 0 <= q < p + 1 && #[trigger] face_in(gp[t as int][q], vs, ms[c2]) {
                    let q = choose|q: int| 0 <= q < p + 1 && #[trigger] face_in(gp[t as int][q], vs, ms[c2]);
                    if q < p {
                        assert(exists|q2: int| 0 <= q2 < p && #[trigger] face_in(gp[t as int][q2], vs, ms[c2]));
                    }
                }
            }
            p = p + 1;
        }
        assert forall|c2: int| 0 <= c2 < nreg implies (#[trigger] lists@[c2])@ == bounding_faces(gp, vs, ms[c2], (t + 1) as nat) by {
            let hit = exists|q: int| 0 <= q < p && #[trigger] face_in(gp[t as int][q], vs, ms[c2]);
            assert(hit == bounds(gp[t as int], vs, ms[c2]));
        }
        t = t + 1;
    }
    lists
}

/// Groups the volume elements into regions of elements connected through
/// shared faces. Region `j` has ID `j`; the geometric faces of `faces` that
/// bound it, those with a mesh face that is a face of one of its elements,
/// in increasing order; and the IDs of its elements, starting with the first
/// one in mesh order and listed in the order a breadth-first search over
/// shared faces meets them, each element's neighbours taken face by face
/// and, for a face, in mesh order (see `face_graph_of`).
pub fn classify_volumes(mesh: &Mesh, faces: &Vec<GFace>) -> (r: Vec<GRegion>)
    ensures
        forall|j: int| 0 <= j < r@.len() ==> (#[trigger] r@[j]).id == j,
        forall|j: int, k: int|
            0 <= j < r@.len() && 0 <= k < r@[j].element_ids@.len() ==> volume_id(mesh@.elements, #[trigger] r@[j].element_ids@[k]),
        forall|j: int, k: int|
            0 <= j < r@.len() && 0 <= k < r@[j].face_ids@.len() ==> #[trigger] r@[j].face_ids@[k] < faces@.len(),
        exists|ms: Seq<Seq<int>>|
            #![trigger regions_of(elements_of_dim(mesh@.elements, 3), ms)]
            regions_of(elements_of_dim(mesh@.elements, 3), ms) && ms == bfs_components(
                face_graph_of(elements_of_dim(mesh@.elements, 3)),
            ) && ms.len() == r@.len() && forall|j: int|
                0 <= j < r@.len() ==> (#[trigger] r@[j]).element_ids@ == ids_at(
                    elements_of_dim(mesh@.elements, 3),
                    ms[j],
                ) && r@[j].face_ids@ == bounding_faces(
                    polygons_of(faces@),
                    elements_of_dim(mesh@.elements, 3),
                    ms[j],
                    faces@.len(),
                ),
{
    let vol = mesh.elements_by_dimension(3);
    let ghost vs = elements_of_dim(mesh@.elements, 3);
    let (keys, bucket) = face_index(&vol, Ghost(vs));
    let g = face_graph(&bucket, &keys, Ghost(vs));
    let ghost gv = graph_view(g@);
    assert(symmetric(gv)) by {
        assert forall|a: int, b: int| 0 <= a < gv.len() && 0 <= b < gv.len() && #[trigger] linked(gv, a, b) implies linked(gv, b, a) by {
            assert(share_face(vs[a], vs[b]));
            let (p, q) = choose|p: int, q: int|
                0 <= p < face_keys_of(vs[a]).len() && 0 <= q < face_keys_of(vs[b]).len() && #[trigger] face_keys_of(vs[a])[p]
                    == #[trigger] face_keys_of(vs[b])[q];
            assert(share_face(vs[b], vs[a]));
        }
    }
    let comps = connected_components(&g);
    let ghost ms = lists_as_ints(comps@);
    let owner = region_owner(&comps, vol.len(), Ghost(gv));
    let flists = region_faces(&bucket, &keys, &owner, faces, comps.len(), Ghost(vs), Ghost(ms));
    let nfaces = faces.len();
    let mut regions: Vec<GRegion> = Vec::new();
    let mut c: usize = 0;
    while c < comps.len()
        invariant
            c <= comps@.len(),
            ms == lists_as_ints(comps@),
            components_of(gv, ms),
            gv.len() == vs.len(),
            vs == element_refs_view(vol@),
            flists@.len() == comps@.len(),
            forall|j: int| 0 <= j < comps@.len() ==> (#[trigger] flists@[j])@ == bounding_faces(polygons_of(faces@), vs, ms[j], faces@.len()),
            regions@.len() == c,
            forall|j: int|
                0 <= j < c ==> (#[trigger] regions@[j]).id == j && regions@[j].element_ids@ == ids_at(vs, ms[j])
                    && regions@[j].face_ids@ == bounding_faces(polygons_of(faces@), vs, ms[j], faces@.len()),
        decreases comps@.len() - c,
    {
        let members = &comps[c];
        assert(ms[c as int] == as_ints(members@));
        let mut ids: Vec<u64> = Vec::new();
        let mut t: usize = 0;
        while t < members.len()
            invariant
                t <= members@.len(),
                c < comps@.len(),
                members@ == comps@[c as int]@,
                ms == lists_as_ints(comps@),
                ms[c as int] == as_ints(members@),
                components_of(gv, ms),
                gv.len() == vs.len(),
                vs == element_refs_view(vol@),
                ids@ == ids_at(vs, ms[c as int].take(t as int)),
            decreases members@.len() - t,
        {
            let x = members[t];
            assert(ms[c as int][t as int] == x as int);
            assert(x < vol@.len());
            assert(vs[x as int] == vol@[x as int]@);
            ids.push(vol[x].id);
            assert(ids@ =~= ids_at(vs, ms[c as int].take(t + 1)));
            t = t + 1;
        }
        assert(ms[c as int].take(t as int) =~= ms[c as int]);
        let face_ids = copy_indices(&flists[c]);
        let ghost before = regions@;
        regions.push(GRegion { id: c, face_ids, element_ids: ids });
        assert forall|j: int|
            0 <= j < c + 1 implies (#[trigger] regions@[j]).id == j && regions@[j].element_ids@ == ids_at(vs, ms[j])
                && regions@[j].face_ids@ == bounding_faces(polygons_of(faces@), vs, ms[j], faces@.len()) by {
            if j < c {
                assert(regions@[j] == before[j]);
            }
        }
        c = c + 1;
    }
    proof {
        assert forall|j: int, t: int, q: int|
            0 <= j < ms.len() && 0 <= t < ms[j].len() && 0 <= q < vs.len() && share_face(
                vs[#[trigger] ms[j][t]],
                #[trigger] vs[q],
            ) implies ms[j].contains(q) by {
            assert(linked(gv, ms[j][t], q));
        }
        assert forall|j: int, t: int| 0 <= j < ms.len() && 0 < t < ms[j].len() implies #[trigger] joins_earlier(vs, ms[j], t) by {
            assert(crate::components::joins_earlier(gv, ms[j], t));
            let u = choose|u: int| 0 <= u < t && linked(gv, ms[j][t], ms[j][u]);
            assert(share_face(vs[ms[j][t]], vs[ms[j][u]]));
        }
        assert forall|i: int| 0 <= i < vs.len() implies #[trigger] in_a_region(ms, i) by {
            assert(crate::components::in_a_component(ms, i));
        }
        assert(regions_of(vs, ms));
        lemma_elements_of_dim(mesh@.elements, 3);
        assert forall|j: int, k: int|
            0 <= j < regions@.len() && 0 <= k < regions@[j].element_ids@.len() implies volume_id(
                mesh@.elements,
                #[trigger] regions@[j].element_ids@[k],
            ) by {
            let x = ms[j][k];
            assert(regions@[j].element_ids@[k] == vs[x].id);
            assert(mesh@.elements.contains(vs[x]));
        }
        assert forall|j: int, k: int|
            0 <= j < regions@.len() && 0 <= k < regions@[j].face_ids@.len() implies #[trigger] regions@[j].face_ids@[k]
                < faces@.len() by {
            lemma_bounding_below(polygons_of(faces@), vs, ms[j], faces@.len());
        }
    }
    regions
}

} // verus!
