//! The repository state held in memory as plain values: HEAD, the index
//! ledger, the refs, and the compressed object store. The surrounding
//! application mirrors this state to and from the on-disk layout.
use crate::bytes::{bytes_eq, bytes_starts_with, head_init_bytes, main_ref_path, main_ref_path_bytes};
use crate::bytes::head_init;
use crate::hashing::{deflate_of, hash_file, is_hex_char};
use crate::hashing::{compress_object_content, decompress_object_content};
use crate::bytes::dec_digits;
use crate::objects::{
    build_store, get_object_contents, get_object_size, get_object_type, kind_label,
    lemma_store_round_trip, oid_of, store_bytes, store_fields, GritCatType, GritObjectType,
};
use vstd::prelude::*;
use vstd::slice::slice_to_vec;

verus! {

/// The whole state of a repository: the contents of HEAD and of the index
/// ledger, the ref files (path, content), and the object store
/// (object id, compressed serialized object).
pub struct Repo {
    pub head: Vec<u8>,
    pub index: Vec<u8>,
    pub refs: Vec<(Vec<u8>, Vec<u8>)>,
    pub objects: Vec<(Vec<u8>, Vec<u8>)>,
}

/// The mathematical value of a [`Repo`].
pub struct RepoV {
    pub head: Seq<u8>,
    pub index: Seq<u8>,
    pub refs: Seq<(Seq<u8>, Seq<u8>)>,
    pub objects: Seq<(Seq<u8>, Seq<u8>)>,
}

impl View for Repo {
    type V = RepoV;

    open spec fn view(&self) -> RepoV {
        RepoV {
            head: self.head@,
            index: self.index@,
            refs: self.refs.deep_view(),
            objects: self.objects.deep_view(),
        }
    }
}

/// The value bound to `k`, looking from the front.
pub open spec fn assoc_find(m: Seq<(Seq<u8>, Seq<u8>)>, k: Seq<u8>) -> Option<Seq<u8>>
    decreases m.len(),
{
    if m.len() == 0 {
        None
    } else if m[0].0 == k {
        Some(m[0].1)
    } else {
        assoc_find(m.skip(1), k)
    }
}

pub open spec fn assoc_has(m: Seq<(Seq<u8>, Seq<u8>)>, k: Seq<u8>) -> bool {
    assoc_find(m, k) is Some
}

/// Bind `k` to `v`: overwrite the first binding of `k`, or append one.
pub open spec fn assoc_set(m: Seq<(Seq<u8>, Seq<u8>)>, k: Seq<u8>, v: Seq<u8>) -> Seq<
    (Seq<u8>, Seq<u8>),
>
    decreases m.len(),
{
    if m.len() == 0 {
        seq![(k, v)]
    } else if m[0].0 == k {
        seq![(k, v)] + m.skip(1)
    } else {
        seq![m[0]] + assoc_set(m.skip(1), k, v)
    }
}

pub proof fn lemma_assoc_set_find(m: Seq<(Seq<u8>, Seq<u8>)>, k: Seq<u8>, v: Seq<u8>, k2: Seq<u8>)
    ensures
        assoc_find(assoc_set(m, k, v), k) == Some(v),
        k2 != k ==> assoc_find(assoc_set(m, k, v), k2) == assoc_find(m, k2),
    decreases m.len(),
{
    if m.len() == 0 {
        let s = assoc_set(m, k, v);
        assert(s[0] == (k, v));
        assert(s.skip(1) =~~= Seq::<(Seq<u8>, Seq<u8>)>::empty());
        if k2 != k {
            assert(assoc_find(s.skip(1), k2) is None);
        }
    } else if m[0].0 == k {
        let s = assoc_set(m, k, v);
        assert(s[0] == (k, v));
        assert(s.skip(1) =~~= m.skip(1));
        if k2 != k {
            assert(assoc_find(s.skip(1), k2) == assoc_find(m.skip(1), k2));
        }
    } else {
        lemma_assoc_set_find(m.skip(1), k, v, k2);
        let s = assoc_set(m, k, v);
        assert(s[0] == m[0]);
        assert(s.skip(1) =~~= assoc_set(m.skip(1), k, v));
        if k2 != k {
            assert(assoc_find(s.skip(1), k2) == assoc_find(assoc_set(m.skip(1), k, v), k2));
        }
    }
}

/// Rebinding a key to the same value twice is the same as binding it once.
pub proof fn lemma_assoc_set_twice(m: Seq<(Seq<u8>, Seq<u8>)>, k: Seq<u8>, v: Seq<u8>)
    ensures
        assoc_set(assoc_set(m, k, v), k, v) == assoc_set(m, k, v),
    decreases m.len(),
{
    if m.len() == 0 {
        let s = assoc_set(m, k, v);
        assert(s[0].0 == k);
        assert(assoc_set(s, k, v) =~~= s);
    } else if m[0].0 == k {
        let s = assoc_set(m, k, v);
        assert(s[0].0 == k);
        assert(s.skip(1) =~~= m.skip(1));
        assert(assoc_set(s, k, v) =~~= s);
    } else {
        lemma_assoc_set_twice(m.skip(1), k, v);
        let s = assoc_set(m, k, v);
        assert(s[0] == m[0]);
        assert(s.skip(1) =~~= assoc_set(m.skip(1), k, v));
        assert(assoc_set(s, k, v) =~~= seq![m[0]] + assoc_set(assoc_set(m.skip(1), k, v), k, v));
        assert(assoc_set(s, k, v) =~~= s);
    }
}

/// Binding a key grows the map by one entry when the key is new, and keeps
/// its size when the key is already bound.
pub proof fn lemma_assoc_set_len(m: Seq<(Seq<u8>, Seq<u8>)>, k: Seq<u8>, v: Seq<u8>)
    ensures
        assoc_set(m, k, v).len() == if assoc_has(m, k) {
            m.len() as int
        } else {
            (m.len() + 1) as int
        },
    decreases m.len(),
{
    if m.len() > 0 && m[0].0 != k {
        lemma_assoc_set_len(m.skip(1), k, v);
    }
}

/// The deep view of a pair list, entry by entry: each side is the view of
/// the byte vector there.
pub proof fn lemma_pair_dv(m: &Vec<(Vec<u8>, Vec<u8>)>, i: int)
    requires
        0 <= i < m@.len(),
    ensures
        m.deep_view().len() == m@.len(),
        m.deep_view()[i].0 == m@[i].0@,
        m.deep_view()[i].1 == m@[i].1@,
{
    assert(m.deep_view()[i] == m@[i].deep_view());
    assert(m@[i].deep_view().0 =~= m@[i].0@);
    assert(m@[i].deep_view().1 =~= m@[i].1@);
}

/// Look a key up, handing back a copy of its value.
pub fn assoc_get(m: &Vec<(Vec<u8>, Vec<u8>)>, k: &[u8]) -> (r: Option<Vec<u8>>)
    ensures
        match r {
            Some(v) => assoc_find(m.deep_view(), k@) == Some(v@),
            None => assoc_find(m.deep_view(), k@) is None,
        },
{
    let ghost full = m.deep_view();
    let mut i: usize = 0;
    proof {
        assert(full.skip(0) =~~= full);
    }
    while i < m.len()
        invariant
            0 <= i <= m@.len(),
            full == m.deep_view(),
            assoc_find(full, k@) == assoc_find(full.skip(i as int), k@),
        decreases m@.len() - i,
    {
        let ghost rest = full.skip(i as int);
        proof {
            assert(rest[0] == full[i as int]);
            assert(rest.skip(1) =~~= full.skip(i as int + 1));
            lemma_pair_dv(m, i as int);
        }
        let pair = &m[i];
        if bytes_eq(pair.0.as_slice(), k) {
            return Some(slice_to_vec(pair.1.as_slice()));
        }
        i = i + 1;
    }
    proof {
        assert(full.skip(i as int).len() == 0);
    }
    None
}

/// Bind a key, overwriting the first existing binding or appending one.
#[verifier::loop_isolation(false)]
pub fn assoc_put(m: &mut Vec<(Vec<u8>, Vec<u8>)>, k: &[u8], v: Vec<u8>)
    ensures
        final(m).deep_view() == assoc_set(old(m).deep_view(), k@, v@),
{
    let ghost full = old(m).deep_view();
    let mut i: usize = 0;
    let n = m.len();
    while i < n
        invariant
            0 <= i <= n,
            n == m@.len(),
            m.deep_view() == full,
            forall|j: int| 0 <= j < i ==> full[j].0 != k@,
        decreases n - i,
    {
        proof {
            lemma_pair_dv(m, i as int);
        }
        let found = {
            let pair = &m[i];
            bytes_eq(pair.0.as_slice(), k)
        };
        if found {
            let kv = slice_to_vec(k);
            let ghost prev = m@;
            m[i] = (kv, v);
            proof {
                assert(m@ == prev.update(i as int, (kv, v)));
                assert forall|j: int| 0 <= j < m.deep_view().len() implies m.deep_view()[j]
                    == full.update(i as int, (k@, v@))[j] by {
                    assert(m.deep_view()[j] == m@[j].deep_view());
                    if j == i {
                        assert(m@[j] == (kv, v));
                        assert((kv, v).deep_view().0 =~= k@);
                        assert((kv, v).deep_view().1 =~= v@);
                    } else {
                        assert(m@[j] == prev[j]);
                        assert(full[j] == prev[j].deep_view());
                    }
                }
                assert(m.deep_view() =~= full.update(i as int, (k@, v@)));
                lemma_assoc_set_at(full, k@, v@, i as int);
            }
            return ;
        }
        i = i + 1;
    }
    let kv = slice_to_vec(k);
    let ghost before = m.deep_view();
    m.push((kv, v));
    proof {
        assert(m.deep_view() =~~= full.push((k@, v@)));
        lemma_assoc_set_append(full, k@, v@);
    }
}

/// When the first binding of `k` sits at `i`, rebinding is an update there.
proof fn lemma_assoc_set_at(m: Seq<(Seq<u8>, Seq<u8>)>, k: Seq<u8>, v: Seq<u8>, i: int)
    requires
        0 <= i < m.len(),
        m[i].0 == k,
        forall|j: int| 0 <= j < i ==> m[j].0 != k,
    ensures
        assoc_set(m, k, v) == m.update(i, (k, v)),
    decreases i,
{
    if i == 0 {
        assert(assoc_set(m, k, v) =~~= m.update(0, (k, v)));
    } else {
        assert(m.skip(1)[i - 1].0 == k);
        assert(forall|j: int| 0 <= j < i - 1 ==> m.skip(1)[j].0 != k);
        lemma_assoc_set_at(m.skip(1), k, v, i - 1);
        assert(assoc_set(m, k, v) =~~= seq![m[0]] + m.skip(1).update(i - 1, (k, v)));
        assert(seq![m[0]] + m.skip(1).update(i - 1, (k, v)) =~~= m.update(i, (k, v)));
    }
}

/// When `k` is unbound, binding it appends.
proof fn lemma_assoc_set_append(m: Seq<(Seq<u8>, Seq<u8>)>, k: Seq<u8>, v: Seq<u8>)
    requires
        forall|j: int| 0 <= j < m.len() ==> m[j].0 != k,
    ensures
        assoc_set(m, k, v) == m.push((k, v)),
    decreases m.len(),
{
    if m.len() == 0 {
        assert(assoc_set(m, k, v) =~~= m.push((k, v)));
    } else {
        assert(forall|j: int| 0 <= j < m.skip(1).len() ==> m.skip(1)[j].0 != k);
        lemma_assoc_set_append(m.skip(1), k, v);
        assert(assoc_set(m, k, v) =~~= seq![m[0]] + m.skip(1).push((k, v)));
        assert(seq![m[0]] + m.skip(1).push((k, v)) =~~= m.push((k, v)));
    }
}

/// The object store after persisting an object: its id bound to its
/// compressed serialized form.
pub open spec fn stored(
    objects: Seq<(Seq<u8>, Seq<u8>)>,
    k: GritObjectType,
    payload: Seq<u8>,
) -> Seq<(Seq<u8>, Seq<u8>)> {
    assoc_set(objects, oid_of(k, payload), deflate_of(store_bytes(k, payload)))
}

/// Content addressing: persisting the same payload twice leaves the store
/// exactly as persisting it once does, and each store grows the object
/// count only when the id is new.
pub proof fn lemma_store_idempotent(
    objects: Seq<(Seq<u8>, Seq<u8>)>,
    k: GritObjectType,
    payload: Seq<u8>,
)
    ensures
        stored(stored(objects, k, payload), k, payload) == stored(objects, k, payload),
        assoc_has(stored(objects, k, payload), oid_of(k, payload)),
        stored(objects, k, payload).len() == if assoc_has(objects, oid_of(k, payload)) {
            objects.len() as int
        } else {
            (objects.len() + 1) as int
        },
{
    let o = oid_of(k, payload);
    let d = deflate_of(store_bytes(k, payload));
    lemma_assoc_set_twice(objects, o, d);
    lemma_assoc_set_find(objects, o, d, o);
    lemma_assoc_set_len(objects, o, d);
}

/// A fresh repository: HEAD names the main branch, the index is empty, the
/// main branch exists with no commits, and the store is empty.
pub fn init() -> (r: Repo)
    ensures
        r@.head == head_init(),
        r@.index == Seq::<u8>::empty(),
        r@.refs == seq![(main_ref_path(), Seq::<u8>::empty())],
        r@.objects == Seq::<(Seq<u8>, Seq<u8>)>::empty(),
{
    let head = head_init_bytes();
    let index: Vec<u8> = Vec::new();
    let mut refs: Vec<(Vec<u8>, Vec<u8>)> = Vec::new();
    refs.push((main_ref_path_bytes(), Vec::new()));
    let objects: Vec<(Vec<u8>, Vec<u8>)> = Vec::new();
    let r = Repo { head, index, refs, objects };
    proof {
        assert(r@.index =~= Seq::<u8>::empty());
        assert(r@.refs =~~= seq![(main_ref_path(), Seq::<u8>::empty())]);
        assert(r@.objects =~~= Seq::<(Seq<u8>, Seq<u8>)>::empty());
    }
    r
}

/// Compute the object id of a payload; when `write` is set, also compress
/// the serialized object and persist it in the store under that id.
/// Persisting is idempotent, and the call always succeeds.
pub fn hash_object(
    content: &[u8],
    object_type: GritObjectType,
    write: bool,
    repo: &mut Repo,
) -> (r: Option<Vec<u8>>)
    ensures
        r matches Some(v) && v@ == oid_of(object_type, content@) && v@.len() == 40 && (forall|
            i: int,
        | 0 <= i < v@.len() ==> is_hex_char(#[trigger] v@[i])),
        !write ==> final(repo)@ == old(repo)@,
        write ==> final(repo)@ == (RepoV {
            objects: stored(old(repo)@.objects, object_type, content@),
            ..old(repo)@
        }),
{
    let store = build_store(object_type, content);
    let oid = hash_file(store.as_slice());
    if write {
        let compressed = match compress_object_content(store.as_slice()) {
            Some(z) => z,
            None => {
                proof {
                    assert(false);
                }
                return None;
            },
        };
        assoc_put(&mut repo.objects, oid.as_slice(), compressed);
    }
    Some(oid)
}

/// Does the store hold an object under exactly this id?
pub fn object_exists(oid: &[u8], repo: &Repo) -> (r: bool)
    ensures
        r == assoc_has(repo@.objects, oid@),
{
    let found = assoc_get(&repo.objects, oid);
    found.is_some()
}

/// The ids of every stored object, in store order.
pub open spec fn assoc_keys(m: Seq<(Seq<u8>, Seq<u8>)>) -> Seq<Seq<u8>> {
    Seq::new(m.len(), |i: int| m[i].0)
}

/// List the ids of all stored objects.
pub fn get_all_objects(repo: &Repo) -> (r: Vec<Vec<u8>>)
    ensures
        r.deep_view() == assoc_keys(repo@.objects),
{
    let mut r: Vec<Vec<u8>> = Vec::new();
    let mut i: usize = 0;
    while i < repo.objects.len()
        invariant
            0 <= i <= repo.objects@.len(),
            r.deep_view() =~~= assoc_keys(repo@.objects).take(i as int),
        decreases repo.objects@.len() - i,
    {
        let pair = &repo.objects[i];
        let ghost before = r.deep_view();
        r.push(slice_to_vec(pair.0.as_slice()));
        proof {
            assert(r.deep_view() =~~= before.push(repo@.objects[i as int].0));
            assert(assoc_keys(repo@.objects).take(i as int + 1) =~~= assoc_keys(repo@.objects)
                .take(i as int).push(repo@.objects[i as int].0));
        }
        i = i + 1;
    }
    proof {
        assert(assoc_keys(repo@.objects).take(i as int) =~~= assoc_keys(repo@.objects));
    }
    r
}

/// The first stored object whose id begins with `q`.
pub open spec fn find_by_prefix(m: Seq<(Seq<u8>, Seq<u8>)>, q: Seq<u8>) -> Option<
    (Seq<u8>, Seq<u8>),
>
    decreases m.len(),
{
    if m.len() == 0 {
        None
    } else if q.is_prefix_of(m[0].0) {
        Some(m[0])
    } else {
        find_by_prefix(m.skip(1), q)
    }
}

/// How many stored ids begin with `q`.
pub open spec fn count_prefix_matches(m: Seq<(Seq<u8>, Seq<u8>)>, q: Seq<u8>) -> nat
    decreases m.len(),
{
    if m.len() == 0 {
        0
    } else {
        (if q.is_prefix_of(m[0].0) {
            1nat
        } else {
            0nat
        }) + count_prefix_matches(m.skip(1), q)
    }
}

/// Counting matches one element further.
proof fn lemma_count_snoc(m: Seq<(Seq<u8>, Seq<u8>)>, e: (Seq<u8>, Seq<u8>), q: Seq<u8>)
    ensures
        count_prefix_matches(m.push(e), q) == count_prefix_matches(m, q) + (
        if q.is_prefix_of(e.0) {
            1nat
        } else {
            0nat
        }),
    decreases m.len(),
{
    let s = m.push(e);
    if m.len() == 0 {
        assert(s[0] == e);
        assert(s.skip(1) =~~= Seq::<(Seq<u8>, Seq<u8>)>::empty());
        assert(count_prefix_matches(s.skip(1), q) == 0);
        assert(count_prefix_matches(m, q) == 0);
    } else {
        assert(s[0] == m[0]);
        assert(s.skip(1) =~~= m.skip(1).push(e));
        lemma_count_snoc(m.skip(1), e, q);
        assert(count_prefix_matches(s.skip(1), q) == count_prefix_matches(m.skip(1), q) + (
        if q.is_prefix_of(e.0) {
            1nat
        } else {
            0nat
        }));
    }
}

/// The first match decides the lookup when nothing earlier matches.
proof fn lemma_find_at(m: Seq<(Seq<u8>, Seq<u8>)>, q: Seq<u8>, idx: int)
    requires
        0 <= idx < m.len(),
        q.is_prefix_of(m[idx].0),
        forall|j: int| 0 <= j < idx ==> !q.is_prefix_of((#[trigger] m[j]).0),
    ensures
        find_by_prefix(m, q) == Some(m[idx]),
    decreases idx,
{
    if idx > 0 {
        assert(m.skip(1)[idx - 1] == m[idx]);
        assert(forall|j: int| 0 <= j < idx - 1 ==> m.skip(1)[j] == m[j + 1]);
        lemma_find_at(m.skip(1), q, idx - 1);
    }
}

/// Nothing matches, nothing counts.
proof fn lemma_count_zero(m: Seq<(Seq<u8>, Seq<u8>)>, q: Seq<u8>)
    requires
        forall|j: int| 0 <= j < m.len() ==> !q.is_prefix_of((#[trigger] m[j]).0),
    ensures
        count_prefix_matches(m, q) == 0,
    decreases m.len(),
{
    if m.len() > 0 {
        assert(forall|j: int| 0 <= j < m.skip(1).len() ==> m.skip(1)[j] == m[j + 1]);
        lemma_count_zero(m.skip(1), q);
    }
}

/// Locate an object by an id prefix (at least the two-character directory
/// part) and decompress its serialized form. A prefix that narrows to no
/// stored object, or to more than one, is a defined failure.
#[verifier::loop_isolation(false)]
pub fn unhash_object(oid: &[u8], repo: &Repo) -> (r: Option<Vec<u8>>)
    requires
        oid@.len() >= 2,
    ensures
        count_prefix_matches(repo@.objects, oid@) != 1 ==> r is None,
        count_prefix_matches(repo@.objects, oid@) == 1 ==> (find_by_prefix(repo@.objects, oid@)
            matches Some(pr) && (forall|orig: Seq<u8>|
            pr.1 == deflate_of(orig) ==> (r matches Some(v) && v@ == orig))),
{
    let ghost full = repo@.objects;
    let mut i: usize = 0;
    let mut count: usize = 0;
    let mut first: usize = 0;
    proof {
        assert(full.take(0) =~~= Seq::<(Seq<u8>, Seq<u8>)>::empty());
    }
    while i < repo.objects.len()
        invariant
            0 <= i <= repo.objects@.len(),
            full == repo@.objects,
            count <= i,
            count as nat == count_prefix_matches(full.take(i as int), oid@),
            count > 0 ==> 0 <= first < i && oid@.is_prefix_of(full[first as int].0),
            count > 0 ==> forall|j: int| 0 <= j < first ==> !oid@.is_prefix_of(
                (#[trigger] full[j]).0,
            ),
            count == 0 ==> forall|j: int| 0 <= j < i ==> !oid@.is_prefix_of((#[trigger] full[j]).0),
        decreases repo.objects@.len() - i,
    {
        proof {
            lemma_pair_dv(&repo.objects, i as int);
            assert(full.take(i as int + 1) =~~= full.take(i as int).push(full[i as int]));
            lemma_count_snoc(full.take(i as int), full[i as int], oid@);
        }
        let pair = &repo.objects[i];
        if bytes_starts_with(pair.0.as_slice(), oid) {
            if count == 0 {
                first = i;
            }
            count = count + 1;
        }
        i = i + 1;
    }
    proof {
        assert(full.take(i as int) =~~= full);
    }
    if count != 1 {
        proof {
            if count == 0 {
                lemma_count_zero(full, oid@);
            }
        }
        return None;
    }
    proof {
        lemma_find_at(full, oid@, first as int);
        lemma_pair_dv(&repo.objects, first as int);
    }
    let pair = &repo.objects[first];
    decompress_object_content(pair.1.as_slice())
}

/// A prefix as long as the string itself is the string.
proof fn lemma_full_length_prefix(q: Seq<u8>, s: Seq<u8>)
    requires
        q.len() == s.len(),
        q.is_prefix_of(s),
    ensures
        q == s,
{
    assert(q =~= s.subrange(0, q.len() as int));
    assert(s.subrange(0, q.len() as int) =~= s);
}

/// Round trip, store side: in a store whose ids all have the full id
/// length and are distinct, a just-persisted object is the unique one its
/// own id locates, so the read path decompresses it back to exactly the
/// serialized kind and payload.
pub proof fn lemma_stored_cat_match(
    objects: Seq<(Seq<u8>, Seq<u8>)>,
    k: GritObjectType,
    payload: Seq<u8>,
)
    requires
        oid_of(k, payload).len() >= 2,
        forall|i: int| 0 <= i < objects.len() ==> (#[trigger] objects[i].0).len() == oid_of(
            k,
            payload,
        ).len(),
        forall|i: int, j: int|
            0 <= i < objects.len() && 0 <= j < objects.len() && i != j ==> objects[i].0 != objects[
                j
            ].0,
    ensures
        cat_match(stored(objects, k, payload), oid_of(k, payload), k, payload),
    decreases objects.len(),
{
    let o = oid_of(k, payload);
    let d = deflate_of(store_bytes(k, payload));
    let s = assoc_set(objects, o, d);
    if objects.len() == 0 {
        assert(s[0] == (o, d));
        assert(o.is_prefix_of(o)) by {
            assert(o =~= o.subrange(0, o.len() as int));
        }
        assert(find_by_prefix(s, o) == Some((o, d)));
        assert(s.skip(1) =~~= Seq::<(Seq<u8>, Seq<u8>)>::empty());
        assert(count_prefix_matches(s.skip(1), o) == 0);
        assert(count_prefix_matches(s, o) == 1);
    } else if objects[0].0 == o {
        assert(s[0] == (o, d));
        assert(o.is_prefix_of(o)) by {
            assert(o =~= o.subrange(0, o.len() as int));
        }
        assert(find_by_prefix(s, o) == Some((o, d)));
        assert(s.skip(1) =~~= objects.skip(1));
        assert(forall|j: int| 0 <= j < objects.skip(1).len() ==> objects.skip(1)[j] == objects[
            j + 1
        ]);
        assert(forall|j: int| 0 <= j < objects.skip(1).len() ==> !o.is_prefix_of(
            (#[trigger] objects.skip(1)[j]).0,
        )) by {
            assert forall|j: int|
                0 <= j < objects.skip(1).len() implies !o.is_prefix_of(
                (#[trigger] objects.skip(1)[j]).0,
            ) by {
                if o.is_prefix_of(objects[j + 1].0) {
                    lemma_full_length_prefix(o, objects[j + 1].0);
                }
            }
        }
        lemma_count_zero(objects.skip(1), o);
        assert(count_prefix_matches(s.skip(1), o) == 0);
        assert(o.is_prefix_of(s[0].0));
        assert(count_prefix_matches(s, o) == 1);
    } else {
        assert(forall|i: int| 0 <= i < objects.skip(1).len() ==> objects.skip(1)[i] == objects[
            i + 1
        ]);
        lemma_stored_cat_match(objects.skip(1), k, payload);
        assert(s[0] == objects[0]);
        assert(s.skip(1) =~~= assoc_set(objects.skip(1), o, d));
        assert(!o.is_prefix_of(objects[0].0)) by {
            if o.is_prefix_of(objects[0].0) {
                lemma_full_length_prefix(o, objects[0].0);
            }
        }
        assert(find_by_prefix(s, o) == find_by_prefix(s.skip(1), o));
        assert(count_prefix_matches(s, o) == count_prefix_matches(s.skip(1), o));
    }
}

/// An object of the store matches a lookup when exactly one stored id has
/// that prefix and it is bound to the compressed serialized form of kind
/// and payload.
pub open spec fn cat_match(
    objects: Seq<(Seq<u8>, Seq<u8>)>,
    q: Seq<u8>,
    k: GritObjectType,
    p: Seq<u8>,
) -> bool {
    &&& count_prefix_matches(objects, q) == 1
    &&& find_by_prefix(objects, q) matches Some(pr) && pr.1 == deflate_of(store_bytes(k, p))
}

/// The field of a stored object that a cat request asks for.
pub open spec fn cat_value(t: GritCatType, k: GritObjectType, payload: Seq<u8>) -> Seq<u8> {
    match t {
        GritCatType::Type => kind_label(k),
        GritCatType::Pretty => payload,
        GritCatType::Size => dec_digits(payload.len()),
    }
}

/// Locate an object by an id prefix that narrows to exactly one stored
/// object, decompress it, and hand back its kind label, its payload, or
/// its size digits.
pub fn generate_cat_content(oid: &[u8], cat_type: GritCatType, repo: &Repo) -> (r: Option<Vec<u8>>)
    requires
        oid@.len() >= 2,
    ensures
        count_prefix_matches(repo@.objects, oid@) != 1 ==> r is None,
        forall|k: GritObjectType, p: Seq<u8>|
            #[trigger] cat_match(repo@.objects, oid@, k, p) ==> (r matches Some(v) && v@
                == cat_value(cat_type, k, p)),
{
    let content = match unhash_object(oid, repo) {
        Some(c) => c,
        None => {
            return None;
        },
    };
    proof {
        assert forall|k: GritObjectType, p: Seq<u8>|
            #[trigger] cat_match(repo@.objects, oid@, k, p) implies content@ == store_bytes(k, p)
            && store_fields(content@) == Some(
            (kind_label(k), dec_digits(p.len()), p),
        ) by {
            lemma_store_round_trip(k, p);
        }
    }
    match cat_type {
        GritCatType::Type => get_object_type(content.as_slice()),
        GritCatType::Pretty => get_object_contents(content.as_slice()),
        GritCatType::Size => get_object_size(content.as_slice()),
    }
}

} // verus!
