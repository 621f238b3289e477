//! Object kinds, the serialized object format `"{kind} {len}\0{payload}"`,
//! its object id, and the parser that splits a serialized object back into
//! kind, size and payload.
use crate::bytes::{
    blob_kind, commit_kind, dec_digits, first_at, lemma_dec_digits_are_digits, lemma_first_at,
    push_all, split_on, tree_kind, usize_to_dec, NUL, SP,
};
use crate::bytes::{blob_kind_bytes, commit_kind_bytes, tree_kind_bytes};
use crate::bytes::{
    mode_executable, mode_executable_bytes, mode_normal, mode_normal_bytes, mode_symlink,
    mode_symlink_bytes,
};
use crate::hashing::{digest_hex, hash_file, hex_of, is_hex_char, lemma_hex_of_chars, sha1_of};
use vstd::prelude::*;

verus! {

/// The kind of a stored object.
#[derive(Clone, Copy, PartialEq, Eq, Structural)]
pub enum GritObjectType {
    Blob,
    Tree,
    Commit,
}

/// Which field of a stored object a `cat` request asks for.
#[derive(Clone, Copy, PartialEq, Eq, Structural)]
pub enum GritCatType {
    Type,
    Pretty,
    Size,
}

/// The file mode recorded for an index entry.
#[derive(Clone, Copy, PartialEq, Eq, Structural)]
pub enum GritMode {
    Normal,
    Executable,
    Symlink,
}

/// The kind label used in headers and ledger lines.
pub open spec fn kind_label(k: GritObjectType) -> Seq<u8> {
    match k {
        GritObjectType::Blob => blob_kind(),
        GritObjectType::Tree => tree_kind(),
        GritObjectType::Commit => commit_kind(),
    }
}

pub fn kind_label_bytes(k: GritObjectType) -> (r: Vec<u8>)
    ensures
        r@ == kind_label(k),
{
    match k {
        GritObjectType::Blob => blob_kind_bytes(),
        GritObjectType::Tree => tree_kind_bytes(),
        GritObjectType::Commit => commit_kind_bytes(),
    }
}

/// The mode digits recorded in a ledger line.
pub open spec fn mode_label(m: GritMode) -> Seq<u8> {
    match m {
        GritMode::Normal => mode_normal(),
        GritMode::Executable => mode_executable(),
        GritMode::Symlink => mode_symlink(),
    }
}

pub fn mode_label_bytes(m: GritMode) -> (r: Vec<u8>)
    ensures
        r@ == mode_label(m),
{
    match m {
        GritMode::Normal => mode_normal_bytes(),
        GritMode::Executable => mode_executable_bytes(),
        GritMode::Symlink => mode_symlink_bytes(),
    }
}

/// The serialized form of an object: header, NUL, payload.
pub open spec fn store_bytes(k: GritObjectType, payload: Seq<u8>) -> Seq<u8> {
    kind_label(k) + seq![SP] + dec_digits(payload.len()) + seq![NUL] + payload
}

/// The object id: lowercase hex SHA-1 of the serialized form.
pub open spec fn oid_of(k: GritObjectType, payload: Seq<u8>) -> Seq<u8> {
    digest_hex(store_bytes(k, payload))
}

/// Build the serialized form of an object.
pub fn build_store(k: GritObjectType, payload: &[u8]) -> (r: Vec<u8>)
    ensures
        r@ == store_bytes(k, payload@),
{
    let mut r = kind_label_bytes(k);
    r.push(SP);
    let dec = usize_to_dec(payload.len());
    push_all(&mut r, dec.as_slice());
    r.push(NUL);
    push_all(&mut r, payload);
    proof {
        assert(r@ =~= store_bytes(k, payload@));
    }
    r
}

/// The object id of a payload of a given kind.
pub fn oid_for(content: &[u8], k: GritObjectType) -> (r: Vec<u8>)
    ensures
        r@ == oid_of(k, content@),
        r@.len() == 40,
        forall|i: int| 0 <= i < r@.len() ==> is_hex_char(#[trigger] r@[i]),
{
    let store = build_store(k, content);
    hash_file(store.as_slice())
}

/// The three raw fields of a serialized object: kind label, size digits,
/// payload (everything past the first NUL).
pub open spec fn store_fields(s: Seq<u8>) -> Option<(Seq<u8>, Seq<u8>, Seq<u8>)> {
    let i = first_at(s, NUL);
    if i < 0 {
        None
    } else {
        let header = s.take(i);
        let payload = s.skip(i + 1);
        let j = first_at(header, SP);
        if j < 0 {
            None
        } else {
            Some((header.take(j), header.skip(j + 1), payload))
        }
    }
}

/// The kind named by a kind label, if any.
pub open spec fn parse_kind(label: Seq<u8>) -> Option<GritObjectType> {
    if label == blob_kind() {
        Some(GritObjectType::Blob)
    } else if label == tree_kind() {
        Some(GritObjectType::Tree)
    } else if label == commit_kind() {
        Some(GritObjectType::Commit)
    } else {
        None
    }
}

/// Parsing the serialized form of an object gives back its kind label, its
/// payload length in decimal, and its exact payload.
pub proof fn lemma_store_round_trip(k: GritObjectType, payload: Seq<u8>)
    ensures
        store_fields(store_bytes(k, payload)) == Some(
            (kind_label(k), dec_digits(payload.len()), payload),
        ),
        parse_kind(kind_label(k)) == Some(k),
{
    let s = store_bytes(k, payload);
    let header = kind_label(k) + seq![SP] + dec_digits(payload.len());
    lemma_dec_digits_are_digits(payload.len());
    assert(forall|j: int| 0 <= j < header.len() ==> header[j] != NUL);
    assert(s =~= header + seq![NUL] + payload);
    lemma_first_at(s, NUL);
    assert(s[header.len() as int] == NUL);
    if first_at(s, NUL) < 0 {
        assert(false);
    }
    let i = first_at(s, NUL);
    assert(i == header.len()) by {
        if i < header.len() {
            assert(s[i] == header[i]);
        }
        if i > header.len() {
            assert(s[header.len() as int] != NUL);
        }
    }
    assert(s.take(i) =~= header);
    assert(s.skip(i + 1) =~= payload);
    lemma_first_at(header, SP);
    assert(header[kind_label(k).len() as int] == SP);
    if first_at(header, SP) < 0 {
        assert(false);
    }
    let j = first_at(header, SP);
    assert(j == kind_label(k).len()) by {
        if j < kind_label(k).len() {
            assert(header[j] == kind_label(k)[j]);
        }
        if j > kind_label(k).len() {
            assert(header[kind_label(k).len() as int] != SP);
        }
    }
    assert(header.take(j) =~= kind_label(k));
    assert(header.skip(j + 1) =~= dec_digits(payload.len()));
    assert(blob_kind() != tree_kind()) by {
        assert(blob_kind()[0] != tree_kind()[0]);
    }
    assert(blob_kind() != commit_kind()) by {
        assert(blob_kind().len() != commit_kind().len());
    }
    assert(tree_kind() != commit_kind()) by {
        assert(tree_kind().len() != commit_kind().len());
    }
}

/// The payload of a serialized object: everything past the first NUL.
pub fn get_object_contents(content: &[u8]) -> (r: Option<Vec<u8>>)
    ensures
        match store_fields(content@) {
            Some(f) => r matches Some(v) && v@ == f.2,
            None => r is None,
        },
{
    let (fields, found) = split_store(content);
    if found {
        let (_, _, payload) = fields;
        Some(payload)
    } else {
        None
    }
}

/// The size field of a serialized object: the decimal digits of the header.
pub fn get_object_size(content: &[u8]) -> (r: Option<Vec<u8>>)
    ensures
        match store_fields(content@) {
            Some(f) => r matches Some(v) && v@ == f.1,
            None => r is None,
        },
{
    let (fields, found) = split_store(content);
    if found {
        let (_, size, _) = fields;
        Some(size)
    } else {
        None
    }
}

/// The kind label of a serialized object.
pub fn get_object_type(content: &[u8]) -> (r: Option<Vec<u8>>)
    ensures
        match store_fields(content@) {
            Some(f) => r matches Some(v) && v@ == f.0,
            None => r is None,
        },
{
    let (fields, found) = split_store(content);
    if found {
        let (label, _, _) = fields;
        Some(label)
    } else {
        None
    }
}

/// Split a serialized object at the first NUL and the header at its first
/// space; `found` says whether both separators are present.
fn split_store(content: &[u8]) -> (r: ((Vec<u8>, Vec<u8>, Vec<u8>), bool))
    ensures
        r.1 <==> store_fields(content@) is Some,
        r.1 ==> store_fields(content@) == Some((r.0.0@, r.0.1@, r.0.2@)),
{
    let mut label: Vec<u8> = Vec::new();
    let mut size: Vec<u8> = Vec::new();
    let mut payload: Vec<u8> = Vec::new();
    let nul_pos = find_byte(content, NUL);
    proof {
        lemma_first_at(content@, NUL);
    }
    match nul_pos {
        None => (((label, size, payload), false)),
        Some(i) => {
            let clen = content.len();
            proof {
                assert((i as int) < content@.len());
            }
            let header = subrange_vec(content, 0, i);
            let pay = subrange_vec(content, i + 1, clen);
            proof {
                assert(header@ == content@.take(first_at(content@, NUL)));
                assert(pay@ == content@.skip(first_at(content@, NUL) + 1));
                lemma_first_at(header@, SP);
            }
            let sp_pos = find_byte(header.as_slice(), SP);
            match sp_pos {
                None => (((label, size, payload), false)),
                Some(j) => {
                    let lab = subrange_vec(header.as_slice(), 0, j);
                    let sz = subrange_vec(header.as_slice(), j + 1, header.len());
                    (((lab, sz, pay), true))
                },
            }
        },
    }
}

/// The position of the first occurrence of `b` in `s`, matching [`first_at`].
pub fn find_byte(s: &[u8], b: u8) -> (r: Option<usize>)
    ensures
        r matches Some(i) ==> first_at(s@, b) == i as int,
        r is None ==> first_at(s@, b) < 0,
{
    proof {
        lemma_first_at(s@, b);
    }
    let mut i: usize = 0;
    while i < s.len()
        invariant
            0 <= i <= s@.len(),
            forall|j: int| 0 <= j < i ==> s@[j] != b,
        decreases s@.len() - i,
    {
        if s[i] == b {
            proof {
                lemma_first_at(s@, b);
                if first_at(s@, b) < 0 {
                    assert(false);
                }
                if first_at(s@, b) < i as int {
                    assert(s@[first_at(s@, b)] != b);
                }
            }
            return Some(i);
        }
        i = i + 1;
    }
    proof {
        lemma_first_at(s@, b);
        if first_at(s@, b) >= 0 {
            assert(s@[first_at(s@, b)] == b);
        }
    }
    None
}

/// A copy of `s[from..to]`.
pub fn subrange_vec(s: &[u8], from: usize, to: usize) -> (r: Vec<u8>)
    requires
        0 <= from <= to <= s@.len(),
    ensures
        r@ == s@.subrange(from as int, to as int),
{
    let mut r: Vec<u8> = Vec::new();
    let mut i: usize = from;
    while i < to
        invariant
            from <= i <= to <= s@.len(),
            r@ == s@.subrange(from as int, i as int),
        decreases to - i,
    {
        r.push(s[i]);
        proof {
            assert(s@.subrange(from as int, i as int + 1) =~= s@.subrange(from as int, i as int)
                .push(s@[i as int]));
        }
        i = i + 1;
    }
    r
}

} // verus!
