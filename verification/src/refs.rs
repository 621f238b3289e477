//! The HEAD pointer and branch refs: HEAD holds `"ref: <path>"`, and the
//! ref file at that path holds the current commit id, or nothing at all
//! before the first commit.
use crate::bytes::{
    bytes_starts_with, refs_heads_prefix, refs_heads_prefix_bytes, split_bytes, split_on, SP,
};
use crate::objects::subrange_vec;
use crate::repo::{assoc_find, assoc_get, assoc_put, assoc_set, Repo, RepoV};
use vstd::prelude::*;
use vstd::slice::slice_to_vec;

verus! {

/// The ref path HEAD names: the second space-separated token of its
/// content, absent when the content is malformed.
pub open spec fn head_ref_of(head: Seq<u8>) -> Option<Seq<u8>> {
    let f = split_on(head, SP);
    if f.len() >= 2 {
        Some(f[1])
    } else {
        None
    }
}

/// A fresh repository's HEAD names the main branch ref, whose name is
/// `main`: the reference chain of [`crate::repo::init`] is coherent.
pub proof fn lemma_head_init_parses()
    ensures
        head_ref_of(crate::bytes::head_init()) == Some(crate::bytes::main_ref_path()),
        branch_of(crate::bytes::main_ref_path()) == seq![109u8, 97, 105, 110],
{
    let label = seq![114u8, 101, 102, 58];
    let tail = crate::bytes::main_ref_path();
    assert(crate::bytes::head_init() =~= label + seq![SP] + tail);
    assert(forall|j: int| 0 <= j < label.len() ==> label[j] != SP);
    crate::index::lemma_split_concat(label, tail, SP);
    crate::bytes::lemma_split_no_sep(label, SP);
    crate::bytes::lemma_split_no_sep(tail, SP);
    let f = split_on(crate::bytes::head_init(), SP);
    assert(f =~~= seq![label, tail]);
    assert(refs_heads_prefix().is_prefix_of(tail)) by {
        assert(refs_heads_prefix() =~= tail.subrange(0, refs_heads_prefix().len() as int));
    }
    assert(tail.skip(refs_heads_prefix().len() as int) =~= seq![109u8, 97, 105, 110]);
}

/// Read the ref path out of HEAD's content.
pub fn get_head_ref(head: &[u8]) -> (r: Option<Vec<u8>>)
    ensures
        match head_ref_of(head@) {
            Some(p) => r matches Some(v) && v@ == p,
            None => r is None,
        },
{
    let f = split_bytes(head, SP);
    if f.len() >= 2 {
        proof {
            assert(f.deep_view()[1] == f@[1]@);
        }
        Some(slice_to_vec(f[1].as_slice()))
    } else {
        None
    }
}

/// The branch name of a ref path: the path with the `refs/heads/` prefix
/// stripped, or the path itself when the prefix is absent.
pub open spec fn branch_of(head_ref: Seq<u8>) -> Seq<u8> {
    if refs_heads_prefix().is_prefix_of(head_ref) {
        head_ref.skip(refs_heads_prefix().len() as int)
    } else {
        head_ref
    }
}

/// The current branch name, from HEAD's content.
pub fn get_current_branch(head: &[u8]) -> (r: Option<Vec<u8>>)
    ensures
        match head_ref_of(head@) {
            Some(p) => r matches Some(v) && v@ == branch_of(p),
            None => r is None,
        },
{
    let head_ref = match get_head_ref(head) {
        Some(p) => p,
        None => {
            return None;
        },
    };
    let prefix = refs_heads_prefix_bytes();
    if bytes_starts_with(head_ref.as_slice(), prefix.as_slice()) {
        let stripped = subrange_vec(head_ref.as_slice(), prefix.len(), head_ref.len());
        proof {
            assert(stripped@ =~= head_ref@.skip(refs_heads_prefix().len() as int));
        }
        Some(stripped)
    } else {
        Some(head_ref)
    }
}

/// The commit id the current branch points at: the content of the ref file
/// HEAD names. Empty content means no commits yet; a missing ref file or a
/// malformed HEAD is a failure.
pub open spec fn head_oid_of(rv: RepoV) -> Option<Seq<u8>> {
    match head_ref_of(rv.head) {
        None => None,
        Some(p) => assoc_find(rv.refs, p),
    }
}

pub fn get_head_oid(repo: &Repo) -> (r: Option<Vec<u8>>)
    ensures
        match head_oid_of(repo@) {
            Some(o) => r matches Some(v) && v@ == o,
            None => r is None,
        },
{
    let head_ref = match get_head_ref(repo.head.as_slice()) {
        Some(p) => p,
        None => {
            return None;
        },
    };
    assoc_get(&repo.refs, head_ref.as_slice())
}

/// Overwrite the ref file HEAD names with a commit id, creating the ref
/// when it is absent. Nothing else of the repository changes.
pub fn update_head(commit_oid: &[u8], repo: &mut Repo) -> (r: Option<()>)
    ensures
        match head_ref_of(old(repo)@.head) {
            None => r is None && final(repo)@ == old(repo)@,
            Some(p) => r is Some && final(repo)@ == (RepoV {
                refs: assoc_set(old(repo)@.refs, p, commit_oid@),
                ..old(repo)@
            }),
        },
{
    let head_ref = match get_head_ref(repo.head.as_slice()) {
        Some(p) => p,
        None => {
            return None;
        },
    };
    assoc_put(&mut repo.refs, head_ref.as_slice(), slice_to_vec(commit_oid));
    Some(())
}

} // verus!
