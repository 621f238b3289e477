//! Tree and commit objects: serializing the index as a tree, chaining
//! commits with parent, author and timestamp lines, and reading the tree id
//! back out of a stored commit.
use crate::bytes::{
    author_label, author_label_bytes, author_name, author_name_bytes, bytes_starts_with,
    committer_label, committer_label_bytes, date_label, date_label_bytes, parent_label,
    parent_label_bytes, push_all, split_bytes, split_on, tree_kind, tree_kind_bytes, tree_label,
    tree_label_bytes, NL, SP,
};
use crate::bytes::{lemma_split_len, lemma_split_no_sep, lemma_split_token};
use crate::hashing::{deflate_of, get_current_time, is_date_char, is_hex_char};
use crate::index::{
    field_wf, get_index_entries, lemma_split_concat, parse_index, Entry, EntryV,
};
use crate::objects::{
    get_object_contents, oid_of, store_bytes, store_fields, GritCatType, GritObjectType,
};
use crate::objects::lemma_store_round_trip;
use crate::repo::{
    assoc_set, cat_match, find_by_prefix, hash_object, stored, unhash_object, Repo, RepoV,
};
use crate::refs::{branch_of, get_current_branch, get_head_oid, head_oid_of, head_ref_of, update_head};
use vstd::prelude::*;
use vstd::slice::slice_to_vec;

verus! {

/// The view of an optional borrowed byte string.
pub open spec fn opt_bytes_view(p: Option<&[u8]>) -> Option<Seq<u8>> {
    match p {
        Some(v) => Some(v@),
        None => None,
    }
}

/// The body of a commit object: an optional parent line, then tree, author,
/// committer and date lines, a blank line, and the message.
pub open spec fn commit_text(
    tree_oid: Seq<u8>,
    date: Seq<u8>,
    message: Seq<u8>,
    parent: Option<Seq<u8>>,
) -> Seq<u8> {
    let base = tree_label() + tree_oid + seq![NL] + author_label() + author_name() + seq![NL]
        + committer_label() + author_name() + seq![NL] + date_label() + date + seq![NL] + seq![NL]
        + message;
    match parent {
        None => base,
        Some(p) => parent_label() + p + seq![NL] + base,
    }
}

/// Build the body of a commit object.
pub fn format_commit(tree_oid: &[u8], message: &[u8], parent: Option<&[u8]>, date: &[u8]) -> (r:
    Vec<u8>)
    ensures
        r@ == commit_text(tree_oid@, date@, message@, opt_bytes_view(parent)),
{
    let mut r: Vec<u8> = Vec::new();
    match parent {
        Some(p) => {
            let lab = parent_label_bytes();
            push_all(&mut r, lab.as_slice());
            push_all(&mut r, p);
            r.push(NL);
        },
        None => {},
    }
    let lab = tree_label_bytes();
    push_all(&mut r, lab.as_slice());
    push_all(&mut r, tree_oid);
    r.push(NL);
    let lab = author_label_bytes();
    push_all(&mut r, lab.as_slice());
    let name = author_name_bytes();
    push_all(&mut r, name.as_slice());
    r.push(NL);
    let lab = committer_label_bytes();
    push_all(&mut r, lab.as_slice());
    push_all(&mut r, name.as_slice());
    r.push(NL);
    let lab = date_label_bytes();
    push_all(&mut r, lab.as_slice());
    push_all(&mut r, date);
    r.push(NL);
    r.push(NL);
    push_all(&mut r, message);
    proof {
        assert(r@ =~= commit_text(tree_oid@, date@, message@, opt_bytes_view(parent)));
    }
    r
}

/// Whether one `commit_tree` step on `rv` gave `rv2` and the id `oid`, for
/// the date bytes `d` the clock handed out.
pub open spec fn commit_tree_result(
    rv: RepoV,
    tree_oid: Seq<u8>,
    msg: Seq<u8>,
    parent: Option<Seq<u8>>,
    d: Seq<u8>,
    rv2: RepoV,
    oid: Seq<u8>,
) -> bool {
    &&& oid == oid_of(GritObjectType::Commit, commit_text(tree_oid, d, msg, parent))
    &&& rv2 == (RepoV {
        objects: stored(rv.objects, GritObjectType::Commit, commit_text(tree_oid, d, msg, parent)),
        ..rv
    })
    &&& forall|i: int| 0 <= i < d.len() ==> is_date_char(#[trigger] d[i])
}

/// Always succeeds. A timestamp is taken from the clock, so the commit
/// body and its id are pinned only up to the date bytes, which hold no
/// newline and no NUL.
pub fn commit_tree(
    tree_oid: &[u8],
    message: &[u8],
    parent_commit_oid: Option<&[u8]>,
    repo: &mut Repo,
) -> (r: Option<Vec<u8>>)
    ensures
        r is Some,
        r matches Some(v) ==> exists|d: Seq<u8>|
            commit_tree_result(
                old(repo)@,
                tree_oid@,
                message@,
                opt_bytes_view(parent_commit_oid),
                d,
                final(repo)@,
                v@,
            ),
        r matches Some(v) ==> v@.len() == 40 && (forall|i: int|
            0 <= i < v@.len() ==> is_hex_char(#[trigger] v@[i])),
{
    let date = get_current_time();
    let body = format_commit(tree_oid, message, parent_commit_oid, date.as_slice());
    let r = hash_object(body.as_slice(), GritObjectType::Commit, true, repo);
    proof {
        if r is Some {
            let d = date@;
            assert(body@ == commit_text(tree_oid@, d, message@, opt_bytes_view(parent_commit_oid)));
            assert(commit_tree_result(
                old(repo)@,
                tree_oid@,
                message@,
                opt_bytes_view(parent_commit_oid),
                d,
                repo@,
                r->Some_0@,
            ));
        }
    }
    r
}

/// Snapshot the index: persist its raw ledger as a tree object. An empty
/// index is reported and persists nothing; a non-empty one always
/// snapshots.
pub fn write_tree(repo: &mut Repo) -> (r: Option<Vec<u8>>)
    ensures
        old(repo)@.index.len() == 0 ==> r is None && final(repo)@ == old(repo)@,
        old(repo)@.index.len() > 0 ==> (r matches Some(v) && v@ == oid_of(
            GritObjectType::Tree,
            old(repo)@.index,
        ) && final(repo)@ == (RepoV {
            objects: stored(old(repo)@.objects, GritObjectType::Tree, old(repo)@.index),
            ..old(repo)@
        })),
{
    if repo.index.len() == 0 {
        return None;
    }
    let content = slice_to_vec(repo.index.as_slice());
    hash_object(content.as_slice(), GritObjectType::Tree, true, repo)
}

/// The first line of a commit body that begins with the tree kind label.
pub open spec fn first_tree_line(lines: Seq<Seq<u8>>) -> Option<Seq<u8>>
    decreases lines.len(),
{
    if lines.len() == 0 {
        None
    } else if tree_kind().is_prefix_of(lines[0]) {
        Some(lines[0])
    } else {
        first_tree_line(lines.skip(1))
    }
}

/// The tree id a commit body names: the second token of its tree line.
pub open spec fn commit_tree_oid(content: Seq<u8>) -> Option<Seq<u8>> {
    match first_tree_line(split_on(content, NL)) {
        None => None,
        Some(l) => {
            let f = split_on(l, SP);
            if f.len() >= 2 {
                Some(f[1])
            } else {
                None
            }
        },
    }
}

/// The parent id a commit body names: what follows the parent label on its
/// first line, absent when the first line is no parent line.
pub open spec fn commit_parent_of(content: Seq<u8>) -> Option<Seq<u8>> {
    let lines = split_on(content, NL);
    if lines.len() > 0 && parent_label().is_prefix_of(lines[0]) {
        Some(lines[0].skip(parent_label().len() as int))
    } else {
        None
    }
}

/// The fixed label constants hold no newline and no space where it matters.
proof fn lemma_label_shapes()
    ensures
        forall|j: int| 0 <= j < tree_label().len() ==> #[trigger] tree_label()[j] != NL,
        forall|j: int| 0 <= j < parent_label().len() ==> #[trigger] parent_label()[j] != NL,
        forall|j: int| 0 <= j < tree_kind().len() ==> #[trigger] tree_kind()[j] != SP
            && tree_kind()[j] != NL,
{
}

/// Reading the tree id back out of a commit body: the tree line wins over
/// anything later, and hands back exactly the tree id that was written.
pub proof fn lemma_commit_tree_oid(
    tree: Seq<u8>,
    d: Seq<u8>,
    msg: Seq<u8>,
    parent: Option<Seq<u8>>,
)
    requires
        field_wf(tree),
        parent matches Some(p) ==> field_wf(p),
        forall|i: int| 0 <= i < d.len() ==> d[i] != NL,
    ensures
        commit_tree_oid(commit_text(tree, d, msg, parent)) == Some(tree),
{
    lemma_label_shapes();
    let tree_line = tree_label() + tree;
    let rest1 = author_label() + author_name() + seq![NL] + committer_label() + author_name()
        + seq![NL] + date_label() + d + seq![NL] + seq![NL] + msg;
    let base = commit_text(tree, d, msg, None);
    assert(base =~= tree_line + seq![NL] + rest1);
    assert(forall|j: int| 0 <= j < tree_line.len() ==> tree_line[j] != NL);
    lemma_split_concat(tree_line, rest1, NL);
    lemma_split_no_sep(tree_line, NL);
    let base_lines = split_on(base, NL);
    assert(base_lines == seq![tree_line] + split_on(rest1, NL));
    assert(base_lines[0] == tree_line);
    assert(tree_kind().is_prefix_of(tree_line)) by {
        assert(tree_line.subrange(0, 4) =~= tree_kind());
    }
    assert(first_tree_line(base_lines) == Some(tree_line));
    assert(tree_line =~= tree_kind() + seq![SP] + tree);
    lemma_split_token(tree_kind(), tree, SP);
    lemma_split_no_sep(tree, SP);
    let f = split_on(tree_line, SP);
    assert(f == seq![tree_kind()] + seq![tree]);
    assert(f.len() == 2 && f[1] == tree);
    match parent {
        None => {
        },
        Some(p) => {
            let text = commit_text(tree, d, msg, Some(p));
            let line0 = parent_label() + p;
            assert(text =~= line0 + seq![NL] + base);
            assert(forall|j: int| 0 <= j < line0.len() ==> line0[j] != NL);
            lemma_split_concat(line0, base, NL);
            lemma_split_no_sep(line0, NL);
            let lines = split_on(text, NL);
            assert(lines == seq![line0] + base_lines);
            assert(lines[0] == line0);
            assert(!tree_kind().is_prefix_of(line0)) by {
                assert(line0[0] == parent_label()[0]);
                assert(tree_kind()[0] != parent_label()[0]);
            }
            assert(lines.skip(1) =~~= base_lines);
            assert(first_tree_line(lines) == Some(tree_line));
        },
    }
}

/// Commit chaining: a commit body names a parent exactly when one was
/// given, and then names exactly the given one. The first commit of a
/// branch is built without a parent, so its body holds no parent line;
/// every later one names its predecessor.
pub proof fn lemma_commit_chaining(tree: Seq<u8>, d: Seq<u8>, msg: Seq<u8>, p: Seq<u8>)
    requires
        field_wf(tree),
        field_wf(p),
        forall|i: int| 0 <= i < d.len() ==> d[i] != NL,
    ensures
        commit_parent_of(commit_text(tree, d, msg, None)) is None,
        commit_parent_of(commit_text(tree, d, msg, Some(p))) == Some(p),
{
    lemma_label_shapes();
    let tree_line = tree_label() + tree;
    let rest1 = author_label() + author_name() + seq![NL] + committer_label() + author_name()
        + seq![NL] + date_label() + d + seq![NL] + seq![NL] + msg;
    let base = commit_text(tree, d, msg, None);
    assert(base =~= tree_line + seq![NL] + rest1);
    assert(forall|j: int| 0 <= j < tree_line.len() ==> tree_line[j] != NL);
    lemma_split_concat(tree_line, rest1, NL);
    lemma_split_no_sep(tree_line, NL);
    let base_lines = split_on(base, NL);
    assert(base_lines == seq![tree_line] + split_on(rest1, NL));
    assert(base_lines[0] == tree_line);
    assert(!parent_label().is_prefix_of(tree_line)) by {
        assert(tree_line[0] == tree_label()[0]);
        assert(parent_label()[0] != tree_label()[0]);
    }
    let text = commit_text(tree, d, msg, Some(p));
    let line0 = parent_label() + p;
    assert(text =~= line0 + seq![NL] + base);
    assert(forall|j: int| 0 <= j < line0.len() ==> line0[j] != NL);
    lemma_split_concat(line0, base, NL);
    lemma_split_no_sep(line0, NL);
    let lines = split_on(text, NL);
    assert(lines == seq![line0] + base_lines);
    assert(lines[0] == line0);
    assert(parent_label().is_prefix_of(line0)) by {
        assert(line0.subrange(0, parent_label().len() as int) =~= parent_label());
    }
    assert(line0.skip(parent_label().len() as int) =~= p);
    lemma_split_len(rest1, NL);
    assert(lines.len() > 0);
}

/// Extract the tree id named by a commit body.
#[verifier::loop_isolation(false)]
pub fn commit_tree_oid_exec(content: &[u8]) -> (r: Option<Vec<u8>>)
    ensures
        match commit_tree_oid(content@) {
            Some(t) => r matches Some(v) && v@ == t,
            None => r is None,
        },
{
    let lines = split_bytes(content, NL);
    let ghost lines_dv = lines.deep_view();
    let prefix = tree_kind_bytes();
    let mut i: usize = 0;
    proof {
        assert(lines_dv.skip(0) =~~= lines_dv);
    }
    while i < lines.len()
        invariant
            0 <= i <= lines@.len(),
            lines.deep_view() == lines_dv,
            lines_dv == split_on(content@, NL),
            prefix@ == tree_kind(),
            first_tree_line(lines_dv) == first_tree_line(lines_dv.skip(i as int)),
        decreases lines@.len() - i,
    {
        let ghost rest = lines_dv.skip(i as int);
        proof {
            assert(rest[0] == lines_dv[i as int]);
            assert(rest.skip(1) =~~= lines_dv.skip(i as int + 1));
            assert(lines_dv[i as int] == lines@[i as int]@);
        }
        let line = &lines[i];
        if bytes_starts_with(line.as_slice(), prefix.as_slice()) {
            let f = split_bytes(line.as_slice(), SP);
            if f.len() >= 2 {
                proof {
                    assert(f.deep_view()[1] == f@[1]@);
                }
                return Some(slice_to_vec(f[1].as_slice()));
            } else {
                return None;
            }
        }
        i = i + 1;
    }
    proof {
        assert(lines_dv.skip(i as int).len() == 0);
    }
    None
}

/// The entries of the tree named by the commit HEAD points at. An empty
/// commit id means no commits yet and gives the empty listing; any break in
/// the chain (missing or ambiguous object, malformed commit or tree) is a
/// failure.
pub fn get_head_tree_entries(commit_oid: &[u8], repo: &Repo) -> (r: Option<Vec<Entry>>)
    requires
        commit_oid@.len() == 0 || commit_oid@.len() >= 2,
    ensures
        commit_oid@.len() == 0 ==> (r matches Some(es) && es.deep_view()
            == Seq::<EntryV>::empty()),
        forall|ck: GritObjectType, cp: Seq<u8>, tk: GritObjectType, tp: Seq<u8>|
            {
                (commit_oid@.len() >= 2 && #[trigger] cat_match(repo@.objects, commit_oid@, ck, cp)
                    && commit_tree_oid(cp) is Some && commit_tree_oid(cp)->Some_0.len() >= 2
                    && #[trigger] cat_match(repo@.objects, commit_tree_oid(cp)->Some_0, tk, tp))
                    ==> (match parse_index(tp) {
                    Some(es) => r matches Some(v) && v.deep_view() == es,
                    None => r is None,
                })
            },
{
    if commit_oid.len() == 0 {
        let out: Vec<Entry> = Vec::new();
        proof {
            assert(out.deep_view() =~~= Seq::<EntryV>::empty());
        }
        return Some(out);
    }
    let commit_store = match unhash_object(commit_oid, repo) {
        Some(c) => c,
        None => {
            return None;
        },
    };
    let commit_body = match get_object_contents(commit_store.as_slice()) {
        Some(c) => c,
        None => {
            proof {
                assert forall|ck: GritObjectType, cp: Seq<u8>|
                    #[trigger] cat_match(repo@.objects, commit_oid@, ck, cp)
                        implies store_fields(commit_store@) is Some by {
                    lemma_store_round_trip(ck, cp);
                }
            }
            return None;
        },
    };
    let tree_oid = match commit_tree_oid_exec(commit_body.as_slice()) {
        Some(t) => t,
        None => {
            proof {
                assert forall|ck: GritObjectType, cp: Seq<u8>|
                    #[trigger] cat_match(repo@.objects, commit_oid@, ck, cp)
                        implies commit_body@ == cp by {
                    lemma_store_round_trip(ck, cp);
                }
            }
            return None;
        },
    };
    proof {
        assert forall|ck: GritObjectType, cp: Seq<u8>|
            #[trigger] cat_match(repo@.objects, commit_oid@, ck, cp) implies commit_body@ == cp by {
            lemma_store_round_trip(ck, cp);
        }
    }
    if tree_oid.len() < 2 {
        return None;
    }
    let tree_store = match unhash_object(tree_oid.as_slice(), repo) {
        Some(t) => t,
        None => {
            return None;
        },
    };
    let tree_body = match get_object_contents(tree_store.as_slice()) {
        Some(t) => t,
        None => {
            proof {
                assert forall|tk: GritObjectType, tp: Seq<u8>|
                    #[trigger] cat_match(repo@.objects, tree_oid@, tk, tp)
                        implies store_fields(tree_store@) is Some by {
                    lemma_store_round_trip(tk, tp);
                }
            }
            return None;
        },
    };
    proof {
        assert forall|tk: GritObjectType, tp: Seq<u8>|
            #[trigger] cat_match(repo@.objects, tree_oid@, tk, tp) implies tree_body@ == tp by {
            lemma_store_round_trip(tk, tp);
        }
    }
    get_index_entries(tree_body.as_slice())
}

/// One commit report: the branch committed on and the new commit id.
pub struct CommitReport {
    pub branch: Vec<u8>,
    pub oid: Vec<u8>,
}

/// Whether one commit step turned `rv` into `rv2` producing `oid`, for the
/// date bytes `d` the clock gave.
pub open spec fn commit_result(rv: RepoV, msg: Seq<u8>, d: Seq<u8>, rv2: RepoV, oid: Seq<u8>) -> bool {
    let tree_oid = oid_of(GritObjectType::Tree, rv.index);
    let head = head_oid_of(rv)->Some_0;
    let parent = if head.len() > 0 {
        Some(head)
    } else {
        None
    };
    let ctext = commit_text(tree_oid, d, msg, parent);
    &&& forall|i: int| 0 <= i < d.len() ==> is_date_char(#[trigger] d[i])
    &&& oid == oid_of(GritObjectType::Commit, ctext)
    &&& rv2 == (RepoV {
        objects: stored(
            stored(rv.objects, GritObjectType::Tree, rv.index),
            GritObjectType::Commit,
            ctext,
        ),
        refs: assoc_set(rv.refs, head_ref_of(rv.head)->Some_0, oid),
        ..rv
    })
}

/// Snapshot the index as a tree, chain a commit onto the current head, and
/// move the branch ref to it. It fails exactly on an empty index, a
/// malformed HEAD, or a missing ref file; a failing step aborts the whole
/// commit, and the head moves only last, on full success.
pub fn commit(message: &[u8], repo: &mut Repo) -> (r: Option<CommitReport>)
    ensures
        r is None <==> (old(repo)@.index.len() == 0 || head_ref_of(old(repo)@.head) is None
            || head_oid_of(old(repo)@) is None),
        old(repo)@.index.len() == 0 ==> r is None && final(repo)@ == old(repo)@,
        r matches Some(rep) ==> {
            &&& head_ref_of(old(repo)@.head) is Some
            &&& head_oid_of(old(repo)@) is Some
            &&& rep.branch@ == branch_of(head_ref_of(old(repo)@.head)->Some_0)
            &&& rep.oid@.len() == 40
            &&& exists|d: Seq<u8>|
                commit_result(old(repo)@, message@, d, final(repo)@, rep.oid@)
        },
        r is None ==> final(repo)@.head == old(repo)@.head && final(repo)@.index == old(
            repo,
        )@.index && final(repo)@.refs == old(repo)@.refs && (final(repo)@.objects == old(
            repo,
        )@.objects || final(repo)@.objects == stored(
            old(repo)@.objects,
            GritObjectType::Tree,
            old(repo)@.index,
        )),
{
    let tree_oid = match write_tree(repo) {
        Some(t) => t,
        None => {
            return None;
        },
    };
    let ghost rv1 = repo@;
    let head_oid = match get_head_oid(repo) {
        Some(h) => h,
        None => {
            return None;
        },
    };
    let branch = match get_current_branch(repo.head.as_slice()) {
        Some(b) => b,
        None => {
            return None;
        },
    };
    proof {
        assert(rv1.head == old(repo)@.head && rv1.refs == old(repo)@.refs);
        assert(head_oid_of(rv1) == head_oid_of(old(repo)@));
    }
    let ghost parent_v = if head_oid@.len() > 0 {
        Some::<Seq<u8>>(head_oid@)
    } else {
        None::<Seq<u8>>
    };
    let commit_oid = if head_oid.len() > 0 {
        match commit_tree(tree_oid.as_slice(), message, Some(head_oid.as_slice()), repo) {
            Some(c) => c,
            None => {
                return None;
            },
        }
    } else {
        match commit_tree(tree_oid.as_slice(), message, None, repo) {
            Some(c) => c,
            None => {
                return None;
            },
        }
    };
    let ghost rv2 = repo@;
    let ghost d = choose|d: Seq<u8>|
        commit_tree_result(rv1, tree_oid@, message@, parent_v, d, rv2, commit_oid@);
    proof {
        assert(rv2.head == old(repo)@.head);
        assert(head_ref_of(rv2.head) is Some);
    }
    match update_head(commit_oid.as_slice(), repo) {
        Some(_) => {},
        None => {
            return None;
        },
    }
    proof {
        assert(commit_result(old(repo)@, message@, d, repo@, commit_oid@));
        assert(exists|dd: Seq<u8>| commit_result(old(repo)@, message@, dd, repo@, commit_oid@));
        assert(head_ref_of(old(repo)@.head) is Some);
        assert(head_oid_of(old(repo)@) is Some);
        assert(branch@ == branch_of(head_ref_of(old(repo)@.head)->Some_0));
        assert(commit_oid@.len() == 40);
    }
    Some(CommitReport { branch, oid: commit_oid })
}

} // verus!
