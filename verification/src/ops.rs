//! The business operations over a repository: the three-way status
//! comparison, staging a batch of files, and unstaging a batch of paths.
//! The working directory is handed in as a listing of (path, content)
//! pairs; reading it is the application's business.
use crate::bytes::{bytes_eq, bytes_le, bytes_le_exec, lemma_bytes_le_total, lemma_bytes_le_trans};
use crate::index::{
    entry_of, entry_position, field_wf, get_index_entries, lookup_path, parse_index, remove_path,
    stage_entries, Entry, EntryV,
};
use crate::objects::{oid_for, oid_of, GritMode, GritObjectType};
use crate::commits::{commit_tree_oid, get_head_tree_entries};
use crate::index::{remove_from_index, update_index};
use crate::repo::hash_object;
use crate::refs::{branch_of, get_current_branch, get_head_oid, head_oid_of, head_ref_of};
use crate::repo::{assoc_find, assoc_get, cat_match, lemma_pair_dv, stored, Repo};
use vstd::prelude::*;
use vstd::slice::slice_to_vec;

verus! {

/// Working-directory paths staged under a different content id.
pub open spec fn wd_modified(work: Seq<(Seq<u8>, Seq<u8>)>, es: Seq<EntryV>) -> Seq<Seq<u8>>
    decreases work.len(),
{
    if work.len() == 0 {
        Seq::<Seq<u8>>::empty()
    } else {
        let rest = wd_modified(work.skip(1), es);
        match lookup_path(es, work[0].0) {
            Some(e) => if e.oid != oid_of(GritObjectType::Blob, work[0].1) {
                seq![work[0].0] + rest
            } else {
                rest
            },
            None => rest,
        }
    }
}

/// Working-directory paths that are not staged at all.
pub open spec fn wd_untracked(work: Seq<(Seq<u8>, Seq<u8>)>, es: Seq<EntryV>) -> Seq<Seq<u8>>
    decreases work.len(),
{
    if work.len() == 0 {
        Seq::<Seq<u8>>::empty()
    } else {
        let rest = wd_untracked(work.skip(1), es);
        if lookup_path(es, work[0].0) is None {
            seq![work[0].0] + rest
        } else {
            rest
        }
    }
}

/// Staged paths that are gone from the working directory.
pub open spec fn wd_deleted(es: Seq<EntryV>, work: Seq<(Seq<u8>, Seq<u8>)>) -> Seq<Seq<u8>>
    decreases es.len(),
{
    if es.len() == 0 {
        Seq::<Seq<u8>>::empty()
    } else {
        let rest = wd_deleted(es.skip(1), work);
        if assoc_find(work, es[0].path) is None {
            seq![es[0].path] + rest
        } else {
            rest
        }
    }
}

/// Staged paths whose id differs from the one in the head tree.
pub open spec fn staged_modified(es: Seq<EntryV>, hes: Seq<EntryV>) -> Seq<Seq<u8>>
    decreases es.len(),
{
    if es.len() == 0 {
        Seq::<Seq<u8>>::empty()
    } else {
        let rest = staged_modified(es.skip(1), hes);
        match lookup_path(hes, es[0].path) {
            Some(h) => if h.oid != es[0].oid {
                seq![es[0].path] + rest
            } else {
                rest
            },
            None => rest,
        }
    }
}

/// Staged paths absent from the head tree.
pub open spec fn staged_new(es: Seq<EntryV>, hes: Seq<EntryV>) -> Seq<Seq<u8>>
    decreases es.len(),
{
    if es.len() == 0 {
        Seq::<Seq<u8>>::empty()
    } else {
        let rest = staged_new(es.skip(1), hes);
        if lookup_path(hes, es[0].path) is None {
            seq![es[0].path] + rest
        } else {
            rest
        }
    }
}

/// Head-tree paths no longer staged.
pub open spec fn staged_deleted(hes: Seq<EntryV>, es: Seq<EntryV>) -> Seq<Seq<u8>>
    decreases hes.len(),
{
    if hes.len() == 0 {
        Seq::<Seq<u8>>::empty()
    } else {
        let rest = staged_deleted(hes.skip(1), es);
        if lookup_path(es, hes[0].path) is None {
            seq![hes[0].path] + rest
        } else {
            rest
        }
    }
}

/// The categorized change sets of one status run.
pub struct StatusReport {
    pub branch: Vec<u8>,
    pub no_commits: bool,
    pub staged_modified: Vec<Vec<u8>>,
    pub staged_new: Vec<Vec<u8>>,
    pub staged_deleted: Vec<Vec<u8>>,
    pub modified: Vec<Vec<u8>>,
    pub deleted: Vec<Vec<u8>>,
    pub untracked: Vec<Vec<u8>>,
}

/// The three-way comparison itself, over the working listing, the staged
/// entries and the head-tree entries. Pure: it writes nothing anywhere.
#[verifier::loop_isolation(false)]
pub fn status_report(
    branch: &[u8],
    no_commits: bool,
    work: &Vec<(Vec<u8>, Vec<u8>)>,
    index_entries: &Vec<Entry>,
    head_entries: &Vec<Entry>,
) -> (r: StatusReport)
    ensures
        r.branch@ == branch@,
        r.no_commits == no_commits,
        r.modified.deep_view() == wd_modified(work.deep_view(), index_entries.deep_view()),
        r.untracked.deep_view() == wd_untracked(work.deep_view(), index_entries.deep_view()),
        r.deleted.deep_view() == wd_deleted(index_entries.deep_view(), work.deep_view()),
        r.staged_modified.deep_view() == staged_modified(
            index_entries.deep_view(),
            head_entries.deep_view(),
        ),
        r.staged_new.deep_view() == staged_new(index_entries.deep_view(), head_entries.deep_view()),
        r.staged_deleted.deep_view() == staged_deleted(
            head_entries.deep_view(),
            index_entries.deep_view(),
        ),
{
    let ghost wv = work.deep_view();
    let ghost ev = index_entries.deep_view();
    let ghost hv = head_entries.deep_view();
    let mut modified: Vec<Vec<u8>> = Vec::new();
    let mut untracked: Vec<Vec<u8>> = Vec::new();
    let mut i: usize = 0;
    proof {
        assert(wv.skip(0) =~~= wv);
    }
    while i < work.len()
        invariant
            0 <= i <= work@.len(),
            wv == work.deep_view(),
            ev == index_entries.deep_view(),
            wd_modified(wv, ev) =~~= modified.deep_view() + wd_modified(wv.skip(i as int), ev),
            wd_untracked(wv, ev) =~~= untracked.deep_view() + wd_untracked(wv.skip(i as int), ev),
        decreases work@.len() - i,
    {
        let ghost rest = wv.skip(i as int);
        proof {
            assert(rest[0] == wv[i as int]);
            assert(rest.skip(1) =~~= wv.skip(i as int + 1));
            lemma_pair_dv(work, i as int);
        }
        let pair = &work[i];
        match entry_position(index_entries, pair.0.as_slice()) {
            Some(p) => {
                let woid = oid_for(pair.1.as_slice(), GritObjectType::Blob);
                let entry = &index_entries[p];
                proof {
                    assert(ev[p as int] == index_entries@[p as int]@);
                }
                if !bytes_eq(woid.as_slice(), entry.oid.as_slice()) {
                    let ghost before = modified.deep_view();
                    modified.push(slice_to_vec(pair.0.as_slice()));
                    proof {
                        assert(modified.deep_view() =~~= before.push(wv[i as int].0));
                        assert(before + (seq![wv[i as int].0] + wd_modified(rest.skip(1), ev))
                            =~~= modified.deep_view() + wd_modified(rest.skip(1), ev));
                    }
                }
            },
            None => {
                let ghost before = untracked.deep_view();
                untracked.push(slice_to_vec(pair.0.as_slice()));
                proof {
                    assert(untracked.deep_view() =~~= before.push(wv[i as int].0));
                    assert(before + (seq![wv[i as int].0] + wd_untracked(rest.skip(1), ev))
                        =~~= untracked.deep_view() + wd_untracked(rest.skip(1), ev));
                }
            },
        }
        i = i + 1;
    }
    proof {
        assert(wv.skip(i as int) =~~= Seq::<(Seq<u8>, Seq<u8>)>::empty());
        assert(modified.deep_view() + wd_modified(wv.skip(i as int), ev) =~~= modified.deep_view());
        assert(untracked.deep_view() + wd_untracked(wv.skip(i as int), ev)
            =~~= untracked.deep_view());
    }
    let mut deleted: Vec<Vec<u8>> = Vec::new();
    let mut s_modified: Vec<Vec<u8>> = Vec::new();
    let mut s_new: Vec<Vec<u8>> = Vec::new();
    let mut j: usize = 0;
    proof {
        assert(ev.skip(0) =~~= ev);
    }
    while j < index_entries.len()
        invariant
            0 <= j <= index_entries@.len(),
            wv == work.deep_view(),
            ev == index_entries.deep_view(),
            hv == head_entries.deep_view(),
            wd_deleted(ev, wv) =~~= deleted.deep_view() + wd_deleted(ev.skip(j as int), wv),
            staged_modified(ev, hv) =~~= s_modified.deep_view() + staged_modified(
                ev.skip(j as int),
                hv,
            ),
            staged_new(ev, hv) =~~= s_new.deep_view() + staged_new(ev.skip(j as int), hv),
        decreases index_entries@.len() - j,
    {
        let ghost rest = ev.skip(j as int);
        proof {
            assert(rest[0] == ev[j as int]);
            assert(rest.skip(1) =~~= ev.skip(j as int + 1));
            assert(ev[j as int] == index_entries@[j as int]@);
        }
        let entry = &index_entries[j];
        let in_work = assoc_get(work, entry.path.as_slice());
        if in_work.is_none() {
            let ghost before = deleted.deep_view();
            deleted.push(slice_to_vec(entry.path.as_slice()));
            proof {
                assert(deleted.deep_view() =~~= before.push(ev[j as int].path));
                assert(before + (seq![ev[j as int].path] + wd_deleted(rest.skip(1), wv))
                    =~~= deleted.deep_view() + wd_deleted(rest.skip(1), wv));
            }
        }
        match entry_position(head_entries, entry.path.as_slice()) {
            Some(hp) => {
                let hentry = &head_entries[hp];
                proof {
                    assert(hv[hp as int] == head_entries@[hp as int]@);
                }
                if !bytes_eq(hentry.oid.as_slice(), entry.oid.as_slice()) {
                    let ghost before = s_modified.deep_view();
                    s_modified.push(slice_to_vec(entry.path.as_slice()));
                    proof {
                        assert(s_modified.deep_view() =~~= before.push(ev[j as int].path));
                        assert(before + (seq![ev[j as int].path] + staged_modified(
                            rest.skip(1),
                            hv,
                        )) =~~= s_modified.deep_view() + staged_modified(rest.skip(1), hv));
                    }
                }
            },
            None => {
                let ghost before = s_new.deep_view();
                s_new.push(slice_to_vec(entry.path.as_slice()));
                proof {
                    assert(s_new.deep_view() =~~= before.push(ev[j as int].path));
                    assert(before + (seq![ev[j as int].path] + staged_new(rest.skip(1), hv))
                        =~~= s_new.deep_view() + staged_new(rest.skip(1), hv));
                }
            },
        }
        j = j + 1;
    }
    proof {
        assert(ev.skip(j as int) =~~= Seq::<EntryV>::empty());
        assert(deleted.deep_view() + wd_deleted(ev.skip(j as int), wv) =~~= deleted.deep_view());
        assert(s_modified.deep_view() + staged_modified(ev.skip(j as int), hv)
            =~~= s_modified.deep_view());
        assert(s_new.deep_view() + staged_new(ev.skip(j as int), hv) =~~= s_new.deep_view());
    }
    let mut s_deleted: Vec<Vec<u8>> = Vec::new();
    let mut k: usize = 0;
    proof {
        assert(hv.skip(0) =~~= hv);
    }
    while k < head_entries.len()
        invariant
            0 <= k <= head_entries@.len(),
            ev == index_entries.deep_view(),
            hv == head_entries.deep_view(),
            staged_deleted(hv, ev) =~~= s_deleted.deep_view() + staged_deleted(
                hv.skip(k as int),
                ev,
            ),
        decreases head_entries@.len() - k,
    {
        let ghost rest = hv.skip(k as int);
        proof {
            assert(rest[0] == hv[k as int]);
            assert(rest.skip(1) =~~= hv.skip(k as int + 1));
            assert(hv[k as int] == head_entries@[k as int]@);
        }
        let hentry = &head_entries[k];
        let pos = entry_position(index_entries, hentry.path.as_slice());
        if pos.is_none() {
            let ghost before = s_deleted.deep_view();
            s_deleted.push(slice_to_vec(hentry.path.as_slice()));
            proof {
                assert(s_deleted.deep_view() =~~= before.push(hv[k as int].path));
                assert(before + (seq![hv[k as int].path] + staged_deleted(rest.skip(1), ev))
                    =~~= s_deleted.deep_view() + staged_deleted(rest.skip(1), ev));
            }
        }
        k = k + 1;
    }
    proof {
        assert(hv.skip(k as int) =~~= Seq::<EntryV>::empty());
        assert(s_deleted.deep_view() + staged_deleted(hv.skip(k as int), ev)
            =~~= s_deleted.deep_view());
    }
    StatusReport {
        branch: slice_to_vec(branch),
        no_commits,
        staged_modified: s_modified,
        staged_new: s_new,
        staged_deleted: s_deleted,
        modified,
        deleted,
        untracked,
    }
}

/// The three-way status of a repository against a working listing. Nothing
/// is mutated. Fails on a malformed HEAD, an unreadable ledger, a missing
/// ref, or a break in the head commit chain; an empty head commit id means
/// no commits yet and compares against the empty tree.
pub fn status(work: &Vec<(Vec<u8>, Vec<u8>)>, repo: &Repo) -> (r: Option<StatusReport>)
    ensures
        head_ref_of(repo@.head) is None ==> r is None,
        head_oid_of(repo@) is None ==> r is None,
        parse_index(repo@.index) is None ==> r is None,
        (head_oid_of(repo@) matches Some(o) && o.len() == 0 && parse_index(repo@.index) is Some)
            ==> r is Some,
        r matches Some(rep) ==> {
            &&& head_ref_of(repo@.head) is Some
            &&& head_oid_of(repo@) is Some
            &&& parse_index(repo@.index) is Some
            &&& rep.branch@ == branch_of(head_ref_of(repo@.head)->Some_0)
            &&& rep.no_commits == (head_oid_of(repo@)->Some_0.len() == 0)
            &&& rep.modified.deep_view() == wd_modified(
                work.deep_view(),
                parse_index(repo@.index)->Some_0,
            )
            &&& rep.untracked.deep_view() == wd_untracked(
                work.deep_view(),
                parse_index(repo@.index)->Some_0,
            )
            &&& rep.deleted.deep_view() == wd_deleted(
                parse_index(repo@.index)->Some_0,
                work.deep_view(),
            )
        },
        r matches Some(rep) ==> (head_oid_of(repo@)->Some_0.len() == 0 ==> {
            let es = parse_index(repo@.index)->Some_0;
            &&& rep.staged_modified.deep_view() == staged_modified(es, Seq::<EntryV>::empty())
            &&& rep.staged_new.deep_view() == staged_new(es, Seq::<EntryV>::empty())
            &&& rep.staged_deleted.deep_view() == staged_deleted(Seq::<EntryV>::empty(), es)
        }),
        forall|ck: GritObjectType, cp: Seq<u8>, tk: GritObjectType, tp: Seq<u8>|
            {
                (head_oid_of(repo@) is Some && head_oid_of(repo@)->Some_0.len() >= 2 && parse_index(
                    repo@.index,
                ) is Some && #[trigger] cat_match(
                    repo@.objects,
                    head_oid_of(repo@)->Some_0,
                    ck,
                    cp,
                ) && commit_tree_oid(cp)
                    is Some && commit_tree_oid(cp)->Some_0.len() >= 2 && #[trigger] cat_match(
                    repo@.objects,
                    commit_tree_oid(cp)->Some_0,
                    tk,
                    tp,
                )) ==> (match parse_index(tp) {
                    Some(hes) => r matches Some(rep) && {
                        let es = parse_index(repo@.index)->Some_0;
                        &&& rep.staged_modified.deep_view() == staged_modified(es, hes)
                        &&& rep.staged_new.deep_view() == staged_new(es, hes)
                        &&& rep.staged_deleted.deep_view() == staged_deleted(hes, es)
                    },
                    None => r is None,
                })
            },
{
    let branch = match get_current_branch(repo.head.as_slice()) {
        Some(b) => b,
        None => {
            return None;
        },
    };
    let index_entries = match get_index_entries(repo.index.as_slice()) {
        Some(es) => es,
        None => {
            return None;
        },
    };
    let head_oid = match get_head_oid(repo) {
        Some(h) => h,
        None => {
            return None;
        },
    };
    if head_oid.len() == 1 {
        return None;
    }
    let head_entries = match get_head_tree_entries(head_oid.as_slice(), repo) {
        Some(hes) => hes,
        None => {
            return None;
        },
    };
    let no_commits = head_oid.len() == 0;
    Some(status_report(branch.as_slice(), no_commits, work, &index_entries, &head_entries))
}

/// The paths a batch removal reports.
pub struct RmReport {
    pub removed: Vec<Vec<u8>>,
}

/// The given names with every `"."` sentinel dropped.
pub open spec fn minus_dot(given: Seq<Seq<u8>>) -> Seq<Seq<u8>>
    decreases given.len(),
{
    if given.len() == 0 {
        Seq::<Seq<u8>>::empty()
    } else if given[0] == seq![46u8] {
        minus_dot(given.skip(1))
    } else {
        seq![given[0]] + minus_dot(given.skip(1))
    }
}

/// The staged paths, in ledger order.
pub open spec fn entry_paths(es: Seq<EntryV>) -> Seq<Seq<u8>> {
    Seq::new(es.len(), |i: int| es[i].path)
}

/// The paths one `rm` call works over: the given ones, or — when the first
/// is the `"."` sentinel — the given ones minus the sentinel plus every
/// staged path.
pub open spec fn rm_names(given: Seq<Seq<u8>>, es: Seq<EntryV>) -> Seq<Seq<u8>>
    recommends
        given.len() > 0,
{
    if given[0] == seq![46u8] {
        minus_dot(given) + entry_paths(es)
    } else {
        given
    }
}

/// The entries left after unstaging a list of paths, one by one.
pub open spec fn remove_all(es: Seq<EntryV>, names: Seq<Seq<u8>>) -> Seq<EntryV>
    decreases names.len(),
{
    if names.len() == 0 {
        es
    } else {
        remove_all(remove_path(es, names[0]), names.skip(1))
    }
}

pub proof fn lemma_remove_all_snoc(es: Seq<EntryV>, names: Seq<Seq<u8>>, n: Seq<u8>)
    ensures
        remove_all(es, names.push(n)) == remove_path(remove_all(es, names), n),
    decreases names.len(),
{
    let s = names.push(n);
    if names.len() == 0 {
        assert(s[0] == n);
        assert(s.skip(1) =~~= Seq::<Seq<u8>>::empty());
        assert(remove_all(remove_path(es, n), s.skip(1)) == remove_path(es, n));
        assert(remove_all(es, names) == es);
    } else {
        assert(s[0] == names[0]);
        assert(s.skip(1) =~~= names.skip(1).push(n));
        lemma_remove_all_snoc(remove_path(es, names[0]), names.skip(1), n);
        assert(remove_all(es, s) == remove_all(remove_path(es, names[0]), names.skip(1).push(n)));
        assert(remove_all(es, names) == remove_all(remove_path(es, names[0]), names.skip(1)));
    }
}

/// Unstage a batch of paths. Only the index changes: the store and the
/// refs are never touched. It fails exactly when the ledger cannot be
/// read; a path that is not staged is filtered out without effect.
#[verifier::loop_isolation(false)]
pub fn rm(filenames: Vec<Vec<u8>>, repo: &mut Repo) -> (r: Option<RmReport>)
    requires
        filenames@.len() > 0,
    ensures
        final(repo)@.head == old(repo)@.head,
        final(repo)@.refs == old(repo)@.refs,
        final(repo)@.objects == old(repo)@.objects,
        r is Some <==> parse_index(old(repo)@.index) is Some,
        parse_index(old(repo)@.index) is None ==> final(repo)@.index == old(repo)@.index,
        r matches Some(rep) ==> {
            let es = parse_index(old(repo)@.index)->Some_0;
            let names = rm_names(filenames.deep_view(), es);
            &&& parse_index(final(repo)@.index) == Some(remove_all(es, names))
            &&& rep.removed.deep_view() == names
        },
{
    let ghost given = filenames.deep_view();
    let entries = match get_index_entries(repo.index.as_slice()) {
        Some(es) => es,
        None => {
            return None;
        },
    };
    let ghost es0 = entries.deep_view();
    let mut dot: Vec<u8> = Vec::new();
    dot.push(46);
    proof {
        assert(dot@ =~= seq![46u8]);
        assert(given[0] == filenames@[0]@);
    }
    let names: Vec<Vec<u8>> = if bytes_eq(filenames[0].as_slice(), dot.as_slice()) {
        let mut out: Vec<Vec<u8>> = Vec::new();
        let mut i: usize = 0;
        proof {
            assert(given.skip(0) =~~= given);
            assert(out.deep_view() =~~= Seq::<Seq<u8>>::empty());
        }
        while i < filenames.len()
            invariant
                0 <= i <= filenames@.len(),
                given == filenames.deep_view(),
                dot@ == seq![46u8],
                minus_dot(given) =~~= out.deep_view() + minus_dot(given.skip(i as int)),
            decreases filenames@.len() - i,
        {
            let ghost rest = given.skip(i as int);
            proof {
                assert(rest[0] == given[i as int]);
                assert(rest.skip(1) =~~= given.skip(i as int + 1));
                assert(given[i as int] == filenames@[i as int]@);
            }
            let f = &filenames[i];
            if !bytes_eq(f.as_slice(), dot.as_slice()) {
                let ghost before = out.deep_view();
                out.push(slice_to_vec(f.as_slice()));
                proof {
                    assert(out.deep_view() =~~= before.push(given[i as int]));
                    assert(before + (seq![given[i as int]] + minus_dot(rest.skip(1)))
                        =~~= out.deep_view() + minus_dot(rest.skip(1)));
                }
            }
            i = i + 1;
        }
        proof {
            assert(given.skip(i as int) =~~= Seq::<Seq<u8>>::empty());
            assert(out.deep_view() + minus_dot(given.skip(i as int)) =~~= out.deep_view());
        }
        let mut j: usize = 0;
        while j < entries.len()
            invariant
                0 <= j <= entries@.len(),
                es0 == entries.deep_view(),
                out.deep_view() == minus_dot(given) + entry_paths(es0).take(j as int),
            decreases entries@.len() - j,
        {
            proof {
                assert(es0[j as int] == entries@[j as int]@);
            }
            let e = &entries[j];
            let ghost before = out.deep_view();
            out.push(slice_to_vec(e.path.as_slice()));
            proof {
                assert(out.deep_view() =~~= before.push(es0[j as int].path));
                assert(entry_paths(es0).take(j as int + 1) =~~= entry_paths(es0).take(
                    j as int,
                ).push(es0[j as int].path));
                assert(minus_dot(given) + entry_paths(es0).take(j as int + 1) =~~= (minus_dot(
                    given,
                ) + entry_paths(es0).take(j as int)).push(es0[j as int].path));
            }
            j = j + 1;
        }
        proof {
            assert(entry_paths(es0).take(j as int) =~~= entry_paths(es0));
            assert(out.deep_view() == minus_dot(given) + entry_paths(es0));
        }
        out
    } else {
        filenames
    };
    let ghost names_dv = names.deep_view();
    proof {
        assert(names_dv == rm_names(given, es0));
    }
    let mut i: usize = 0;
    proof {
        assert(names_dv.take(0) =~~= Seq::<Seq<u8>>::empty());
    }
    while i < names.len()
        invariant
            0 <= i <= names@.len(),
            names_dv == names.deep_view(),
            parse_index(repo@.index) == Some(remove_all(es0, names_dv.take(i as int))),
            repo@.head == old(repo)@.head,
            repo@.refs == old(repo)@.refs,
            repo@.objects == old(repo)@.objects,
        decreases names@.len() - i,
    {
        proof {
            assert(names_dv[i as int] == names@[i as int]@);
            assert(names_dv.take(i as int + 1) =~~= names_dv.take(i as int).push(
                names_dv[i as int],
            ));
            lemma_remove_all_snoc(es0, names_dv.take(i as int), names_dv[i as int]);
        }
        let name = &names[i];
        match remove_from_index(name.as_slice(), &mut repo.index) {
            Some(_) => {},
            None => {
                proof {
                    assert(false);
                }
                return None;
            },
        }
        i = i + 1;
    }
    proof {
        assert(names_dv.take(i as int) =~~= names_dv);
    }
    Some(RmReport { removed: names })
}

/// After everything is unstaged, every head-tree path is a staged
/// deletion: status against an empty index lists exactly the head-tree
/// paths, in their order.
pub proof fn lemma_staged_deleted_all(hes: Seq<EntryV>)
    ensures
        staged_deleted(hes, Seq::<EntryV>::empty()) == entry_paths(hes),
    decreases hes.len(),
{
    if hes.len() == 0 {
        assert(staged_deleted(hes, Seq::<EntryV>::empty()) =~~= entry_paths(hes));
    } else {
        lemma_staged_deleted_all(hes.skip(1));
        assert(entry_paths(hes.skip(1)) =~~= entry_paths(hes).skip(1));
        assert(staged_deleted(hes, Seq::<EntryV>::empty()) =~~= seq![hes[0].path] + entry_paths(
            hes,
        ).skip(1));
        assert(seq![hes[0].path] + entry_paths(hes).skip(1) =~~= entry_paths(hes));
    }
}

/// Strict lexicographic order on byte strings.
pub open spec fn bytes_lt(a: Seq<u8>, b: Seq<u8>) -> bool {
    bytes_le(a, b) && a != b
}

/// Strictly sorted: sorted with no duplicates.
pub open spec fn names_sorted(s: Seq<Seq<u8>>) -> bool {
    forall|i: int, j: int| 0 <= i < j < s.len() ==> bytes_lt(#[trigger] s[i], #[trigger] s[j])
}

/// The position of the first element not below `name`.
#[verifier::loop_isolation(false)]
fn lower_bound(out: &Vec<Vec<u8>>, name: &[u8]) -> (r: usize)
    ensures
        r <= out@.len(),
        forall|j: int| 0 <= j < r ==> bytes_lt(#[trigger] out.deep_view()[j], name@),
        (r as int) < out@.len() ==> bytes_le(name@, out.deep_view()[r as int]),
{
    let mut i: usize = 0;
    while i < out.len()
        invariant
            0 <= i <= out@.len(),
            forall|j: int| 0 <= j < i ==> bytes_lt(#[trigger] out.deep_view()[j], name@),
        decreases out@.len() - i,
    {
        proof {
            assert(out.deep_view()[i as int] == out@[i as int]@);
        }
        if bytes_le_exec(name, out[i].as_slice()) {
            return i;
        }
        proof {
            lemma_bytes_le_total(name@, out@[i as int]@);
        }
        i = i + 1;
    }
    i
}

/// Insert a name into a strictly sorted list, keeping it strictly sorted;
/// a name already present is dropped.
#[verifier::loop_isolation(false)]
fn insert_sorted(out: &mut Vec<Vec<u8>>, name: Vec<u8>)
    requires
        names_sorted(old(out).deep_view()),
    ensures
        names_sorted(final(out).deep_view()),
        forall|x: Seq<u8>| #[trigger] final(out).deep_view().contains(x) <==> (old(
            out,
        ).deep_view().contains(x) || x == name@),
{
    let ghost dv = out.deep_view();
    let pos = lower_bound(out, name.as_slice());
    if pos < out.len() {
        proof {
            assert(out.deep_view()[pos as int] == out@[pos as int]@);
        }
        if bytes_eq(out[pos].as_slice(), name.as_slice()) {
            proof {
                assert(dv[pos as int] == name@);
                assert(dv.contains(name@));
            }
            return ;
        }
    }
    let ghost nm = name@;
    out.insert(pos, name);
    proof {
        let dv2 = out.deep_view();
        assert forall|j: int| 0 <= j < dv2.len() implies dv2[j] == (if j < pos as int {
            dv[j]
        } else if j == pos as int {
            nm
        } else {
            dv[j - 1]
        }) by {
            assert(dv2[j] == out@[j]@);
            if j < pos as int {
                assert(out@[j] == old(out)@[j]);
            } else if j > pos as int {
                assert(out@[j] == old(out)@[j - 1]);
            }
        }
        assert(dv2.len() == dv.len() + 1);
        if pos < dv.len() {
            assert(bytes_le(nm, dv[pos as int]) && nm != dv[pos as int]);
        }
        assert forall|a: int, b: int| 0 <= a < b < dv2.len() implies bytes_lt(
            #[trigger] dv2[a],
            #[trigger] dv2[b],
        ) by {
            if a < pos as int && b < pos as int {
            } else if a < pos as int && b == pos as int {
                assert(bytes_lt(dv[a], nm));
            } else if a < pos as int {
                assert(bytes_lt(dv[a], dv[b - 1]));
            } else if a == pos as int {
                assert(bytes_lt(nm, dv[pos as int]));
                if b - 1 > pos as int {
                    assert(bytes_lt(dv[pos as int], dv[b - 1]));
                    lemma_bytes_le_trans(nm, dv[pos as int], dv[b - 1]);
                    if nm == dv[b - 1] {
                        lemma_bytes_le_total(nm, dv[pos as int]);
                    }
                }
            } else {
                assert(bytes_lt(dv[a - 1], dv[b - 1]));
            }
        }
        assert forall|x: Seq<u8>| #[trigger] dv2.contains(x) <==> (dv.contains(x) || x == nm) by {
            if dv2.contains(x) {
                let j = choose|j: int| 0 <= j < dv2.len() && dv2[j] == x;
                if j < pos as int {
                    assert(dv[j] == x);
                } else if j > pos as int {
                    assert(dv[j - 1] == x);
                }
            }
            if dv.contains(x) {
                let j = choose|j: int| 0 <= j < dv.len() && dv[j] == x;
                if j < pos as int {
                    assert(dv2[j] == x);
                } else {
                    assert(dv2[j + 1] == x);
                }
            }
            if x == nm {
                assert(dv2[pos as int] == x);
            }
        }
    }
}

/// One batch staging report: the (id, path) pairs newly staged.
pub struct AddReport {
    pub added: Vec<(Vec<u8>, Vec<u8>)>,
}

/// The changing state of one `add` run: the object store, the staged
/// entries, and the pairs reported so far.
pub struct AddStV {
    pub objects: Seq<(Seq<u8>, Seq<u8>)>,
    pub entries: Seq<EntryV>,
    pub added: Seq<(Seq<u8>, Seq<u8>)>,
}

/// One file of an `add` batch. An unreadable file (absent from the working
/// listing) only drops its stale index entry. A file whose snapshot entry
/// already carries the id of its content is skipped. Anything else is
/// persisted as a blob and staged.
pub open spec fn add_step(
    st: AddStV,
    snap: Seq<EntryV>,
    work: Seq<(Seq<u8>, Seq<u8>)>,
    name: Seq<u8>,
) -> AddStV {
    match assoc_find(work, name) {
        None => AddStV { entries: remove_path(st.entries, name), ..st },
        Some(c) => {
            let o = oid_of(GritObjectType::Blob, c);
            if lookup_path(snap, name) matches Some(e) && e.oid == o {
                st
            } else {
                AddStV {
                    objects: stored(st.objects, GritObjectType::Blob, c),
                    entries: stage_entries(
                        st.entries,
                        entry_of(GritMode::Normal, GritObjectType::Blob, o, name),
                    ),
                    added: st.added.push((o, name)),
                }
            }
        },
    }
}

pub open spec fn add_fold(
    st: AddStV,
    snap: Seq<EntryV>,
    work: Seq<(Seq<u8>, Seq<u8>)>,
    names: Seq<Seq<u8>>,
) -> AddStV
    decreases names.len(),
{
    if names.len() == 0 {
        st
    } else {
        add_fold(add_step(st, snap, work, names[0]), snap, work, names.skip(1))
    }
}

pub proof fn lemma_add_fold_snoc(
    st: AddStV,
    snap: Seq<EntryV>,
    work: Seq<(Seq<u8>, Seq<u8>)>,
    names: Seq<Seq<u8>>,
    n: Seq<u8>,
)
    ensures
        add_fold(st, snap, work, names.push(n)) == add_step(
            add_fold(st, snap, work, names),
            snap,
            work,
            n,
        ),
    decreases names.len(),
{
    let s = names.push(n);
    if names.len() == 0 {
        assert(s[0] == n);
        assert(s.skip(1) =~~= Seq::<Seq<u8>>::empty());
        assert(add_fold(add_step(st, snap, work, n), snap, work, s.skip(1)) == add_step(
            st,
            snap,
            work,
            n,
        ));
        assert(add_fold(st, snap, work, names) == st);
    } else {
        assert(s[0] == names[0]);
        assert(s.skip(1) =~~= names.skip(1).push(n));
        lemma_add_fold_snoc(add_step(st, snap, work, names[0]), snap, work, names.skip(1), n);
        assert(add_fold(st, snap, work, s) == add_fold(
            add_step(st, snap, work, names[0]),
            snap,
            work,
            names.skip(1).push(n),
        ));
        assert(add_fold(st, snap, work, names) == add_fold(
            add_step(st, snap, work, names[0]),
            snap,
            work,
            names.skip(1),
        ));
    }
}

/// Idempotent add: staging a file whose snapshot entry already carries the
/// id of its current content writes nothing, stages nothing, and reports
/// nothing added.
pub proof fn lemma_add_unchanged_noop(
    st: AddStV,
    snap: Seq<EntryV>,
    work: Seq<(Seq<u8>, Seq<u8>)>,
    name: Seq<u8>,
)
    requires
        assoc_find(work, name) is Some,
        lookup_path(snap, name) matches Some(e) && e.oid == oid_of(
            GritObjectType::Blob,
            assoc_find(work, name)->Some_0,
        ),
    ensures
        add_step(st, snap, work, name) == st,
{
}

/// The names one `add` call works over: the given ones, or — when the
/// first is the `"."` sentinel — every staged path and every
/// working-directory path, deduplicated and sorted.
pub open spec fn add_names_ok(
    names: Seq<Seq<u8>>,
    given: Seq<Seq<u8>>,
    es: Seq<EntryV>,
    work: Seq<(Seq<u8>, Seq<u8>)>,
) -> bool
    recommends
        given.len() > 0,
{
    if given[0] == seq![46u8] {
        &&& names_sorted(names)
        &&& forall|x: Seq<u8>| #[trigger] names.contains(x) <==> ((exists|i: int|
            0 <= i < es.len() && (#[trigger] es[i]).path == x) || (exists|i: int|
            0 <= i < work.len() && (#[trigger] work[i]).0 == x))
    } else {
        names == given
    }
}

/// Stage a batch of files from the working listing: hash each one, skip it
/// when its snapshot entry already carries that id, drop the entry of an
/// unreadable one, and persist and stage the rest. The head and the refs
/// never change.
#[verifier::loop_isolation(false)]
pub fn add(filenames: Vec<Vec<u8>>, work: &Vec<(Vec<u8>, Vec<u8>)>, repo: &mut Repo) -> (r: Option<
    AddReport,
>)
    requires
        filenames@.len() > 0,
        forall|i: int| 0 <= i < filenames@.len() ==> field_wf(#[trigger] filenames.deep_view()[i]),
        forall|i: int| 0 <= i < work@.len() ==> field_wf((#[trigger] work.deep_view()[i]).0),
    ensures
        final(repo)@.head == old(repo)@.head,
        final(repo)@.refs == old(repo)@.refs,
        r is Some <==> parse_index(old(repo)@.index) is Some,
        parse_index(old(repo)@.index) is None ==> final(repo)@ == old(repo)@,
        r matches Some(rep) ==> exists|names: Seq<Seq<u8>>|
            {
                &&& #[trigger] add_names_ok(
                    names,
                    filenames.deep_view(),
                    parse_index(old(repo)@.index)->Some_0,
                    work.deep_view(),
                )
                &&& final(repo)@.objects == add_fold(
                    AddStV {
                        objects: old(repo)@.objects,
                        entries: parse_index(old(repo)@.index)->Some_0,
                        added: Seq::<(Seq<u8>, Seq<u8>)>::empty(),
                    },
                    parse_index(old(repo)@.index)->Some_0,
                    work.deep_view(),
                    names,
                ).objects
                &&& parse_index(final(repo)@.index) == Some(
                    add_fold(
                        AddStV {
                            objects: old(repo)@.objects,
                            entries: parse_index(old(repo)@.index)->Some_0,
                            added: Seq::<(Seq<u8>, Seq<u8>)>::empty(),
                        },
                        parse_index(old(repo)@.index)->Some_0,
                        work.deep_view(),
                        names,
                    ).entries,
                )
                &&& rep.added.deep_view() == add_fold(
                    AddStV {
                        objects: old(repo)@.objects,
                        entries: parse_index(old(repo)@.index)->Some_0,
                        added: Seq::<(Seq<u8>, Seq<u8>)>::empty(),
                    },
                    parse_index(old(repo)@.index)->Some_0,
                    work.deep_view(),
                    names,
                ).added
            },
{
    let ghost given = filenames.deep_view();
    let ghost wv = work.deep_view();
    let entries = match get_index_entries(repo.index.as_slice()) {
        Some(es) => es,
        None => {
            return None;
        },
    };
    let ghost es0 = entries.deep_view();
    proof {
        assert(es0 == parse_index(old(repo)@.index)->Some_0);
        crate::index::lemma_parse_index_wf(old(repo)@.index);
    }
    let mut dot: Vec<u8> = Vec::new();
    dot.push(46);
    proof {
        assert(dot@ =~= seq![46u8]);
        assert(given[0] == filenames@[0]@);
    }
    let is_dot = bytes_eq(filenames[0].as_slice(), dot.as_slice());
    let names: Vec<Vec<u8>> = if is_dot {
        let mut out: Vec<Vec<u8>> = Vec::new();
        let mut i: usize = 0;
        proof {
            assert(names_sorted(out.deep_view()));
            assert(forall|x: Seq<u8>| !(#[trigger] out.deep_view().contains(x)));
        }
        while i < entries.len()
            invariant
                0 <= i <= entries@.len(),
                es0 == entries.deep_view(),
                names_sorted(out.deep_view()),
                forall|x: Seq<u8>| #[trigger] out.deep_view().contains(x) <==> exists|t: int|
                    0 <= t < i && (#[trigger] es0[t]).path == x,
                forall|x: Seq<u8>| #[trigger] out.deep_view().contains(x) ==> field_wf(x),
            decreases entries@.len() - i,
        {
            proof {
                assert(es0[i as int] == entries@[i as int]@);
                assert(crate::index::entry_wf(es0[i as int]));
            }
            let e = &entries[i];
            insert_sorted(&mut out, slice_to_vec(e.path.as_slice()));
            i = i + 1;
        }
        let mut j: usize = 0;
        while j < work.len()
            invariant
                0 <= j <= work@.len(),
                wv == work.deep_view(),
                es0 == entries.deep_view(),
                names_sorted(out.deep_view()),
                forall|x: Seq<u8>| #[trigger] out.deep_view().contains(x) <==> ((exists|t: int|
                    0 <= t < es0.len() && (#[trigger] es0[t]).path == x) || (exists|t: int|
                    0 <= t < j && (#[trigger] wv[t]).0 == x)),
                forall|x: Seq<u8>| #[trigger] out.deep_view().contains(x) ==> field_wf(x),
            decreases work@.len() - j,
        {
            proof {
                lemma_pair_dv(work, j as int);
            }
            let pair = &work[j];
            insert_sorted(&mut out, slice_to_vec(pair.0.as_slice()));
            j = j + 1;
        }
        out
    } else {
        filenames
    };
    let ghost names_dv = names.deep_view();
    proof {
        assert(add_names_ok(names_dv, given, es0, wv));
        if !(given[0] == seq![46u8]) {
            assert(forall|t: int| 0 <= t < names_dv.len() ==> field_wf(#[trigger] names_dv[t]));
        } else {
            assert forall|t: int| 0 <= t < names_dv.len() implies field_wf(
                #[trigger] names_dv[t],
            ) by {
                assert(names_dv.contains(names_dv[t]));
            }
        }
    }
    let ghost st0 = AddStV {
        objects: old(repo)@.objects,
        entries: es0,
        added: Seq::<(Seq<u8>, Seq<u8>)>::empty(),
    };
    let mut added: Vec<(Vec<u8>, Vec<u8>)> = Vec::new();
    let mut i: usize = 0;
    proof {
        assert(names_dv.take(0) =~~= Seq::<Seq<u8>>::empty());
        assert(added.deep_view() =~~= Seq::<(Seq<u8>, Seq<u8>)>::empty());
    }
    while i < names.len()
        invariant
            0 <= i <= names@.len(),
            names_dv == names.deep_view(),
            wv == work.deep_view(),
            es0 == entries.deep_view(),
            forall|t: int| 0 <= t < names_dv.len() ==> field_wf(#[trigger] names_dv[t]),
            repo@.head == old(repo)@.head,
            repo@.refs == old(repo)@.refs,
            repo@.objects == add_fold(st0, es0, wv, names_dv.take(i as int)).objects,
            parse_index(repo@.index) == Some(add_fold(st0, es0, wv, names_dv.take(i as int)).entries),
            added.deep_view() == add_fold(st0, es0, wv, names_dv.take(i as int)).added,
        decreases names@.len() - i,
    {
        let ghost st = add_fold(st0, es0, wv, names_dv.take(i as int));
        proof {
            assert(names_dv[i as int] == names@[i as int]@);
            assert(names_dv.take(i as int + 1) =~~= names_dv.take(i as int).push(
                names_dv[i as int],
            ));
            lemma_add_fold_snoc(st0, es0, wv, names_dv.take(i as int), names_dv[i as int]);
        }
        let name = &names[i];
        match assoc_get(work, name.as_slice()) {
            None => {
                let _ = remove_from_index(name.as_slice(), &mut repo.index);
                proof {
                    if st.entries.len() == 0 {
                        assert(remove_path(st.entries, name@) =~~= st.entries);
                    }
                }
            },
            Some(c) => {
                let o = oid_for(c.as_slice(), GritObjectType::Blob);
                let skip_it = match entry_position(&entries, name.as_slice()) {
                    Some(p) => {
                        proof {
                            assert(es0[p as int] == entries@[p as int]@);
                        }
                        let snap_entry = &entries[p];
                        bytes_eq(snap_entry.oid.as_slice(), o.as_slice())
                    },
                    None => false,
                };
                if !skip_it {
                    let oid2 = match hash_object(c.as_slice(), GritObjectType::Blob, true, repo) {
                        Some(x) => x,
                        None => {
                            proof {
                                assert(false);
                            }
                            return None;
                        },
                    };
                    proof {
                        assert forall|t: int| 0 <= t < oid2@.len() implies oid2@[t] != 32
                            && oid2@[t] != 10 by {
                            crate::hashing::lemma_hex_char_plain(oid2@[t]);
                        }
                        assert(field_wf(oid2@));
                    }
                    match update_index(
                        GritMode::Normal,
                        GritObjectType::Blob,
                        oid2.as_slice(),
                        name.as_slice(),
                        &mut repo.index,
                    ) {
                        Some(_) => {},
                        None => {
                            proof {
                                assert(false);
                            }
                            return None;
                        },
                    }
                    let ghost before = added.deep_view();
                    let name_copy = slice_to_vec(name.as_slice());
                    added.push((oid2, name_copy));
                    proof {
                        assert(added.deep_view() =~~= before.push((o@, name@)));
                    }
                }
            },
        }
        i = i + 1;
    }
    proof {
        assert(names_dv.take(i as int) =~~= names_dv);
        assert(es0 == parse_index(old(repo)@.index)->Some_0);
        assert(add_names_ok(
            names_dv,
            filenames.deep_view(),
            parse_index(old(repo)@.index)->Some_0,
            work.deep_view(),
        ));
    }
    Some(AddReport { added })
}

} // verus!
