use grit::commits::{commit, commit_tree, get_head_tree_entries, write_tree};
use grit::index::{append_to_index, read_tree, update_in_index, Entry};
use grit::repo::get_all_objects;
use grit::index::{
    clear_index, exists_in_index, get_index_entries, index_is_empty, remove_from_index,
    update_index,
};
use grit::objects::{GritCatType, GritMode, GritObjectType};
use grit::ops::{add, rm, status};
use grit::refs::{get_current_branch, get_head_oid, get_head_ref, update_head};
use grit::repo::{generate_cat_content, hash_object, init, object_exists, unhash_object, Repo};

fn fresh() -> Repo {
    init()
}

fn oid_str(oid: &[u8]) -> String {
    String::from_utf8(oid.to_vec()).unwrap()
}

#[test]
fn empty_blob_has_the_known_id() {
    let mut repo = fresh();
    let oid = hash_object(b"", GritObjectType::Blob, false, &mut repo).unwrap();
    assert_eq!(oid_str(&oid), "e69de29bb2d1d6434b8b29ae775ad8c2e48c5391");
}

#[test]
fn known_blob_id_matches() {
    let mut repo = fresh();
    let oid = hash_object(b"hello\n", GritObjectType::Blob, false, &mut repo).unwrap();
    assert_eq!(oid_str(&oid), "ce013625030ba8dba906f756967f9e9ca394464a");
}

#[test]
fn content_addressing_is_deterministic_and_idempotent() {
    let mut repo = fresh();
    let a = hash_object(b"payload", GritObjectType::Blob, true, &mut repo).unwrap();
    let b = hash_object(b"payload", GritObjectType::Blob, true, &mut repo).unwrap();
    assert_eq!(a, b);
    assert_eq!(repo.objects.len(), 1);
    assert!(object_exists(&a, &repo));
}

#[test]
fn round_trip_reproduces_the_exact_bytes() {
    let mut repo = fresh();
    let oid = hash_object(b"hello world", GritObjectType::Blob, true, &mut repo).unwrap();
    let store = unhash_object(&oid, &repo).unwrap();
    assert_eq!(store, b"blob 11\0hello world".to_vec());
    let pretty = generate_cat_content(&oid, GritCatType::Pretty, &repo).unwrap();
    assert_eq!(pretty, b"hello world".to_vec());
    let kind = generate_cat_content(&oid, GritCatType::Type, &repo).unwrap();
    assert_eq!(kind, b"blob".to_vec());
    let size = generate_cat_content(&oid, GritCatType::Size, &repo).unwrap();
    assert_eq!(size, b"11".to_vec());
}

#[test]
fn prefix_lookup_finds_a_stored_object() {
    let mut repo = fresh();
    let oid = hash_object(b"prefixed", GritObjectType::Blob, true, &mut repo).unwrap();
    let short = oid[..7].to_vec();
    let store = unhash_object(&short, &repo).unwrap();
    assert_eq!(store, b"blob 8\0prefixed".to_vec());
}

#[test]
fn missing_object_is_reported() {
    let repo = fresh();
    assert!(unhash_object(b"ab12", &repo).is_none());
}

#[test]
fn index_stays_unique_under_staging_and_unstaging() {
    let mut index: Vec<u8> = Vec::new();
    update_index(GritMode::Normal, GritObjectType::Blob, b"aaaa", b"one.txt", &mut index).unwrap();
    update_index(GritMode::Normal, GritObjectType::Blob, b"bbbb", b"two.txt", &mut index).unwrap();
    update_index(GritMode::Normal, GritObjectType::Blob, b"cccc", b"one.txt", &mut index).unwrap();
    remove_from_index(b"two.txt", &mut index).unwrap();
    update_index(GritMode::Normal, GritObjectType::Blob, b"dddd", b"two.txt", &mut index).unwrap();
    let entries = get_index_entries(&index).unwrap();
    let mut paths: Vec<Vec<u8>> = entries.iter().map(|e| e.path.clone()).collect();
    let total = paths.len();
    paths.sort();
    paths.dedup();
    assert_eq!(paths.len(), total);
    assert_eq!(total, 2);
    let one = entries.iter().find(|e| e.path == b"one.txt".to_vec()).unwrap();
    assert_eq!(one.oid, b"cccc".to_vec());
    assert_eq!(exists_in_index(&index, b"one.txt"), Some(true));
    assert_eq!(exists_in_index(&index, b"absent.txt"), Some(false));
}

#[test]
fn staging_replaces_in_place() {
    let mut index: Vec<u8> = Vec::new();
    update_index(GritMode::Normal, GritObjectType::Blob, b"aaaa", b"one.txt", &mut index).unwrap();
    update_index(GritMode::Normal, GritObjectType::Blob, b"bbbb", b"two.txt", &mut index).unwrap();
    update_index(GritMode::Normal, GritObjectType::Blob, b"cccc", b"one.txt", &mut index).unwrap();
    let entries = get_index_entries(&index).unwrap();
    assert_eq!(entries[0].path, b"one.txt".to_vec());
    assert_eq!(entries[0].oid, b"cccc".to_vec());
    assert_eq!(entries[1].path, b"two.txt".to_vec());
}

#[test]
fn malformed_ledger_is_reported() {
    assert!(get_index_entries(b"100644 blob onlythree").is_none());
    assert!(exists_in_index(b"bad line", b"x").is_none());
}

#[test]
fn clearing_truncates() {
    let mut index: Vec<u8> = b"100644 blob aaaa one.txt".to_vec();
    clear_index(&mut index).unwrap();
    assert!(index_is_empty(&index));
}

#[test]
fn idempotent_add_reports_zero_the_second_time() {
    let mut repo = fresh();
    let work = vec![(b"a.txt".to_vec(), b"alpha".to_vec())];
    let first = add(vec![b"a.txt".to_vec()], &work, &mut repo).unwrap();
    assert_eq!(first.added.len(), 1);
    let objects_before = repo.objects.len();
    let index_before = repo.index.clone();
    let second = add(vec![b"a.txt".to_vec()], &work, &mut repo).unwrap();
    assert_eq!(second.added.len(), 0);
    assert_eq!(repo.objects.len(), objects_before);
    assert_eq!(repo.index, index_before);
}

#[test]
fn add_dot_stages_everything_sorted() {
    let mut repo = fresh();
    let work = vec![
        (b"b.txt".to_vec(), b"bee".to_vec()),
        (b"a.txt".to_vec(), b"ay".to_vec()),
    ];
    let report = add(vec![b".".to_vec()], &work, &mut repo).unwrap();
    assert_eq!(report.added.len(), 2);
    assert_eq!(report.added[0].1, b"a.txt".to_vec());
    assert_eq!(report.added[1].1, b"b.txt".to_vec());
}

#[test]
fn add_drops_the_entry_of_an_unreadable_file() {
    let mut repo = fresh();
    let work = vec![(b"a.txt".to_vec(), b"alpha".to_vec())];
    add(vec![b"a.txt".to_vec()], &work, &mut repo).unwrap();
    let gone: Vec<(Vec<u8>, Vec<u8>)> = vec![];
    add(vec![b"a.txt".to_vec()], &gone, &mut repo).unwrap();
    let entries = get_index_entries(&repo.index).unwrap();
    assert!(entries.is_empty());
}

#[test]
fn write_tree_refuses_an_empty_index() {
    let mut repo = fresh();
    assert!(write_tree(&mut repo).is_none());
    assert_eq!(repo.objects.len(), 0);
}

#[test]
fn commit_chaining_adds_a_parent_line_only_after_the_first() {
    let mut repo = fresh();
    let work = vec![(b"a.txt".to_vec(), b"alpha".to_vec())];
    add(vec![b"a.txt".to_vec()], &work, &mut repo).unwrap();
    let first = commit(b"first", &mut repo).unwrap();
    let body1 = generate_cat_content(&first.oid, GritCatType::Pretty, &repo).unwrap();
    assert!(body1.starts_with(b"tree "));
    assert!(!body1.starts_with(b"parent "));

    let work2 = vec![
        (b"a.txt".to_vec(), b"alpha".to_vec()),
        (b"b.txt".to_vec(), b"beta".to_vec()),
    ];
    add(vec![b"b.txt".to_vec()], &work2, &mut repo).unwrap();
    let second = commit(b"second", &mut repo).unwrap();
    let body2 = generate_cat_content(&second.oid, GritCatType::Pretty, &repo).unwrap();
    let mut expected = b"parent ".to_vec();
    expected.extend_from_slice(&first.oid);
    expected.push(b'\n');
    assert!(body2.starts_with(&expected));
    assert_eq!(get_head_oid(&repo).unwrap(), second.oid);
}

#[test]
fn commit_updates_the_branch_ref_and_reports_it() {
    let mut repo = fresh();
    let work = vec![(b"a.txt".to_vec(), b"alpha".to_vec())];
    add(vec![b"a.txt".to_vec()], &work, &mut repo).unwrap();
    let report = commit(b"message", &mut repo).unwrap();
    assert_eq!(report.branch, b"main".to_vec());
    assert_eq!(report.oid.len(), 40);
    assert_eq!(get_head_oid(&repo).unwrap(), report.oid);
}

#[test]
fn commit_on_an_empty_index_changes_nothing() {
    let mut repo = fresh();
    assert!(commit(b"nothing", &mut repo).is_none());
    assert_eq!(repo.objects.len(), 0);
    assert_eq!(get_head_oid(&repo).unwrap(), Vec::<u8>::new());
}

#[test]
fn head_parsing() {
    assert_eq!(get_head_ref(b"ref: refs/heads/main").unwrap(), b"refs/heads/main".to_vec());
    assert!(get_head_ref(b"nospace").is_none());
    assert_eq!(get_current_branch(b"ref: refs/heads/main").unwrap(), b"main".to_vec());
    assert_eq!(get_current_branch(b"ref: elsewhere").unwrap(), b"elsewhere".to_vec());
}

#[test]
fn update_head_overwrites_the_ref() {
    let mut repo = fresh();
    update_head(b"abc123", &mut repo).unwrap();
    assert_eq!(get_head_oid(&repo).unwrap(), b"abc123".to_vec());
    update_head(b"def456", &mut repo).unwrap();
    assert_eq!(get_head_oid(&repo).unwrap(), b"def456".to_vec());
    assert_eq!(repo.refs.len(), 1);
}

#[test]
fn status_categorization_scenario() {
    let mut repo = fresh();
    let work1 = vec![(b"a.txt".to_vec(), b"A".to_vec())];
    add(vec![b"a.txt".to_vec()], &work1, &mut repo).unwrap();
    commit(b"first", &mut repo).unwrap();

    let work2 = vec![
        (b"a.txt".to_vec(), b"A".to_vec()),
        (b"b.txt".to_vec(), b"B".to_vec()),
    ];
    add(vec![b"b.txt".to_vec()], &work2, &mut repo).unwrap();

    let work3 = vec![
        (b"a.txt".to_vec(), b"A".to_vec()),
        (b"b.txt".to_vec(), b"B2".to_vec()),
        (b"c.txt".to_vec(), b"C".to_vec()),
    ];
    let report = status(&work3, &repo).unwrap();
    assert_eq!(report.branch, b"main".to_vec());
    assert!(!report.no_commits);
    assert_eq!(report.staged_new, vec![b"b.txt".to_vec()]);
    assert!(report.staged_modified.is_empty());
    assert!(report.staged_deleted.is_empty());
    assert_eq!(report.modified, vec![b"b.txt".to_vec()]);
    assert_eq!(report.untracked, vec![b"c.txt".to_vec()]);
    assert!(report.deleted.is_empty());
}

#[test]
fn status_before_any_commit() {
    let repo = fresh();
    let work = vec![(b"a.txt".to_vec(), b"A".to_vec())];
    let report = status(&work, &repo).unwrap();
    assert!(report.no_commits);
    assert_eq!(report.untracked, vec![b"a.txt".to_vec()]);
    assert!(report.staged_new.is_empty());
}

#[test]
fn removal_shows_committed_paths_as_staged_deletions() {
    let mut repo = fresh();
    let work = vec![
        (b"a.txt".to_vec(), b"A".to_vec()),
        (b"b.txt".to_vec(), b"B".to_vec()),
    ];
    add(vec![b".".to_vec()], &work, &mut repo).unwrap();
    commit(b"snapshot", &mut repo).unwrap();

    let report = rm(vec![b".".to_vec()], &mut repo).unwrap();
    assert_eq!(report.removed.len(), 2);
    let entries = get_index_entries(&repo.index).unwrap();
    assert!(entries.is_empty());

    let st = status(&work, &repo).unwrap();
    assert_eq!(st.staged_deleted, vec![b"a.txt".to_vec(), b"b.txt".to_vec()]);
    assert!(st.staged_new.is_empty());
    assert!(st.staged_modified.is_empty());
}

#[test]
fn rm_of_unstaged_paths_is_a_no_op() {
    let mut repo = fresh();
    let report = rm(vec![b"x.txt".to_vec()], &mut repo).unwrap();
    assert_eq!(report.removed, vec![b"x.txt".to_vec()]);
    assert!(repo.index.is_empty());
}

#[test]
fn removing_a_missing_path_succeeds_without_effect() {
    let mut index: Vec<u8> = Vec::new();
    update_index(GritMode::Normal, GritObjectType::Blob, b"aaaa", b"one.txt", &mut index).unwrap();
    let before = index.clone();
    remove_from_index(b"absent.txt", &mut index).unwrap();
    assert_eq!(index, before);
    let mut empty: Vec<u8> = Vec::new();
    remove_from_index(b"anything.txt", &mut empty).unwrap();
    assert!(empty.is_empty());
}

#[test]
fn ambiguous_id_prefixes_are_refused() {
    let data1 = grit::hashing::compress_object_content(b"blob 1\0x").unwrap();
    let data2 = grit::hashing::compress_object_content(b"blob 1\0y").unwrap();
    let mut repo = fresh();
    repo.objects.push((b"abc1".to_vec(), data1));
    repo.objects.push((b"abc2".to_vec(), data2));
    assert!(unhash_object(b"abc", &repo).is_none());
    assert_eq!(unhash_object(b"abc1", &repo).unwrap(), b"blob 1\0x".to_vec());
    assert_eq!(unhash_object(b"abc2", &repo).unwrap(), b"blob 1\0y".to_vec());
}

#[test]
fn commit_fails_on_a_malformed_head() {
    let mut repo = fresh();
    let work = vec![(b"a.txt".to_vec(), b"alpha".to_vec())];
    add(vec![b"a.txt".to_vec()], &work, &mut repo).unwrap();
    repo.head = b"garbage".to_vec();
    assert!(commit(b"message", &mut repo).is_none());
}

#[test]
fn head_tree_entries_of_a_commit() {
    let mut repo = fresh();
    let work = vec![(b"a.txt".to_vec(), b"A".to_vec())];
    add(vec![b"a.txt".to_vec()], &work, &mut repo).unwrap();
    let report = commit(b"first", &mut repo).unwrap();
    let entries = get_head_tree_entries(&report.oid, &repo).unwrap();
    assert_eq!(entries.len(), 1);
    assert_eq!(entries[0].path, b"a.txt".to_vec());
    assert_eq!(entries[0].kind, b"blob".to_vec());
    let empty = get_head_tree_entries(b"", &repo).unwrap();
    assert!(empty.is_empty());
}

#[test]
fn hashing_without_write_persists_nothing() {
    let mut repo = fresh();
    let oid = hash_object(b"volatile", GritObjectType::Blob, false, &mut repo).unwrap();
    assert_eq!(oid.len(), 40);
    assert!(repo.objects.is_empty());
    assert!(!object_exists(&oid, &repo));
}

#[test]
fn write_tree_snapshots_the_raw_ledger() {
    let mut repo = fresh();
    let work = vec![(b"a.txt".to_vec(), b"alpha".to_vec())];
    add(vec![b"a.txt".to_vec()], &work, &mut repo).unwrap();
    let ledger = repo.index.clone();
    let tree_oid = write_tree(&mut repo).unwrap();
    let expected = hash_object(&ledger, GritObjectType::Tree, false, &mut repo).unwrap();
    assert_eq!(tree_oid, expected);
    let payload = generate_cat_content(&tree_oid, GritCatType::Pretty, &repo).unwrap();
    assert_eq!(payload, ledger);
}

#[test]
fn read_tree_stages_a_tree_entry() {
    let mut index: Vec<u8> = Vec::new();
    read_tree(b"docs", b"abcd", &mut index).unwrap();
    let entries = get_index_entries(&index).unwrap();
    assert_eq!(entries.len(), 1);
    assert_eq!(entries[0].kind, b"tree".to_vec());
    assert_eq!(entries[0].path, b"docs".to_vec());
    assert_eq!(entries[0].mode, b"100644".to_vec());
}

#[test]
fn appending_separates_lines_with_a_newline() {
    let mut index: Vec<u8> = Vec::new();
    let one = Entry {
        mode: b"100644".to_vec(),
        kind: b"blob".to_vec(),
        oid: b"aaaa".to_vec(),
        path: b"one.txt".to_vec(),
    };
    let two = Entry {
        mode: b"100644".to_vec(),
        kind: b"blob".to_vec(),
        oid: b"bbbb".to_vec(),
        path: b"two.txt".to_vec(),
    };
    append_to_index(&one, &mut index).unwrap();
    append_to_index(&two, &mut index).unwrap();
    assert_eq!(
        index,
        b"100644 blob aaaa one.txt\n100644 blob bbbb two.txt".to_vec()
    );
}

#[test]
fn replacing_in_an_empty_ledger_is_refused() {
    let mut index: Vec<u8> = Vec::new();
    let entry = Entry {
        mode: b"100644".to_vec(),
        kind: b"blob".to_vec(),
        oid: b"aaaa".to_vec(),
        path: b"one.txt".to_vec(),
    };
    assert!(update_in_index(b"one.txt", &entry, &mut index).is_none());
    assert!(index.is_empty());
}

#[test]
fn all_stored_ids_are_listed() {
    let mut repo = fresh();
    let a = hash_object(b"first", GritObjectType::Blob, true, &mut repo).unwrap();
    let b = hash_object(b"second", GritObjectType::Blob, true, &mut repo).unwrap();
    let ids = get_all_objects(&repo);
    assert_eq!(ids, vec![a, b]);
}

#[test]
fn commit_tree_without_a_parent_persists_a_commit() {
    let mut repo = fresh();
    let tree = hash_object(b"100644 blob aaaa a.txt", GritObjectType::Tree, true, &mut repo)
        .unwrap();
    let oid = commit_tree(&tree, b"msg", None, &mut repo).unwrap();
    assert_eq!(oid.len(), 40);
    let body = generate_cat_content(&oid, GritCatType::Pretty, &repo).unwrap();
    let mut expected = b"tree ".to_vec();
    expected.extend_from_slice(&tree);
    assert!(body.starts_with(&expected));
    let text = String::from_utf8(body).unwrap();
    assert!(text.contains("\nauthor "));
    assert!(text.contains("\ndate "));
    assert!(text.contains("\n\nmsg"));
}
