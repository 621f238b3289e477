//! The staging index: a flat text ledger of `"<mode> <kind> <oid> <path>"`
//! lines, parsed into entries and written back after every staging change.
use crate::bytes::{
    blob_kind, commit_kind, lemma_split_no_sep, lemma_split_preserves_absent, lemma_split_token,
    lemma_split_tokens_free, mode_executable, mode_normal, mode_symlink, push_all, split_bytes,
    split_on, tree_kind, NL, SP,
};
use crate::bytes::bytes_eq;
use crate::objects::{kind_label, kind_label_bytes, mode_label, mode_label_bytes, GritMode, GritObjectType};
use vstd::prelude::*;
use vstd::slice::slice_to_vec;

verus! {

/// One staged path: file mode, object kind, object id, repository-relative
/// path, all as the byte strings that stand in the ledger line.
pub struct Entry {
    pub mode: Vec<u8>,
    pub kind: Vec<u8>,
    pub oid: Vec<u8>,
    pub path: Vec<u8>,
}

/// The mathematical value of an [`Entry`].
#[verifier::ext_equal]
pub struct EntryV {
    pub mode: Seq<u8>,
    pub kind: Seq<u8>,
    pub oid: Seq<u8>,
    pub path: Seq<u8>,
}

impl View for Entry {
    type V = EntryV;

    open spec fn view(&self) -> EntryV {
        EntryV { mode: self.mode@, kind: self.kind@, oid: self.oid@, path: self.path@ }
    }
}

impl DeepView for Entry {
    type V = EntryV;

    open spec fn deep_view(&self) -> EntryV {
        self.view()
    }
}

impl Entry {
    /// A copy of this entry.
    pub fn clone_entry(&self) -> (r: Entry)
        ensures
            r@ == self@,
    {
        Entry {
            mode: slice_to_vec(self.mode.as_slice()),
            kind: slice_to_vec(self.kind.as_slice()),
            oid: slice_to_vec(self.oid.as_slice()),
            path: slice_to_vec(self.path.as_slice()),
        }
    }
}

/// A ledger field: non-empty, and free of the separators that would break
/// the line format.
pub open spec fn field_wf(f: Seq<u8>) -> bool {
    f.len() > 0 && forall|j: int| 0 <= j < f.len() ==> f[j] != SP && f[j] != NL
}

pub open spec fn entry_wf(e: EntryV) -> bool {
    field_wf(e.mode) && field_wf(e.kind) && field_wf(e.oid) && field_wf(e.path)
}

pub open spec fn entries_wf(es: Seq<EntryV>) -> bool {
    forall|i: int| 0 <= i < es.len() ==> entry_wf(#[trigger] es[i])
}

/// No two entries share a path.
pub open spec fn paths_unique(es: Seq<EntryV>) -> bool {
    forall|i: int, j: int| 0 <= i < es.len() && 0 <= j < es.len() && i != j ==> es[i].path != es[
        j
    ].path
}

/// The entry a ledger line stands for: four space-separated non-empty
/// fields, else nothing.
pub open spec fn parse_entry_line(line: Seq<u8>) -> Option<EntryV> {
    let f = split_on(line, SP);
    if f.len() == 4 && f[0].len() > 0 && f[1].len() > 0 && f[2].len() > 0 && f[3].len() > 0 {
        Some(EntryV { mode: f[0], kind: f[1], oid: f[2], path: f[3] })
    } else {
        None
    }
}

/// The entries of a sequence of ledger lines; empty lines are skipped, and
/// one malformed line spoils the whole ledger.
pub open spec fn parse_lines(lines: Seq<Seq<u8>>) -> Option<Seq<EntryV>>
    decreases lines.len(),
{
    if lines.len() == 0 {
        Some(Seq::<EntryV>::empty())
    } else {
        let rest = parse_lines(lines.skip(1));
        if lines[0].len() == 0 {
            rest
        } else {
            match parse_entry_line(lines[0]) {
                None => None,
                Some(e) => match rest {
                    None => None,
                    Some(es) => Some(seq![e] + es),
                },
            }
        }
    }
}

/// The entries of a whole ledger.
pub open spec fn parse_index(s: Seq<u8>) -> Option<Seq<EntryV>> {
    parse_lines(split_on(s, NL))
}

/// The ledger line of one entry.
pub open spec fn render_entry(e: EntryV) -> Seq<u8> {
    e.mode + seq![SP] + e.kind + seq![SP] + e.oid + seq![SP] + e.path
}

/// The canonical ledger of a sequence of entries: lines joined by newlines,
/// with no trailing newline.
pub open spec fn render_index(es: Seq<EntryV>) -> Seq<u8>
    decreases es.len(),
{
    if es.len() == 0 {
        Seq::<u8>::empty()
    } else if es.len() == 1 {
        render_entry(es[0])
    } else {
        render_entry(es[0]) + seq![NL] + render_index(es.skip(1))
    }
}

/// A well-formed entry renders to a non-empty line without newlines.
pub proof fn lemma_render_entry_plain(e: EntryV)
    requires
        entry_wf(e),
    ensures
        render_entry(e).len() > 0,
        forall|j: int| 0 <= j < render_entry(e).len() ==> #[trigger] render_entry(e)[j] != NL,
{
    let r = render_entry(e);
    let a = e.mode.len() as int;
    let b = e.kind.len() as int;
    let c = e.oid.len() as int;
    assert forall|j: int| 0 <= j < r.len() implies #[trigger] r[j] != NL by {
        if j < a {
            assert(r[j] == e.mode[j]);
        } else if j == a {
            assert(r[j] == SP);
        } else if j < a + 1 + b {
            assert(r[j] == e.kind[j - (a + 1)]);
        } else if j == a + 1 + b {
            assert(r[j] == SP);
        } else if j < a + 1 + b + 1 + c {
            assert(r[j] == e.oid[j - (a + 1 + b + 1)]);
        } else if j == a + 1 + b + 1 + c {
            assert(r[j] == SP);
        } else {
            assert(r[j] == e.path[j - (a + 1 + b + 1 + c + 1)]);
        }
    }
}

/// Parsing the rendered line of a well-formed entry gives the entry back.
pub proof fn lemma_entry_round_trip(e: EntryV)
    requires
        entry_wf(e),
    ensures
        parse_entry_line(render_entry(e)) == Some(e),
{
    let tail2 = e.oid + seq![SP] + e.path;
    let tail1 = e.kind + seq![SP] + tail2;
    assert(render_entry(e) =~= e.mode + seq![SP] + tail1);
    lemma_split_token(e.mode, tail1, SP);
    lemma_split_token(e.kind, tail2, SP);
    lemma_split_token(e.oid, e.path, SP);
    lemma_split_no_sep(e.path, SP);
    let f = split_on(render_entry(e), SP);
    assert(f =~~= seq![e.mode, e.kind, e.oid, e.path]);
    assert(parse_entry_line(render_entry(e)) matches Some(p) && p =~= e);
}

/// Splitting distributes over gluing two ledgers with a separator.
pub proof fn lemma_split_concat(a: Seq<u8>, b: Seq<u8>, sep: u8)
    ensures
        split_on(a + seq![sep] + b, sep) == split_on(a, sep) + split_on(b, sep),
    decreases a.len(),
{
    let s = a + seq![sep] + b;
    if a.len() == 0 {
        assert(s[0] == sep);
        assert(s.skip(1) =~= b);
        assert(split_on(a, sep) =~~= seq![Seq::<u8>::empty()]);
        assert(split_on(s, sep) =~~= split_on(a, sep) + split_on(b, sep));
    } else {
        assert(s[0] == a[0]);
        assert(s.skip(1) =~= a.skip(1) + seq![sep] + b);
        lemma_split_concat(a.skip(1), b, sep);
        let rest = split_on(s.skip(1), sep);
        crate::bytes::lemma_split_len(a.skip(1), sep);
        crate::bytes::lemma_split_len(b, sep);
        assert(rest == split_on(a.skip(1), sep) + split_on(b, sep));
        assert(rest[0] == split_on(a.skip(1), sep)[0]);
        if a[0] == sep {
            assert(split_on(a, sep) == seq![Seq::<u8>::empty()] + split_on(a.skip(1), sep));
            assert(split_on(s, sep) =~~= split_on(a, sep) + split_on(b, sep));
        } else {
            assert(split_on(a, sep) == seq![seq![a[0]] + split_on(a.skip(1), sep)[0]] + split_on(
                a.skip(1),
                sep,
            ).skip(1));
            assert(split_on(s, sep) == seq![seq![s[0]] + rest[0]] + rest.skip(1));
            assert(split_on(s, sep) =~~= split_on(a, sep) + split_on(b, sep));
        }
    }
}

/// Parsing distributes over concatenated line sequences.
pub proof fn lemma_parse_lines_concat(l1: Seq<Seq<u8>>, l2: Seq<Seq<u8>>)
    ensures
        parse_lines(l1 + l2) == match (parse_lines(l1), parse_lines(l2)) {
            (Some(a), Some(b)) => Some(a + b),
            _ => None::<Seq<EntryV>>,
        },
    decreases l1.len(),
{
    if l1.len() == 0 {
        assert(l1 + l2 =~~= l2);
        assert(parse_lines(l1) == Some(Seq::<EntryV>::empty()));
        if parse_lines(l2) is Some {
            let b = parse_lines(l2)->Some_0;
            assert(Seq::<EntryV>::empty() + b =~= b);
        }
    } else {
        let s = l1 + l2;
        assert(s[0] == l1[0]);
        assert(s.skip(1) =~~= l1.skip(1) + l2);
        lemma_parse_lines_concat(l1.skip(1), l2);
        if parse_lines(l1.skip(1)) is Some && parse_lines(l2) is Some {
            let a1 = parse_lines(l1.skip(1))->Some_0;
            let b = parse_lines(l2)->Some_0;
            if l1[0].len() > 0 && parse_entry_line(l1[0]) is Some {
                let e = parse_entry_line(l1[0])->Some_0;
                assert(parse_lines(s) == Some(seq![e] + (a1 + b)));
                assert(parse_lines(l1) == Some(seq![e] + a1));
                assert(seq![e] + (a1 + b) =~= (seq![e] + a1) + b);
            }
        }
    }
}

/// Parsing the canonical ledger of well-formed entries gives them back.
pub proof fn lemma_index_round_trip(es: Seq<EntryV>)
    requires
        entries_wf(es),
    ensures
        parse_index(render_index(es)) == Some(es),
    decreases es.len(),
{
    if es.len() == 0 {
        let lines = split_on(render_index(es), NL);
        assert(lines =~~= seq![Seq::<u8>::empty()]);
        assert(parse_lines(lines.skip(1)) == Some(Seq::<EntryV>::empty()));
        assert(parse_index(render_index(es)) == Some(Seq::<EntryV>::empty()));
        assert(Seq::<EntryV>::empty() =~= es);
    } else if es.len() == 1 {
        let line = render_entry(es[0]);
        lemma_render_entry_plain(es[0]);
        lemma_split_no_sep(line, NL);
        let lines = split_on(render_index(es), NL);
        assert(lines == seq![line]);
        lemma_entry_round_trip(es[0]);
        assert(lines.skip(1) =~~= Seq::<Seq<u8>>::empty());
        assert(parse_lines(lines.skip(1)) == Some(Seq::<EntryV>::empty()));
        assert(parse_lines(lines) == Some(seq![es[0]] + Seq::<EntryV>::empty()));
        assert(seq![es[0]] + Seq::<EntryV>::empty() =~= es);
    } else {
        let line = render_entry(es[0]);
        let rest = render_index(es.skip(1));
        assert(render_index(es) == line + seq![NL] + rest);
        lemma_render_entry_plain(es[0]);
        lemma_split_no_sep(line, NL);
        lemma_split_concat(line, rest, NL);
        assert(entries_wf(es.skip(1)));
        lemma_index_round_trip(es.skip(1));
        let lines = split_on(render_index(es), NL);
        assert(lines == seq![line] + split_on(rest, NL));
        lemma_parse_lines_concat(seq![line], split_on(rest, NL));
        lemma_entry_round_trip(es[0]);
        assert(seq![line].skip(1) =~~= Seq::<Seq<u8>>::empty());
        assert(parse_lines(seq![line].skip(1)) == Some(Seq::<EntryV>::empty()));
        assert(parse_lines(seq![line]) == Some(seq![es[0]] + Seq::<EntryV>::empty()));
        assert(seq![es[0]] + Seq::<EntryV>::empty() =~= seq![es[0]]);
        assert(parse_lines(lines) == Some(seq![es[0]] + es.skip(1)));
        assert(seq![es[0]] + es.skip(1) =~= es);
    }
}

/// Whatever a ledger parses to is well-formed entry by entry.
pub proof fn lemma_parse_lines_wf(lines: Seq<Seq<u8>>)
    requires
        forall|t: int, j: int| 0 <= t < lines.len() && 0 <= j < lines[t].len() ==> lines[t][j]
            != NL,
    ensures
        parse_lines(lines) matches Some(es) ==> entries_wf(es),
    decreases lines.len(),
{
    if lines.len() > 0 {
        assert forall|t: int, j: int|
            0 <= t < lines.skip(1).len() && 0 <= j < lines.skip(1)[t].len()
                implies lines.skip(1)[t][j] != NL by {
            assert(lines.skip(1)[t] == lines[t + 1]);
        }
        lemma_parse_lines_wf(lines.skip(1));
        if lines[0].len() > 0 && parse_entry_line(lines[0]) is Some && parse_lines(lines.skip(1))
            is Some {
            let line = lines[0];
            let e = parse_entry_line(line).unwrap();
            let f = split_on(line, SP);
            lemma_split_tokens_free(line, SP);
            assert(forall|j: int| 0 <= j < line.len() ==> line[j] != NL);
            lemma_split_preserves_absent(line, SP, NL);
            assert(entry_wf(e)) by {
                assert(e.mode == f[0] && e.kind == f[1] && e.oid == f[2] && e.path == f[3]);
            }
            let es = parse_lines(lines).unwrap();
            let tail = parse_lines(lines.skip(1)).unwrap();
            assert(es == seq![e] + tail);
            assert forall|i: int| 0 <= i < es.len() implies entry_wf(#[trigger] es[i]) by {
                if i > 0 {
                    assert(es[i] == tail[i - 1]);
                }
            }
        }
    }
}

pub proof fn lemma_parse_index_wf(s: Seq<u8>)
    ensures
        parse_index(s) matches Some(es) ==> entries_wf(es),
{
    lemma_split_tokens_free(s, NL);
    lemma_parse_lines_wf(split_on(s, NL));
}

/// The first entry staged at a path.
pub open spec fn lookup_path(es: Seq<EntryV>, p: Seq<u8>) -> Option<EntryV>
    decreases es.len(),
{
    if es.len() == 0 {
        None
    } else if es[0].path == p {
        Some(es[0])
    } else {
        lookup_path(es.skip(1), p)
    }
}

pub open spec fn has_path(es: Seq<EntryV>, p: Seq<u8>) -> bool {
    lookup_path(es, p) is Some
}

pub proof fn lemma_lookup_path(es: Seq<EntryV>, p: Seq<u8>)
    ensures
        lookup_path(es, p) is None <==> (forall|i: int| 0 <= i < es.len() ==> (#[trigger] es[i]).path
            != p),
        lookup_path(es, p) matches Some(e) ==> exists|i: int|
            0 <= i < es.len() && es[i] == e && e.path == p,
    decreases es.len(),
{
    if es.len() > 0 && es[0].path != p {
        lemma_lookup_path(es.skip(1), p);
        if lookup_path(es, p) is None {
            assert forall|i: int| 0 <= i < es.len() implies (#[trigger] es[i]).path != p by {
                if i > 0 {
                    assert(es[i] == es.skip(1)[i - 1]);
                }
            }
        }
        if lookup_path(es.skip(1), p) is Some {
            let e = lookup_path(es.skip(1), p)->Some_0;
            let i = choose|i: int| 0 <= i < es.skip(1).len() && es.skip(1)[i] == e && e.path == p;
            assert(es[i + 1] == e);
        }
    }
}

/// Every entry staged at the path replaced by `e`, the rest untouched.
pub open spec fn replace_path(es: Seq<EntryV>, p: Seq<u8>, e: EntryV) -> Seq<EntryV> {
    es.map_values(
        |x: EntryV|
            if x.path == p {
                e
            } else {
                x
            },
    )
}

/// All entries staged at a path dropped, order kept.
pub open spec fn remove_path(es: Seq<EntryV>, p: Seq<u8>) -> Seq<EntryV>
    decreases es.len(),
{
    if es.len() == 0 {
        Seq::<EntryV>::empty()
    } else if es[0].path == p {
        remove_path(es.skip(1), p)
    } else {
        seq![es[0]] + remove_path(es.skip(1), p)
    }
}

/// Staging an entry: replace in place when the path is present, append
/// otherwise.
pub open spec fn stage_entries(es: Seq<EntryV>, e: EntryV) -> Seq<EntryV> {
    if has_path(es, e.path) {
        replace_path(es, e.path, e)
    } else {
        es.push(e)
    }
}

/// Everything left after a removal was already staged, at another path.
pub proof fn lemma_remove_path_elems(es: Seq<EntryV>, p: Seq<u8>)
    ensures
        forall|i: int| 0 <= i < remove_path(es, p).len() ==> es.contains(
            #[trigger] remove_path(es, p)[i],
        ) && remove_path(es, p)[i].path != p,
    decreases es.len(),
{
    if es.len() > 0 {
        lemma_remove_path_elems(es.skip(1), p);
        let r = remove_path(es, p);
        assert forall|i: int| 0 <= i < r.len() implies es.contains(#[trigger] r[i]) && r[i].path
            != p by {
            if es[0].path == p {
                assert(r[i] == remove_path(es.skip(1), p)[i]);
                let x = r[i];
                let j = choose|j: int| 0 <= j < es.skip(1).len() && es.skip(1)[j] == x;
                assert(es[j + 1] == x);
            } else {
                if i == 0 {
                    assert(r[0] == es[0]);
                } else {
                    assert(r[i] == remove_path(es.skip(1), p)[i - 1]);
                    let x = r[i];
                    let j = choose|j: int| 0 <= j < es.skip(1).len() && es.skip(1)[j] == x;
                    assert(es[j + 1] == x);
                }
            }
        }
    }
}

/// Index uniqueness under staging: staging any entry into a ledger whose
/// paths are unique leaves the paths unique.
pub proof fn lemma_stage_preserves_unique(es: Seq<EntryV>, e: EntryV)
    requires
        paths_unique(es),
    ensures
        paths_unique(stage_entries(es, e)),
{
    if has_path(es, e.path) {
        let r = replace_path(es, e.path, e);
        assert forall|i: int| 0 <= i < r.len() implies (#[trigger] r[i]).path == es[i].path by {}
    } else {
        lemma_lookup_path(es, e.path);
        let r = es.push(e);
        assert forall|i: int, j: int|
            0 <= i < r.len() && 0 <= j < r.len() && i != j implies r[i].path != r[j].path by {
            if i < es.len() && j < es.len() {
                assert(r[i] == es[i] && r[j] == es[j]);
            } else if i < es.len() {
                assert(r[i] == es[i] && r[j] == e);
            } else {
                assert(r[i] == e && r[j] == es[j]);
            }
        }
    }
}

/// Index uniqueness under unstaging: removing a path from a ledger whose
/// paths are unique leaves the paths unique, and the path is gone.
pub proof fn lemma_remove_preserves_unique(es: Seq<EntryV>, p: Seq<u8>)
    requires
        paths_unique(es),
    ensures
        paths_unique(remove_path(es, p)),
        !has_path(remove_path(es, p), p),
    decreases es.len(),
{
    lemma_remove_path_elems(es, p);
    lemma_lookup_path(remove_path(es, p), p);
    if es.len() > 0 {
        assert(paths_unique(es.skip(1))) by {
            assert forall|i: int, j: int|
                0 <= i < es.skip(1).len() && 0 <= j < es.skip(1).len() && i != j
                    implies es.skip(1)[i].path != es.skip(1)[j].path by {
                assert(es.skip(1)[i] == es[i + 1] && es.skip(1)[j] == es[j + 1]);
            }
        }
        lemma_remove_preserves_unique(es.skip(1), p);
        let r = remove_path(es, p);
        if es[0].path != p {
            let tail = remove_path(es.skip(1), p);
            lemma_remove_path_elems(es.skip(1), p);
            assert forall|i: int, j: int|
                0 <= i < r.len() && 0 <= j < r.len() && i != j implies r[i].path != r[j].path by {
                if i == 0 || j == 0 {
                    let t = if i == 0 {
                        j
                    } else {
                        i
                    };
                    assert(r[t] == tail[t - 1]);
                    let x = tail[t - 1];
                    assert(es.skip(1).contains(x));
                    let w = choose|w: int| 0 <= w < es.skip(1).len() && es.skip(1)[w] == x;
                    assert(es[w + 1] == x);
                    assert(es[0].path != es[w + 1].path);
                } else {
                    assert(r[i] == tail[i - 1] && r[j] == tail[j - 1]);
                }
            }
        }
    }
}

/// The entry staged by one `update_index` call.
pub open spec fn entry_of(m: GritMode, k: GritObjectType, oid: Seq<u8>, path: Seq<u8>) -> EntryV {
    EntryV { mode: mode_label(m), kind: kind_label(k), oid: oid, path: path }
}

/// Mode digits and kind labels are well-formed ledger fields.
pub proof fn lemma_labels_wf(m: GritMode, k: GritObjectType)
    ensures
        field_wf(mode_label(m)),
        field_wf(kind_label(k)),
{
    assert(field_wf(mode_normal()));
    assert(field_wf(mode_executable()));
    assert(field_wf(mode_symlink()));
    assert(field_wf(blob_kind()));
    assert(field_wf(tree_kind()));
    assert(field_wf(commit_kind()));
}

/// Is the ledger empty?
pub fn index_is_empty(index: &[u8]) -> (r: bool)
    ensures
        r == (index@.len() == 0),
{
    index.len() == 0
}

/// Parse a whole ledger into its entries; a malformed line spoils it.
#[verifier::loop_isolation(false)]
pub fn get_index_entries(index: &[u8]) -> (r: Option<Vec<Entry>>)
    ensures
        match r {
            Some(es) => parse_index(index@) == Some(es.deep_view()),
            None => parse_index(index@) is None,
        },
{
    let lines = split_bytes(index, NL);
    let ghost lines_dv = lines.deep_view();
    let mut out: Vec<Entry> = Vec::new();
    let mut i: usize = 0;
    proof {
        assert(lines_dv.skip(0) =~~= lines_dv);
        assert(out.deep_view() =~~= Seq::<EntryV>::empty());
    }
    while i < lines.len()
        invariant
            0 <= i <= lines@.len(),
            lines.deep_view() == lines_dv,
            lines_dv == split_on(index@, NL),
            parse_lines(lines_dv.skip(i as int)) matches Some(rest) ==> parse_lines(lines_dv)
                == Some(out.deep_view() + rest),
            parse_lines(lines_dv.skip(i as int)) is None ==> parse_lines(lines_dv) is None,
        decreases lines@.len() - i,
    {
        let ghost restl = lines_dv.skip(i as int);
        proof {
            assert(lines_dv[i as int] == lines@[i as int].deep_view());
            assert(lines@[i as int].deep_view() =~= lines@[i as int]@);
            assert(restl[0] == lines_dv[i as int]);
            assert(restl.skip(1) =~~= lines_dv.skip(i as int + 1));
        }
        let line = &lines[i];
        if line.len() == 0 {
            proof {
                assert(lines_dv[i as int].len() == 0);
            }
        } else {
            let fields = split_bytes(line.as_slice(), SP);
            let ghost fdv = fields.deep_view();
            proof {
                assert(fdv == split_on(lines_dv[i as int], SP));
            }
            if fields.len() != 4 {
                proof {
                    assert(parse_entry_line(lines_dv[i as int]) is None);
                    assert(parse_lines(restl) is None);
                }
                return None;
            }
            let ghost forig = fields@;
            proof {
                assert(fdv[0] == forig[0].deep_view() && forig[0].deep_view() =~= forig[0]@);
                assert(fdv[1] == forig[1].deep_view() && forig[1].deep_view() =~= forig[1]@);
                assert(fdv[2] == forig[2].deep_view() && forig[2].deep_view() =~= forig[2]@);
                assert(fdv[3] == forig[3].deep_view() && forig[3].deep_view() =~= forig[3]@);
            }
            let nonempty = fields[0].len() > 0 && fields[1].len() > 0 && fields[2].len() > 0
                && fields[3].len() > 0;
            if !nonempty {
                proof {
                    assert(parse_entry_line(lines_dv[i as int]) is None);
                    assert(parse_lines(restl) is None);
                }
                return None;
            }
            let mut fields = fields;
            let path = fields.pop().unwrap();
            let oid = fields.pop().unwrap();
            let kind = fields.pop().unwrap();
            let mode = fields.pop().unwrap();
            let e = Entry { mode, kind, oid, path };
            proof {
                assert(forig.subrange(0, 3)[2] == forig[2]);
                assert(forig.subrange(0, 3).subrange(0, 2)[1] == forig[1]);
                assert(forig.subrange(0, 3).subrange(0, 2).subrange(0, 1)[0] == forig[0]);
                assert(e@ == parse_entry_line(lines_dv[i as int])->Some_0);
            }
            let ghost old_out = out.deep_view();
            out.push(e);
            proof {
                assert(out.deep_view() =~~= old_out.push(e@));
                if parse_lines(lines_dv.skip(i as int + 1)) is Some {
                    let rest2 = parse_lines(lines_dv.skip(i as int + 1))->Some_0;
                    assert(parse_lines(restl) == Some(seq![e@] + rest2));
                    assert(old_out + (seq![e@] + rest2) =~~= out.deep_view() + rest2);
                }
            }
        }
        i = i + 1;
    }
    proof {
        assert(lines_dv.skip(i as int) =~~= Seq::<Seq<u8>>::empty());
        assert(parse_lines(lines_dv.skip(i as int)) == Some(Seq::<EntryV>::empty()));
        assert(out.deep_view() + Seq::<EntryV>::empty() =~~= out.deep_view());
    }
    Some(out)
}

/// The position of the first entry staged at `p`.
pub fn entry_position(entries: &Vec<Entry>, p: &[u8]) -> (r: Option<usize>)
    ensures
        match r {
            Some(i) => 0 <= i < entries@.len() && lookup_path(entries.deep_view(), p@) == Some(
                entries.deep_view()[i as int],
            ) && entries.deep_view()[i as int].path == p@,
            None => lookup_path(entries.deep_view(), p@) is None,
        },
{
    let ghost full = entries.deep_view();
    let mut i: usize = 0;
    proof {
        assert(full.skip(0) =~~= full);
    }
    while i < entries.len()
        invariant
            0 <= i <= entries@.len(),
            full == entries.deep_view(),
            lookup_path(full, p@) == lookup_path(full.skip(i as int), p@),
        decreases entries@.len() - i,
    {
        let ghost rest = full.skip(i as int);
        proof {
            assert(rest[0] == full[i as int]);
            assert(rest.skip(1) =~~= full.skip(i as int + 1));
            assert(full[i as int] == entries@[i as int]@);
        }
        let cur = &entries[i];
        if bytes_eq(cur.path.as_slice(), p) {
            return Some(i);
        }
        i = i + 1;
    }
    proof {
        assert(full.skip(i as int).len() == 0);
    }
    None
}

/// Is some entry staged at this path?
pub fn exists_in_index(index: &[u8], filename: &[u8]) -> (r: Option<bool>)
    ensures
        match parse_index(index@) {
            Some(es) => r == Some(has_path(es, filename@)),
            None => r is None,
        },
{
    let entries = match get_index_entries(index) {
        Some(es) => es,
        None => {
            return None;
        },
    };
    let pos = entry_position(&entries, filename);
    Some(pos.is_some())
}

/// The ledger line of an entry, as bytes.
pub fn render_entry_bytes(e: &Entry) -> (r: Vec<u8>)
    ensures
        r@ == render_entry(e@),
{
    let mut r: Vec<u8> = Vec::new();
    push_all(&mut r, e.mode.as_slice());
    r.push(SP);
    push_all(&mut r, e.kind.as_slice());
    r.push(SP);
    push_all(&mut r, e.oid.as_slice());
    r.push(SP);
    push_all(&mut r, e.path.as_slice());
    proof {
        assert(r@ =~= render_entry(e@));
    }
    r
}

/// Appending an entry to a canonical ledger appends its line.
pub proof fn lemma_render_snoc(es: Seq<EntryV>, e: EntryV)
    ensures
        render_index(es.push(e)) == if es.len() == 0 {
            render_entry(e)
        } else {
            render_index(es) + seq![NL] + render_entry(e)
        },
    decreases es.len(),
{
    let s = es.push(e);
    if es.len() == 0 {
        assert(s.len() == 1 && s[0] == e);
    } else if es.len() == 1 {
        assert(s[0] == es[0]);
        assert(s.skip(1) =~~= seq![e]);
        assert(render_index(seq![e]) == render_entry(e));
    } else {
        assert(s[0] == es[0]);
        assert(s.skip(1) =~~= es.skip(1).push(e));
        lemma_render_snoc(es.skip(1), e);
        assert(render_index(s) == render_entry(es[0]) + seq![NL] + (render_index(es.skip(1))
            + seq![NL] + render_entry(e)));
        assert(render_entry(es[0]) + seq![NL] + (render_index(es.skip(1)) + seq![NL]
            + render_entry(e)) =~= (render_entry(es[0]) + seq![NL] + render_index(es.skip(1)))
            + seq![NL] + render_entry(e));
    }
}

/// The canonical ledger of a sequence of entries, as bytes.
pub fn render_index_bytes(entries: &Vec<Entry>) -> (r: Vec<u8>)
    ensures
        r@ == render_index(entries.deep_view()),
{
    let ghost full = entries.deep_view();
    let mut r: Vec<u8> = Vec::new();
    let mut i: usize = 0;
    proof {
        assert(full.take(0) =~~= Seq::<EntryV>::empty());
    }
    while i < entries.len()
        invariant
            0 <= i <= entries@.len(),
            full == entries.deep_view(),
            r@ == render_index(full.take(i as int)),
        decreases entries@.len() - i,
    {
        proof {
            assert(full[i as int] == entries@[i as int]@);
            assert(full.take(i as int + 1) =~~= full.take(i as int).push(full[i as int]));
            lemma_render_snoc(full.take(i as int), full[i as int]);
        }
        if i > 0 {
            r.push(NL);
        }
        let line = render_entry_bytes(&entries[i]);
        push_all(&mut r, line.as_slice());
        proof {
            assert(full.take(i as int).len() == i as int);
            assert(r@ =~= render_index(full.take(i as int + 1)));
        }
        i = i + 1;
    }
    proof {
        assert(full.take(i as int) =~~= full);
    }
    r
}

/// Append one entry's line to the raw ledger, with a separating newline
/// unless the ledger is empty.
pub fn append_to_index(entry: &Entry, index: &mut Vec<u8>) -> (r: Option<()>)
    ensures
        r is Some,
        final(index)@ == if old(index)@.len() == 0 {
            render_entry(entry@)
        } else {
            old(index)@ + seq![NL] + render_entry(entry@)
        },
{
    let line = render_entry_bytes(entry);
    if index.len() == 0 {
        *index = line;
        proof {
            assert(final(index)@ == render_entry(entry@));
        }
    } else {
        index.push(NL);
        push_all(index, line.as_slice());
        proof {
            assert(index@ =~= old(index)@ + seq![NL] + render_entry(entry@));
        }
    }
    Some(())
}

/// Appending a well-formed entry's line extends what the ledger parses to.
pub proof fn lemma_parse_append(s: Seq<u8>, es: Seq<EntryV>, e: EntryV)
    requires
        parse_index(s) == Some(es),
        entry_wf(e),
    ensures
        parse_index(s + seq![NL] + render_entry(e)) == Some(es.push(e)),
{
    let line = render_entry(e);
    lemma_render_entry_plain(e);
    lemma_split_no_sep(line, NL);
    lemma_split_concat(s, line, NL);
    lemma_parse_lines_concat(split_on(s, NL), seq![line]);
    lemma_entry_round_trip(e);
    assert(seq![line].skip(1) =~~= Seq::<Seq<u8>>::empty());
    assert(parse_lines(seq![line].skip(1)) == Some(Seq::<EntryV>::empty()));
    assert(parse_lines(seq![line]) == Some(seq![e] + Seq::<EntryV>::empty()));
    assert(es + (seq![e] + Seq::<EntryV>::empty()) =~= es.push(e));
}

/// Replacing entries keeps them well-formed when the new entry is.
pub proof fn lemma_replace_wf(es: Seq<EntryV>, p: Seq<u8>, e: EntryV)
    requires
        entries_wf(es),
        entry_wf(e),
    ensures
        entries_wf(replace_path(es, p, e)),
{
    let r = replace_path(es, p, e);
    assert forall|i: int| 0 <= i < r.len() implies entry_wf(#[trigger] r[i]) by {
        assert(es[i] == es[i]);
    }
}

/// Removal keeps entries well-formed.
pub proof fn lemma_remove_wf(es: Seq<EntryV>, p: Seq<u8>)
    requires
        entries_wf(es),
    ensures
        entries_wf(remove_path(es, p)),
{
    lemma_remove_path_elems(es, p);
    let r = remove_path(es, p);
    assert forall|i: int| 0 <= i < r.len() implies entry_wf(#[trigger] r[i]) by {
        assert(es.contains(r[i]));
        let j = choose|j: int| 0 <= j < es.len() && es[j] == r[i];
        assert(entry_wf(es[j]));
    }
}

/// Rewrite the ledger with every entry at `filename` replaced by `entry`.
/// An unreadable or empty ledger is reported, and left as it is.
#[verifier::loop_isolation(false)]
pub fn update_in_index(filename: &[u8], entry: &Entry, index: &mut Vec<u8>) -> (r: Option<()>)
    requires
        entry_wf(entry@),
    ensures
        match parse_index(old(index)@) {
            None => r is None && final(index)@ == old(index)@,
            Some(es) => if es.len() == 0 {
                r is None && final(index)@ == old(index)@
            } else {
                r is Some && final(index)@ == render_index(replace_path(es, filename@, entry@))
                    && parse_index(final(index)@) == Some(replace_path(es, filename@, entry@))
            },
        },
{
    let entries = match get_index_entries(index.as_slice()) {
        Some(es) => es,
        None => {
            return None;
        },
    };
    if entries.len() == 0 {
        proof {
            assert(entries.deep_view().len() == 0);
        }
        return None;
    }
    let ghost es = entries.deep_view();
    let mut out: Vec<Entry> = Vec::new();
    let mut i: usize = 0;
    while i < entries.len()
        invariant
            0 <= i <= entries@.len(),
            es == entries.deep_view(),
            out.deep_view() == replace_path(es, filename@, entry@).take(i as int),
        decreases entries@.len() - i,
    {
        proof {
            assert(es[i as int] == entries@[i as int]@);
        }
        let cur = &entries[i];
        let e2 = if bytes_eq(cur.path.as_slice(), filename) {
            entry.clone_entry()
        } else {
            cur.clone_entry()
        };
        let ghost old_out = out.deep_view();
        out.push(e2);
        proof {
            assert(out.deep_view() =~~= old_out.push(e2@));
            assert(replace_path(es, filename@, entry@).take(i as int + 1) =~~= replace_path(
                es,
                filename@,
                entry@,
            ).take(i as int).push(replace_path(es, filename@, entry@)[i as int]));
        }
        i = i + 1;
    }
    let rendered = render_index_bytes(&out);
    *index = rendered;
    proof {
        assert(replace_path(es, filename@, entry@).take(i as int) =~~= replace_path(
            es,
            filename@,
            entry@,
        ));
        lemma_parse_index_wf(old(index)@);
        lemma_replace_wf(es, filename@, entry@);
        lemma_index_round_trip(replace_path(es, filename@, entry@));
    }
    Some(())
}

/// Rewrite the ledger with every entry at `filename` dropped. Only an
/// unreadable ledger is reported; a missing path — in particular any path,
/// on an empty ledger — is filtered out without effect, not an error.
#[verifier::loop_isolation(false)]
pub fn remove_from_index(filename: &[u8], index: &mut Vec<u8>) -> (r: Option<()>)
    ensures
        match parse_index(old(index)@) {
            None => r is None && final(index)@ == old(index)@,
            Some(es) => r is Some && final(index)@ == render_index(remove_path(es, filename@))
                && parse_index(final(index)@) == Some(remove_path(es, filename@)),
        },
{
    let entries = match get_index_entries(index.as_slice()) {
        Some(es) => es,
        None => {
            return None;
        },
    };
    let ghost es = entries.deep_view();
    let mut out: Vec<Entry> = Vec::new();
    let mut i: usize = 0;
    while i < entries.len()
        invariant
            0 <= i <= entries@.len(),
            es == entries.deep_view(),
            out.deep_view() == remove_path(es.take(i as int), filename@),
        decreases entries@.len() - i,
    {
        proof {
            assert(es[i as int] == entries@[i as int]@);
            assert(es.take(i as int + 1) =~~= es.take(i as int).push(es[i as int]));
            lemma_remove_snoc(es.take(i as int), filename@, es[i as int]);
        }
        let cur = &entries[i];
        if !bytes_eq(cur.path.as_slice(), filename) {
            let ghost old_out = out.deep_view();
            out.push(cur.clone_entry());
            proof {
                assert(out.deep_view() =~~= old_out.push(es[i as int]));
            }
        }
        i = i + 1;
    }
    let rendered = render_index_bytes(&out);
    *index = rendered;
    proof {
        assert(es.take(i as int) =~~= es);
        lemma_parse_index_wf(old(index)@);
        lemma_remove_wf(es, filename@);
        lemma_index_round_trip(remove_path(es, filename@));
    }
    Some(())
}

/// Removal from a ledger extended at the end.
pub proof fn lemma_remove_snoc(es: Seq<EntryV>, p: Seq<u8>, e: EntryV)
    ensures
        remove_path(es.push(e), p) == if e.path == p {
            remove_path(es, p)
        } else {
            remove_path(es, p).push(e)
        },
    decreases es.len(),
{
    let s = es.push(e);
    if es.len() == 0 {
        assert(s[0] == e);
        assert(s.skip(1) =~~= Seq::<EntryV>::empty());
        if e.path == p {
        } else {
            assert(seq![e] + remove_path(Seq::<EntryV>::empty(), p) =~~= remove_path(
                Seq::<EntryV>::empty(),
                p,
            ).push(e));
        }
    } else {
        assert(s[0] == es[0]);
        assert(s.skip(1) =~~= es.skip(1).push(e));
        lemma_remove_snoc(es.skip(1), p, e);
        if es[0].path != p && e.path != p {
            assert(seq![es[0]] + remove_path(es.skip(1), p).push(e) =~~= (seq![es[0]]
                + remove_path(es.skip(1), p)).push(e));
        }
    }
}

/// Stage one path: replace its entry in place when present, append it
/// otherwise. This is the one write path into the ledger.
pub fn update_index(
    mode: GritMode,
    object_type: GritObjectType,
    oid: &[u8],
    filename: &[u8],
    index: &mut Vec<u8>,
) -> (r: Option<()>)
    requires
        field_wf(oid@),
        field_wf(filename@),
    ensures
        match parse_index(old(index)@) {
            None => r is None && final(index)@ == old(index)@,
            Some(es) => r is Some && parse_index(final(index)@) == Some(
                stage_entries(es, entry_of(mode, object_type, oid@, filename@)),
            ),
        },
{
    let entry = Entry {
        mode: mode_label_bytes(mode),
        kind: kind_label_bytes(object_type),
        oid: slice_to_vec(oid),
        path: slice_to_vec(filename),
    };
    proof {
        lemma_labels_wf(mode, object_type);
        assert(entry@ == entry_of(mode, object_type, oid@, filename@));
    }
    let exists = match exists_in_index(index.as_slice(), filename) {
        Some(b) => b,
        None => {
            return None;
        },
    };
    if exists {
        let r = update_in_index(filename, &entry, index);
        proof {
            let es = parse_index(old(index)@)->Some_0;
            lemma_lookup_path(es, filename@);
            assert(es.len() > 0);
        }
        r
    } else {
        let ghost es = parse_index(old(index)@)->Some_0;
        let ghost was_empty = index@.len() == 0;
        let r = append_to_index(&entry, index);
        proof {
            if was_empty {
                assert(parse_index(old(index)@) == Some(Seq::<EntryV>::empty())) by {
                    let lines = split_on(old(index)@, NL);
                    assert(lines =~~= seq![Seq::<u8>::empty()]);
                    assert(parse_lines(lines.skip(1)) == Some(Seq::<EntryV>::empty()));
                }
                assert(es =~= Seq::<EntryV>::empty());
                lemma_index_round_trip(seq![entry@]);
                assert(seq![entry@] =~= es.push(entry@));
            } else {
                lemma_parse_append(old(index)@, es, entry@);
            }
            assert(stage_entries(es, entry@) == es.push(entry@));
        }
        r
    }
}

/// Truncate the ledger to empty.
pub fn clear_index(index: &mut Vec<u8>) -> (r: Option<()>)
    ensures
        r is Some,
        final(index)@ == Seq::<u8>::empty(),
{
    let empty: Vec<u8> = Vec::new();
    *index = empty;
    proof {
        assert(final(index)@ =~= Seq::<u8>::empty());
    }
    Some(())
}

/// Stage a whole tree object under a directory name.
pub fn read_tree(directory_name: &[u8], oid: &[u8], index: &mut Vec<u8>) -> (r: Option<()>)
    requires
        field_wf(oid@),
        field_wf(directory_name@),
    ensures
        match parse_index(old(index)@) {
            None => r is None && final(index)@ == old(index)@,
            Some(es) => r is Some && parse_index(final(index)@) == Some(
                stage_entries(
                    es,
                    entry_of(GritMode::Normal, GritObjectType::Tree, oid@, directory_name@),
                ),
            ),
        },
{
    update_index(GritMode::Normal, GritObjectType::Tree, oid, directory_name, index)
}

} // verus!
