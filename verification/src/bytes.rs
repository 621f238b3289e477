//! Byte-sequence utilities: separators, splitting, decimal rendering, and
//! the fixed byte strings the repository formats are built from.
use vstd::prelude::*;

verus! {

/// Line separator in the index ledger and in commit bodies.
pub const NL: u8 = 10;

/// Field separator inside a ledger line and an object header.
pub const SP: u8 = 32;

/// Terminator of an object header.
pub const NUL: u8 = 0;

/// Index of the first occurrence of `sep` in `s`, or -1 if `sep` is absent.
pub open spec fn first_at(s: Seq<u8>, sep: u8) -> int
    decreases s.len(),
{
    if s.len() == 0 {
        -1
    } else if s[0] == sep {
        0
    } else if first_at(s.skip(1), sep) < 0 {
        -1
    } else {
        first_at(s.skip(1), sep) + 1
    }
}

pub proof fn lemma_first_at(s: Seq<u8>, sep: u8)
    ensures
        first_at(s, sep) >= 0 ==> 0 <= first_at(s, sep) < s.len() && s[first_at(s, sep)] == sep
            && forall|j: int| 0 <= j < first_at(s, sep) ==> s[j] != sep,
        first_at(s, sep) < 0 ==> forall|j: int| 0 <= j < s.len() ==> s[j] != sep,
    decreases s.len(),
{
    if s.len() > 0 && s[0] != sep {
        lemma_first_at(s.skip(1), sep);
        let r = first_at(s.skip(1), sep);
        if r >= 0 {
            assert(s[first_at(s, sep)] == s.skip(1)[r]);
            assert forall|j: int| 0 <= j < first_at(s, sep) implies s[j] != sep by {
                if j > 0 {
                    assert(s[j] == s.skip(1)[j - 1]);
                }
            }
        } else {
            assert forall|j: int| 0 <= j < s.len() implies s[j] != sep by {
                if j > 0 {
                    assert(s[j] == s.skip(1)[j - 1]);
                }
            }
        }
    }
}

/// Split `s` at every occurrence of `sep`; the result always holds at least
/// one token, and tokens keep their order.
pub open spec fn split_on(s: Seq<u8>, sep: u8) -> Seq<Seq<u8>>
    decreases s.len(),
{
    if s.len() == 0 {
        seq![Seq::<u8>::empty()]
    } else if s[0] == sep {
        seq![Seq::<u8>::empty()] + split_on(s.skip(1), sep)
    } else {
        let rest = split_on(s.skip(1), sep);
        seq![seq![s[0]] + rest[0]] + rest.skip(1)
    }
}

pub proof fn lemma_split_len(s: Seq<u8>, sep: u8)
    ensures
        split_on(s, sep).len() >= 1,
    decreases s.len(),
{
    if s.len() > 0 {
        lemma_split_len(s.skip(1), sep);
    }
}

/// A sequence without the separator splits into itself alone.
pub proof fn lemma_split_no_sep(s: Seq<u8>, sep: u8)
    requires
        forall|j: int| 0 <= j < s.len() ==> s[j] != sep,
    ensures
        split_on(s, sep) == seq![s],
    decreases s.len(),
{
    if s.len() == 0 {
        assert(split_on(s, sep) =~~= seq![s]);
    } else {
        lemma_split_no_sep(s.skip(1), sep);
        let rest = split_on(s.skip(1), sep);
        assert(seq![s[0]] + rest[0] =~= s);
        assert(rest.skip(1) =~~= Seq::<Seq<u8>>::empty());
        assert(split_on(s, sep) =~~= seq![s]);
    }
}

/// Splitting `a + [sep] + b` peels off `a` as the first token when `a` is
/// free of the separator.
pub proof fn lemma_split_token(a: Seq<u8>, b: Seq<u8>, sep: u8)
    requires
        forall|j: int| 0 <= j < a.len() ==> a[j] != sep,
    ensures
        split_on(a + seq![sep] + b, sep) == seq![a] + split_on(b, sep),
    decreases a.len(),
{
    let s = a + seq![sep] + b;
    if a.len() == 0 {
        assert(s[0] == sep);
        assert(s.skip(1) =~= b);
        assert(split_on(s, sep) =~~= seq![a] + split_on(b, sep));
    } else {
        assert(s[0] == a[0]);
        assert(s.skip(1) =~= a.skip(1) + seq![sep] + b);
        lemma_split_token(a.skip(1), b, sep);
        let rest = split_on(s.skip(1), sep);
        lemma_split_len(b, sep);
        assert(rest == seq![a.skip(1)] + split_on(b, sep));
        assert(rest[0] == a.skip(1));
        assert(seq![s[0]] + rest[0] =~= a);
        assert(rest.skip(1) =~~= split_on(b, sep));
        assert(split_on(s, sep) =~~= seq![a] + split_on(b, sep));
    }
}

/// A byte absent from `s` is absent from every token of the split.
pub proof fn lemma_split_preserves_absent(s: Seq<u8>, sep: u8, b: u8)
    requires
        forall|j: int| 0 <= j < s.len() ==> s[j] != b,
    ensures
        forall|t: int, j: int|
            0 <= t < split_on(s, sep).len() && 0 <= j < split_on(s, sep)[t].len()
                ==> split_on(s, sep)[t][j] != b,
    decreases s.len(),
{
    if s.len() > 0 {
        lemma_split_preserves_absent(s.skip(1), sep, b);
        if s[0] != sep {
            let rest = split_on(s.skip(1), sep);
            lemma_split_len(s.skip(1), sep);
            assert forall|t: int, j: int|
                0 <= t < split_on(s, sep).len() && 0 <= j < split_on(s, sep)[t].len()
                    implies split_on(s, sep)[t][j] != b by {
                if t == 0 {
                    if j == 0 {
                        assert(split_on(s, sep)[0][0] == s[0]);
                    } else {
                        assert(split_on(s, sep)[0][j] == rest[0][j - 1]);
                    }
                } else {
                    assert(split_on(s, sep)[t] == rest[t]);
                }
            }
        }
    }
}

/// Every token of a split is free of the separator.
pub proof fn lemma_split_tokens_free(s: Seq<u8>, sep: u8)
    ensures
        forall|t: int, j: int|
            0 <= t < split_on(s, sep).len() && 0 <= j < split_on(s, sep)[t].len()
                ==> split_on(s, sep)[t][j] != sep,
    decreases s.len(),
{
    if s.len() > 0 {
        lemma_split_tokens_free(s.skip(1), sep);
        let rest = split_on(s.skip(1), sep);
        lemma_split_len(s.skip(1), sep);
        if s[0] != sep {
            assert forall|t: int, j: int|
                0 <= t < split_on(s, sep).len() && 0 <= j < split_on(s, sep)[t].len()
                    implies split_on(s, sep)[t][j] != sep by {
                if t == 0 {
                    if j == 0 {
                        assert(split_on(s, sep)[0][0] == s[0]);
                    } else {
                        assert(split_on(s, sep)[0][j] == rest[0][j - 1]);
                    }
                } else {
                    assert(split_on(s, sep)[t] == rest[t]);
                }
            }
        }
    }
}

/// The first token of a split extended to the left.
pub open spec fn prepend_tok(c: Seq<u8>, parts: Seq<Seq<u8>>) -> Seq<Seq<u8>>
    recommends
        parts.len() >= 1,
{
    seq![c + parts[0]] + parts.skip(1)
}

/// Executable split of a byte slice at a separator, matching [`split_on`].
pub fn split_bytes(s: &[u8], sep: u8) -> (r: Vec<Vec<u8>>)
    ensures
        r.deep_view() == split_on(s@, sep),
{
    let ghost full = s@;
    let mut r: Vec<Vec<u8>> = Vec::new();
    let mut cur: Vec<u8> = Vec::new();
    let mut i: usize = 0;
    proof {
        assert(full.skip(0) =~= full);
        lemma_split_len(full, sep);
        assert(split_on(full, sep) =~~= r.deep_view() + prepend_tok(cur@, split_on(full.skip(0), sep)));
    }
    while i < s.len()
        invariant
            0 <= i <= s.len(),
            s@ == full,
            split_on(full, sep) =~~= r.deep_view() + prepend_tok(cur@, split_on(full.skip(i as int), sep)),
        decreases s.len() - i,
    {
        let ghost rest = full.skip(i as int);
        proof {
            assert(rest.len() > 0);
            assert(rest[0] == full[i as int]);
            assert(rest.skip(1) =~= full.skip(i as int + 1));
            lemma_split_len(full.skip(i as int + 1), sep);
        }
        if s[i] == sep {
            let ghost old_r = r.deep_view();
            let ghost old_cur = cur@;
            r.push(cur);
            cur = Vec::new();
            proof {
                assert(r.deep_view() =~~= old_r.push(old_cur));
                let p1 = split_on(full.skip(i as int + 1), sep);
                assert(split_on(rest, sep) == seq![Seq::<u8>::empty()] + p1);
                assert(prepend_tok(old_cur, split_on(rest, sep)) =~~= seq![old_cur] + p1);
                assert(prepend_tok(cur@, p1) =~~= p1);
                assert(old_r + (seq![old_cur] + p1) =~~= r.deep_view() + prepend_tok(cur@, p1));
            }
        } else {
            let ghost old_cur = cur@;
            cur.push(s[i]);
            proof {
                let p1 = split_on(full.skip(i as int + 1), sep);
                assert(split_on(rest, sep) == seq![seq![rest[0]] + p1[0]] + p1.skip(1));
                assert(prepend_tok(old_cur, split_on(rest, sep)) =~~= seq![old_cur + seq![rest[0]] + p1[0]] + p1.skip(1));
                assert(cur@ =~= old_cur + seq![rest[0]]);
                assert(prepend_tok(cur@, p1) =~~= seq![old_cur + seq![rest[0]] + p1[0]] + p1.skip(1));
            }
        }
        i = i + 1;
    }
    proof {
        assert(full.skip(i as int) =~= Seq::<u8>::empty());
        assert(prepend_tok(cur@, split_on(full.skip(i as int), sep)) =~~= seq![cur@]);
    }
    let ghost old_r = r.deep_view();
    let ghost last = cur@;
    r.push(cur);
    proof {
        assert(r.deep_view() =~~= old_r.push(last));
        assert(old_r + seq![last] =~~= old_r.push(last));
    }
    r
}

/// Decimal rendering of a natural number, most significant digit first.
pub open spec fn dec_digits(n: nat) -> Seq<u8>
    decreases n,
{
    if n < 10 {
        seq![(48 + n) as u8]
    } else {
        dec_digits(n / 10) + seq![(48 + n % 10) as u8]
    }
}

pub proof fn lemma_dec_digits_are_digits(n: nat)
    ensures
        forall|j: int| 0 <= j < dec_digits(n).len() ==> 48 <= #[trigger] dec_digits(n)[j] <= 57,
    decreases n,
{
    if n >= 10 {
        lemma_dec_digits_are_digits(n / 10);
        let inner = dec_digits(n / 10);
        assert forall|j: int| 0 <= j < dec_digits(n).len() implies 48 <= #[trigger] dec_digits(n)[j]
            <= 57 by {
            if j < inner.len() {
                assert(dec_digits(n)[j] == inner[j]);
            } else {
                assert(dec_digits(n)[j] == (48 + n % 10) as u8);
            }
        }
    }
}

/// Executable decimal rendering, matching [`dec_digits`].
pub fn usize_to_dec(n: usize) -> (r: Vec<u8>)
    ensures
        r@ == dec_digits(n as nat),
{
    let mut m: usize = n;
    let mut tmp: Vec<u8> = Vec::new();
    proof {
        assert(tmp@.reverse() =~= Seq::<u8>::empty());
        assert(dec_digits(n as nat) =~= dec_digits(m as nat) + tmp@.reverse());
    }
    while m >= 10
        invariant
            dec_digits(n as nat) == dec_digits(m as nat) + tmp@.reverse(),
        decreases m,
    {
        let ghost m0 = m as nat;
        let d: u8 = (48 + (m % 10)) as u8;
        let ghost old_tmp = tmp@;
        tmp.push(d);
        m = m / 10;
        proof {
            assert(m as nat == m0 / 10);
            assert(d == (48 + m0 % 10) as u8);
            assert(dec_digits(m0) == dec_digits(m0 / 10) + seq![(48 + m0 % 10) as u8]);
            assert(tmp@.reverse() =~= seq![d] + old_tmp.reverse());
            assert(dec_digits(m as nat) + seq![d] + old_tmp.reverse() =~= dec_digits(m as nat) + (
            seq![d] + old_tmp.reverse()));
        }
    }
    let mut r: Vec<u8> = Vec::new();
    r.push((48 + m) as u8);
    let mut k: usize = tmp.len();
    proof {
        assert(r@ =~= dec_digits(m as nat));
        assert(tmp@.skip(k as int).reverse() =~= Seq::<u8>::empty());
        assert(r@ =~= dec_digits(m as nat) + tmp@.skip(k as int).reverse());
    }
    while k > 0
        invariant
            0 <= k <= tmp@.len(),
            r@ == dec_digits(m as nat) + tmp@.skip(k as int).reverse(),
        decreases k,
    {
        k = k - 1;
        let ghost old_r = r@;
        r.push(tmp[k]);
        proof {
            assert(tmp@.skip(k as int).reverse() =~= tmp@.skip(k as int + 1).reverse() + seq![tmp@[k as int]]);
            assert(r@ =~= dec_digits(m as nat) + tmp@.skip(k as int).reverse());
        }
    }
    proof {
        assert(tmp@.skip(0).reverse() =~= tmp@.reverse());
    }
    r
}

/// Executable equality of byte strings.
pub fn bytes_eq(a: &[u8], b: &[u8]) -> (r: bool)
    ensures
        r == (a@ == b@),
{
    if a.len() != b.len() {
        proof {
            assert(a@ != b@);
        }
        return false;
    }
    let mut i: usize = 0;
    while i < a.len()
        invariant
            0 <= i <= a@.len(),
            a@.len() == b@.len(),
            forall|j: int| 0 <= j < i ==> a@[j] == b@[j],
        decreases a@.len() - i,
    {
        if a[i] != b[i] {
            proof {
                assert(a@ != b@);
            }
            return false;
        }
        i = i + 1;
    }
    proof {
        assert(a@ =~= b@);
    }
    true
}

/// Executable prefix test: does `s` begin with `p`?
pub fn bytes_starts_with(s: &[u8], p: &[u8]) -> (r: bool)
    ensures
        r == p@.is_prefix_of(s@),
{
    if p.len() > s.len() {
        return false;
    }
    let mut i: usize = 0;
    while i < p.len()
        invariant
            0 <= i <= p@.len(),
            p@.len() <= s@.len(),
            forall|j: int| 0 <= j < i ==> s@[j] == p@[j],
        decreases p@.len() - i,
    {
        if s[i] != p[i] {
            proof {
                assert(s@[i as int] != p@[i as int]);
                assert(!p@.is_prefix_of(s@));
            }
            return false;
        }
        i = i + 1;
    }
    proof {
        assert(p@ =~= s@.subrange(0, p@.len() as int));
    }
    true
}

/// Append a whole slice to a byte vector.
pub fn push_all(v: &mut Vec<u8>, s: &[u8])
    ensures
        final(v)@ == old(v)@ + s@,
{
    let mut i: usize = 0;
    while i < s.len()
        invariant
            0 <= i <= s@.len(),
            v@ == old(v)@ + s@.take(i as int),
        decreases s@.len() - i,
    {
        let ghost old_v = v@;
        v.push(s[i]);
        proof {
            assert(s@.take(i as int + 1) =~= s@.take(i as int).push(s@[i as int]));
            assert(old_v.push(s@[i as int]) =~= old(v)@ + s@.take(i as int + 1));
        }
        i = i + 1;
    }
    proof {
        assert(s@.take(i as int) =~= s@);
    }
}

/// Lexicographic order on byte strings, with the shorter string first
/// among strings that agree on their common prefix.
pub open spec fn bytes_le(a: Seq<u8>, b: Seq<u8>) -> bool
    decreases a.len(),
{
    if a.len() == 0 {
        true
    } else if b.len() == 0 {
        false
    } else if a[0] < b[0] {
        true
    } else if a[0] > b[0] {
        false
    } else {
        bytes_le(a.skip(1), b.skip(1))
    }
}

pub proof fn lemma_bytes_le_total(a: Seq<u8>, b: Seq<u8>)
    ensures
        bytes_le(a, b) || bytes_le(b, a),
        (bytes_le(a, b) && bytes_le(b, a)) ==> a == b,
    decreases a.len(),
{
    if a.len() > 0 && b.len() > 0 && a[0] == b[0] {
        lemma_bytes_le_total(a.skip(1), b.skip(1));
        if bytes_le(a, b) && bytes_le(b, a) {
            assert(bytes_le(a.skip(1), b.skip(1)));
            assert(bytes_le(b.skip(1), a.skip(1)));
            assert(a.skip(1) == b.skip(1));
            assert forall|j: int| 0 <= j < a.len() implies a[j] == b[j] by {
                if j > 0 {
                    assert(a[j] == a.skip(1)[j - 1]);
                    assert(b[j] == b.skip(1)[j - 1]);
                }
            }
            assert(a =~= b);
        }
    }
}

pub proof fn lemma_bytes_le_trans(a: Seq<u8>, b: Seq<u8>, c: Seq<u8>)
    requires
        bytes_le(a, b),
        bytes_le(b, c),
    ensures
        bytes_le(a, c),
    decreases a.len(),
{
    if a.len() > 0 && b.len() > 0 && c.len() > 0 && a[0] == b[0] && b[0] == c[0] {
        lemma_bytes_le_trans(a.skip(1), b.skip(1), c.skip(1));
    }
}

/// Executable comparison matching [`bytes_le`].
pub fn bytes_le_exec(a: &[u8], b: &[u8]) -> (r: bool)
    ensures
        r == bytes_le(a@, b@),
{
    let mut i: usize = 0;
    proof {
        assert(a@.skip(0) =~= a@);
        assert(b@.skip(0) =~= b@);
    }
    while i < a.len() && i < b.len()
        invariant
            0 <= i <= a@.len(),
            0 <= i <= b@.len(),
            forall|j: int| 0 <= j < i ==> a@[j] == b@[j],
            bytes_le(a@, b@) == bytes_le(a@.skip(i as int), b@.skip(i as int)),
        decreases a@.len() - i,
    {
        let ghost ar = a@.skip(i as int);
        let ghost br = b@.skip(i as int);
        proof {
            assert(ar[0] == a@[i as int]);
            assert(br[0] == b@[i as int]);
            assert(ar.skip(1) =~= a@.skip(i as int + 1));
            assert(br.skip(1) =~= b@.skip(i as int + 1));
        }
        if a[i] < b[i] {
            return true;
        }
        if a[i] > b[i] {
            return false;
        }
        i = i + 1;
    }
    proof {
        if i >= a@.len() {
            assert(a@.skip(i as int).len() == 0);
        } else {
            assert(b@.skip(i as int).len() == 0);
            assert(a@.skip(i as int).len() > 0);
        }
    }
    i >= a.len()
}

/// The bytes of `"blob"`.
pub open spec fn blob_kind() -> Seq<u8> {
    seq![98u8, 108, 111, 98]
}

pub fn blob_kind_bytes() -> (r: Vec<u8>)
    ensures
        r@ == blob_kind(),
{
    let mut v: Vec<u8> = Vec::new();
    v.push(98);
    v.push(108);
    v.push(111);
    v.push(98);
    proof {
        assert(v@ =~= blob_kind());
    }
    v
}

/// The bytes of `"tree"`.
pub open spec fn tree_kind() -> Seq<u8> {
    seq![116u8, 114, 101, 101]
}

pub fn tree_kind_bytes() -> (r: Vec<u8>)
    ensures
        r@ == tree_kind(),
{
    let mut v: Vec<u8> = Vec::new();
    v.push(116);
    v.push(114);
    v.push(101);
    v.push(101);
    proof {
        assert(v@ =~= tree_kind());
    }
    v
}

/// The bytes of `"commit"`.
pub open spec fn commit_kind() -> Seq<u8> {
    seq![99u8, 111, 109, 109, 105, 116]
}

pub fn commit_kind_bytes() -> (r: Vec<u8>)
    ensures
        r@ == commit_kind(),
{
    let mut v: Vec<u8> = Vec::new();
    v.push(99);
    v.push(111);
    v.push(109);
    v.push(109);
    v.push(105);
    v.push(116);
    proof {
        assert(v@ =~= commit_kind());
    }
    v
}

/// The bytes of `"100644"`.
pub open spec fn mode_normal() -> Seq<u8> {
    seq![49u8, 48, 48, 54, 52, 52]
}

pub fn mode_normal_bytes() -> (r: Vec<u8>)
    ensures
        r@ == mode_normal(),
{
    let mut v: Vec<u8> = Vec::new();
    v.push(49);
    v.push(48);
    v.push(48);
    v.push(54);
    v.push(52);
    v.push(52);
    proof {
        assert(v@ =~= mode_normal());
    }
    v
}

/// The bytes of `"100755"`.
pub open spec fn mode_executable() -> Seq<u8> {
    seq![49u8, 48, 48, 55, 53, 53]
}

pub fn mode_executable_bytes() -> (r: Vec<u8>)
    ensures
        r@ == mode_executable(),
{
    let mut v: Vec<u8> = Vec::new();
    v.push(49);
    v.push(48);
    v.push(48);
    v.push(55);
    v.push(53);
    v.push(53);
    proof {
        assert(v@ =~= mode_executable());
    }
    v
}

/// The bytes of `"120000"`.
pub open spec fn mode_symlink() -> Seq<u8> {
    seq![49u8, 50, 48, 48, 48, 48]
}

pub fn mode_symlink_bytes() -> (r: Vec<u8>)
    ensures
        r@ == mode_symlink(),
{
    let mut v: Vec<u8> = Vec::new();
    v.push(49);
    v.push(50);
    v.push(48);
    v.push(48);
    v.push(48);
    v.push(48);
    proof {
        assert(v@ =~= mode_symlink());
    }
    v
}

/// The bytes of `"ref: refs/heads/main"`.
pub open spec fn head_init() -> Seq<u8> {
    seq![114u8, 101, 102, 58, 32, 114, 101, 102, 115, 47, 104, 101, 97, 100, 115, 47, 109, 97, 105, 110]
}

pub fn head_init_bytes() -> (r: Vec<u8>)
    ensures
        r@ == head_init(),
{
    let mut v: Vec<u8> = Vec::new();
    v.push(114);
    v.push(101);
    v.push(102);
    v.push(58);
    v.push(32);
    v.push(114);
    v.push(101);
    v.push(102);
    v.push(115);
    v.push(47);
    v.push(104);
    v.push(101);
    v.push(97);
    v.push(100);
    v.push(115);
    v.push(47);
    v.push(109);
    v.push(97);
    v.push(105);
    v.push(110);
    proof {
        assert(v@ =~= head_init());
    }
    v
}

/// The bytes of `"refs/heads/main"`.
pub open spec fn main_ref_path() -> Seq<u8> {
    seq![114u8, 101, 102, 115, 47, 104, 101, 97, 100, 115, 47, 109, 97, 105, 110]
}

pub fn main_ref_path_bytes() -> (r: Vec<u8>)
    ensures
        r@ == main_ref_path(),
{
    let mut v: Vec<u8> = Vec::new();
    v.push(114);
    v.push(101);
    v.push(102);
    v.push(115);
    v.push(47);
    v.push(104);
    v.push(101);
    v.push(97);
    v.push(100);
    v.push(115);
    v.push(47);
    v.push(109);
    v.push(97);
    v.push(105);
    v.push(110);
    proof {
        assert(v@ =~= main_ref_path());
    }
    v
}

/// The bytes of `"refs/heads/"`.
pub open spec fn refs_heads_prefix() -> Seq<u8> {
    seq![114u8, 101, 102, 115, 47, 104, 101, 97, 100, 115, 47]
}

pub fn refs_heads_prefix_bytes() -> (r: Vec<u8>)
    ensures
        r@ == refs_heads_prefix(),
{
    let mut v: Vec<u8> = Vec::new();
    v.push(114);
    v.push(101);
    v.push(102);
    v.push(115);
    v.push(47);
    v.push(104);
    v.push(101);
    v.push(97);
    v.push(100);
    v.push(115);
    v.push(47);
    proof {
        assert(v@ =~= refs_heads_prefix());
    }
    v
}

/// The bytes of `"parent "`.
pub open spec fn parent_label() -> Seq<u8> {
    seq![112u8, 97, 114, 101, 110, 116, 32]
}

pub fn parent_label_bytes() -> (r: Vec<u8>)
    ensures
        r@ == parent_label(),
{
    let mut v: Vec<u8> = Vec::new();
    v.push(112);
    v.push(97);
    v.push(114);
    v.push(101);
    v.push(110);
    v.push(116);
    v.push(32);
    proof {
        assert(v@ =~= parent_label());
    }
    v
}

/// The bytes of `"tree "`.
pub open spec fn tree_label() -> Seq<u8> {
    seq![116u8, 114, 101, 101, 32]
}

pub fn tree_label_bytes() -> (r: Vec<u8>)
    ensures
        r@ == tree_label(),
{
    let mut v: Vec<u8> = Vec::new();
    v.push(116);
    v.push(114);
    v.push(101);
    v.push(101);
    v.push(32);
    proof {
        assert(v@ =~= tree_label());
    }
    v
}

/// The bytes of `"author "`.
pub open spec fn author_label() -> Seq<u8> {
    seq![97u8, 117, 116, 104, 111, 114, 32]
}

pub fn author_label_bytes() -> (r: Vec<u8>)
    ensures
        r@ == author_label(),
{
    let mut v: Vec<u8> = Vec::new();
    v.push(97);
    v.push(117);
    v.push(116);
    v.push(104);
    v.push(111);
    v.push(114);
    v.push(32);
    proof {
        assert(v@ =~= author_label());
    }
    v
}

/// The bytes of `"committer "`.
pub open spec fn committer_label() -> Seq<u8> {
    seq![99u8, 111, 109, 109, 105, 116, 116, 101, 114, 32]
}

pub fn committer_label_bytes() -> (r: Vec<u8>)
    ensures
        r@ == committer_label(),
{
    let mut v: Vec<u8> = Vec::new();
    v.push(99);
    v.push(111);
    v.push(109);
    v.push(109);
    v.push(105);
    v.push(116);
    v.push(116);
    v.push(101);
    v.push(114);
    v.push(32);
    proof {
        assert(v@ =~= committer_label());
    }
    v
}

/// The bytes of `"date "`.
pub open spec fn date_label() -> Seq<u8> {
    seq![100u8, 97, 116, 101, 32]
}

pub fn date_label_bytes() -> (r: Vec<u8>)
    ensures
        r@ == date_label(),
{
    let mut v: Vec<u8> = Vec::new();
    v.push(100);
    v.push(97);
    v.push(116);
    v.push(101);
    v.push(32);
    proof {
        assert(v@ =~= date_label());
    }
    v
}

/// The bytes of `"Bhekani Khumalo"`.
pub open spec fn author_name() -> Seq<u8> {
    seq![66u8, 104, 101, 107, 97, 110, 105, 32, 75, 104, 117, 109, 97, 108, 111]
}

pub fn author_name_bytes() -> (r: Vec<u8>)
    ensures
        r@ == author_name(),
{
    let mut v: Vec<u8> = Vec::new();
    v.push(66);
    v.push(104);
    v.push(101);
    v.push(107);
    v.push(97);
    v.push(110);
    v.push(105);
    v.push(32);
    v.push(75);
    v.push(104);
    v.push(117);
    v.push(109);
    v.push(97);
    v.push(108);
    v.push(111);
    proof {
        assert(v@ =~= author_name());
    }
    v
}


} // verus!
