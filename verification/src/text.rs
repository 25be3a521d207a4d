//! Byte-level text utilities: whitespace, trimming, searching, joining.
//!
//! Documents are byte sequences; all size accounting is in bytes.

use vstd::prelude::*;
use vstd::string::StrSliceExecFns;
use vstd::string::StringSliceAdditionalSpecFns;

verus! {

/// ASCII whitespace: space, tab, line feed, carriage return.
pub open spec fn is_ws(b: u8) -> bool {
    b == 32 || b == 9 || b == 10 || b == 13
}

/// The subsequence of non-whitespace bytes of a text, in order.
pub open spec fn non_ws(s: Seq<u8>) -> Seq<u8> {
    s.filter(|b: u8| !is_ws(b))
}

/// Every byte of the text is whitespace.
pub open spec fn all_ws(s: Seq<u8>) -> bool {
    forall|i: int| 0 <= i < s.len() ==> is_ws(s[i])
}

/// The non-whitespace bytes of a sequence of pieces, concatenated in order.
pub open spec fn non_ws_of_all(ps: Seq<Seq<u8>>) -> Seq<u8>
    decreases ps.len(),
{
    if ps.len() == 0 {
        Seq::empty()
    } else {
        non_ws(ps.first()) + non_ws_of_all(ps.drop_first())
    }
}

/// `needle` occurs contiguously somewhere in `hay`.
pub open spec fn contains_seq(hay: Seq<u8>, needle: Seq<u8>) -> bool {
    exists|k: int|
        0 <= k && k + needle.len() <= hay.len() && #[trigger] hay.subrange(k, k + needle.len())
            == needle
}

/// `pre` is a prefix of `s`.
pub open spec fn starts_with(s: Seq<u8>, pre: Seq<u8>) -> bool {
    pre.len() <= s.len() && s.subrange(0, pre.len() as int) == pre
}

/// The text with leading whitespace removed.
pub open spec fn trim_front(s: Seq<u8>) -> Seq<u8>
    decreases s.len(),
{
    if s.len() > 0 && is_ws(s.first()) {
        trim_front(s.drop_first())
    } else {
        s
    }
}

/// The text with trailing whitespace removed.
pub open spec fn trim_back(s: Seq<u8>) -> Seq<u8>
    decreases s.len(),
{
    if s.len() > 0 && is_ws(s.last()) {
        trim_back(s.drop_last())
    } else {
        s
    }
}

/// The text with leading and trailing whitespace removed.
pub open spec fn trim_spec(s: Seq<u8>) -> Seq<u8> {
    trim_back(trim_front(s))
}

/// The pieces joined with a blank line (two line feeds) between them.
pub open spec fn join_blank(ps: Seq<Seq<u8>>) -> Seq<u8>
    decreases ps.len(),
{
    if ps.len() == 0 {
        Seq::empty()
    } else if ps.len() == 1 {
        ps.first()
    } else {
        ps.first() + seq![10u8, 10u8] + join_blank(ps.drop_first())
    }
}

/// Chunker round trip, join side: rejoining pieces with blank-line
/// separators preserves exactly their non-whitespace bytes, in order. With
/// the chunker's own guarantee, chunks joined this way reproduce the
/// document's non-whitespace content.
pub proof fn lemma_join_blank_non_ws(ps: Seq<Seq<u8>>)
    ensures
        non_ws(join_blank(ps)) == non_ws_of_all(ps),
    decreases ps.len(),
{
    reveal(Seq::filter);
    if ps.len() == 0 {
        assert(non_ws(join_blank(ps)) =~= non_ws_of_all(ps));
    } else if ps.len() == 1 {
        assert(ps.drop_first().len() == 0);
        assert(non_ws_of_all(ps.drop_first()) == Seq::<u8>::empty());
        assert(non_ws(join_blank(ps)) =~= non_ws_of_all(ps));
    } else {
        lemma_join_blank_non_ws(ps.drop_first());
        assert(join_blank(ps) == ps.first() + seq![10u8, 10u8] + join_blank(ps.drop_first()));
        lemma_non_ws_concat(ps.first() + seq![10u8, 10u8], join_blank(ps.drop_first()));
        lemma_non_ws_concat(ps.first(), seq![10u8, 10u8]);
        lemma_non_ws_all_ws(seq![10u8, 10u8]);
        assert(non_ws(seq![10u8, 10u8]) =~= Seq::<u8>::empty());
        assert(non_ws(ps.first()) + Seq::<u8>::empty() + non_ws_of_all(ps.drop_first())
            =~= non_ws(ps.first()) + non_ws_of_all(ps.drop_first()));
    }
}

pub proof fn lemma_non_ws_concat(a: Seq<u8>, b: Seq<u8>)
    ensures
        non_ws(a + b) == non_ws(a) + non_ws(b),
{
    Seq::filter_distributes_over_add(a, b, |x: u8| !is_ws(x));
}

pub proof fn lemma_non_ws_all_ws(s: Seq<u8>)
    ensures
        non_ws(s).len() == 0 <==> all_ws(s),
    decreases s.len(),
{
    reveal(Seq::filter);
    if s.len() > 0 {
        lemma_non_ws_all_ws(s.drop_last());
        if all_ws(s) {
            assert(all_ws(s.drop_last()));
        }
        if non_ws(s).len() == 0 {
            assert(is_ws(s.last()));
            assert forall|i: int| 0 <= i < s.len() implies is_ws(s[i]) by {
                if i < s.len() - 1 {
                    assert(s.drop_last()[i] == s[i]);
                }
            }
        }
    }
}

/// Pushing a piece onto a list of pieces appends its non-whitespace bytes.
pub proof fn lemma_non_ws_of_all_push(ps: Seq<Seq<u8>>, p: Seq<u8>)
    ensures
        non_ws_of_all(ps.push(p)) == non_ws_of_all(ps) + non_ws(p),
    decreases ps.len(),
{
    if ps.len() == 0 {
        assert(ps.push(p).drop_first() =~= Seq::<Seq<u8>>::empty());
        assert(ps.push(p).first() == p);
        assert(non_ws_of_all(Seq::<Seq<u8>>::empty()) == Seq::<u8>::empty());
        assert(non_ws_of_all(ps.push(p)) =~= non_ws(p));
        assert(non_ws_of_all(ps) + non_ws(p) =~= non_ws(p));
    } else {
        assert(ps.push(p).drop_first() =~= ps.drop_first().push(p));
        lemma_non_ws_of_all_push(ps.drop_first(), p);
        assert(non_ws_of_all(ps.push(p)) == non_ws(ps.first()) + (non_ws_of_all(ps.drop_first())
            + non_ws(p)));
        assert(non_ws(ps.first()) + (non_ws_of_all(ps.drop_first()) + non_ws(p)) =~= (non_ws(
            ps.first(),
        ) + non_ws_of_all(ps.drop_first())) + non_ws(p));
    }
}

/// Trimming a text does not change its non-whitespace bytes.
pub proof fn lemma_trim_front_non_ws(s: Seq<u8>)
    ensures
        non_ws(trim_front(s)) == non_ws(s),
        trim_front(s).len() <= s.len(),
    decreases s.len(),
{
    if s.len() > 0 && is_ws(s.first()) {
        lemma_trim_front_non_ws(s.drop_first());
        assert(s =~= seq![s.first()] + s.drop_first());
        lemma_non_ws_concat(seq![s.first()], s.drop_first());
        reveal_with_fuel(Seq::filter, 2);
        assert(seq![s.first()].drop_last() =~= Seq::<u8>::empty());
        assert(non_ws(seq![s.first()]) =~= Seq::<u8>::empty());
        assert(non_ws(s) =~= non_ws(s.drop_first()));
    }
}

pub proof fn lemma_trim_back_non_ws(s: Seq<u8>)
    ensures
        non_ws(trim_back(s)) == non_ws(s),
        trim_back(s).len() <= s.len(),
    decreases s.len(),
{
    if s.len() > 0 && is_ws(s.last()) {
        lemma_trim_back_non_ws(s.drop_last());
        reveal(Seq::filter);
        assert(non_ws(s) =~= non_ws(s.drop_last()));
    }
}

pub proof fn lemma_trim_non_ws(s: Seq<u8>)
    ensures
        non_ws(trim_spec(s)) == non_ws(s),
        trim_spec(s).len() <= s.len(),
{
    lemma_trim_front_non_ws(s);
    lemma_trim_back_non_ws(trim_front(s));
}

/// A non-empty front trim starts with a non-whitespace byte.
pub proof fn lemma_trim_front_first(s: Seq<u8>)
    ensures
        trim_front(s).len() > 0 ==> !is_ws(trim_front(s).first()),
    decreases s.len(),
{
    if s.len() > 0 && is_ws(s.first()) {
        lemma_trim_front_first(s.drop_first());
    }
}

/// A non-empty back trim ends with a non-whitespace byte.
pub proof fn lemma_trim_back_last(s: Seq<u8>)
    ensures
        trim_back(s).len() > 0 ==> !is_ws(trim_back(s).last()),
    decreases s.len(),
{
    if s.len() > 0 && is_ws(s.last()) {
        lemma_trim_back_last(s.drop_last());
    }
}

/// The contents of a list of byte vectors, as byte sequences.
pub open spec fn views_of(vs: Seq<Vec<u8>>) -> Seq<Seq<u8>> {
    vs.map_values(|t: Vec<u8>| t@)
}

pub proof fn lemma_views_of_push(vs: Seq<Vec<u8>>, x: Vec<u8>)
    ensures
        views_of(vs.push(x)) == views_of(vs).push(x@),
{
    assert(views_of(vs.push(x)) =~= views_of(vs).push(x@));
}

pub proof fn lemma_non_ws_of_all_concat(a: Seq<Seq<u8>>, b: Seq<Seq<u8>>)
    ensures
        non_ws_of_all(a + b) == non_ws_of_all(a) + non_ws_of_all(b),
    decreases a.len(),
{
    if a.len() == 0 {
        assert(a + b =~= b);
        assert(non_ws_of_all(a) + non_ws_of_all(b) =~= non_ws_of_all(b));
    } else {
        assert((a + b).first() == a.first());
        assert((a + b).drop_first() =~= a.drop_first() + b);
        lemma_non_ws_of_all_concat(a.drop_first(), b);
        assert(non_ws(a.first()) + (non_ws_of_all(a.drop_first()) + non_ws_of_all(b)) =~= (non_ws(
            a.first(),
        ) + non_ws_of_all(a.drop_first())) + non_ws_of_all(b));
    }
}

/// Trimming the back of a text keeps its first byte.
pub proof fn lemma_trim_back_first(s: Seq<u8>)
    ensures
        trim_back(s).len() > 0 ==> trim_back(s).first() == s.first(),
    decreases s.len(),
{
    if s.len() > 0 && is_ws(s.last()) {
        lemma_trim_back_first(s.drop_last());
    }
}

/// A non-empty trimmed text neither starts nor ends with whitespace.
pub proof fn lemma_trim_ends(s: Seq<u8>)
    ensures
        trim_spec(s).len() > 0 ==> !is_ws(trim_spec(s).first()) && !is_ws(trim_spec(s).last()),
{
    lemma_trim_back_last(trim_front(s));
    lemma_trim_back_first(trim_front(s));
    lemma_trim_front_first(s);
}

/// If the first `k` bytes are whitespace and byte `k` (if any) is not,
/// trimming the front removes exactly those `k` bytes.
pub proof fn lemma_trim_front_subrange(s: Seq<u8>, k: int)
    requires
        0 <= k <= s.len(),
        forall|i: int| 0 <= i < k ==> is_ws(s[i]),
        k == s.len() || !is_ws(s[k]),
    ensures
        trim_front(s) == s.subrange(k, s.len() as int),
    decreases k,
{
    if k == 0 {
        if s.len() == 0 || !is_ws(s.first()) {
            assert(trim_front(s) =~= s.subrange(0, s.len() as int));
        }
    } else {
        let t = s.drop_first();
        lemma_trim_front_subrange(t, k - 1);
        assert(trim_front(s) == trim_front(t));
        assert(t.subrange(k - 1, t.len() as int) =~= s.subrange(k, s.len() as int));
    }
}

/// If the bytes from `k` on are whitespace and byte `k - 1` (if any) is not,
/// trimming the back keeps exactly the first `k` bytes.
pub proof fn lemma_trim_back_subrange(s: Seq<u8>, k: int)
    requires
        0 <= k <= s.len(),
        forall|i: int| k <= i < s.len() ==> is_ws(s[i]),
        k == 0 || !is_ws(s[k - 1]),
    ensures
        trim_back(s) == s.subrange(0, k),
    decreases s.len() - k,
{
    if k == s.len() {
        if s.len() == 0 || !is_ws(s.last()) {
            assert(trim_back(s) =~= s.subrange(0, k));
        } else {
            let t = s.drop_last();
            lemma_trim_back_subrange(t, k - 1);
            assert(trim_back(s) == trim_back(t));
            assert(t.subrange(0, k - 1) =~= s.subrange(0, k - 1));
            assert(false);
        }
    } else {
        assert(is_ws(s.last()));
        let t = s.drop_last();
        lemma_trim_back_subrange(t, k);
        assert(trim_back(s) == trim_back(t));
        assert(t.subrange(0, k) =~= s.subrange(0, k));
    }
}

pub proof fn lemma_contains_extend_right(hay: Seq<u8>, ext: Seq<u8>, needle: Seq<u8>)
    requires
        contains_seq(hay, needle),
    ensures
        contains_seq(hay + ext, needle),
{
    let k = choose|k: int|
        0 <= k && k + needle.len() <= hay.len() && #[trigger] hay.subrange(k, k + needle.len())
            == needle;
    assert((hay + ext).subrange(k, k + needle.len() as int) =~= hay.subrange(
        k,
        k + needle.len() as int,
    ));
}

pub proof fn lemma_contains_extend_left(pre: Seq<u8>, hay: Seq<u8>, needle: Seq<u8>)
    requires
        contains_seq(hay, needle),
    ensures
        contains_seq(pre + hay, needle),
{
    let k = choose|k: int|
        0 <= k && k + needle.len() <= hay.len() && #[trigger] hay.subrange(k, k + needle.len())
            == needle;
    let j = pre.len() as int + k;
    assert((pre + hay).subrange(j, j + needle.len() as int) =~= hay.subrange(
        k,
        k + needle.len() as int,
    ));
}

pub proof fn lemma_contains_subrange(s: Seq<u8>, i: int, j: int)
    requires
        0 <= i <= j <= s.len(),
    ensures
        contains_seq(s, s.subrange(i, j)),
{
    assert(s.subrange(i, i + s.subrange(i, j).len() as int) == s.subrange(i, j));
}

pub proof fn lemma_contains_self(s: Seq<u8>)
    ensures
        contains_seq(s, s),
{
    assert(s.subrange(0, 0 + s.len() as int) =~= s);
}

/// The bytes of an ASCII character sequence, one byte per character.
pub open spec fn bytes_of_ascii(s: Seq<char>) -> Seq<u8> {
    Seq::new(s.len(), |i: int| s[i] as u8)
}

/// The UTF-8 bytes of an ASCII text.
pub fn ascii_bytes(s: &str) -> (r: Vec<u8>)
    requires
        s.is_ascii(),
    ensures
        r@ == bytes_of_ascii(s@),
{
    proof {
        vstd::string::is_ascii_spec_bytes(s);
        assert(s.spec_bytes() =~= bytes_of_ascii(s@));
    }
    s.as_bytes_vec()
}

/// The decimal digits of a number, most significant first.
pub open spec fn decimal_of(n: nat) -> Seq<u8>
    decreases n,
{
    if n < 10 {
        seq![(48 + n) as u8]
    } else {
        decimal_of(n / 10).push((48 + (n % 10)) as u8)
    }
}

/// Render a number in decimal.
pub fn u64_to_decimal(n: u64) -> (r: Vec<u8>)
    ensures
        r@ == decimal_of(n as nat),
    decreases n,
{
    if n < 10 {
        let mut v: Vec<u8> = Vec::new();
        v.push(48 + (n as u8));
        proof {
            assert(v@ =~= decimal_of(n as nat));
        }
        v
    } else {
        let mut v = u64_to_decimal(n / 10);
        v.push(48 + ((n % 10) as u8));
        v
    }
}

/// Render a number in decimal.
pub fn usize_to_decimal(n: usize) -> (r: Vec<u8>)
    ensures
        r@ == decimal_of(n as nat),
{
    u64_to_decimal(n as u64)
}

/// The decimal digits of a signed number, with a leading minus sign when
/// it is negative.
pub open spec fn decimal_of_i64(n: int) -> Seq<u8> {
    if n < 0 {
        seq![45u8] + decimal_of((-n) as nat)
    } else {
        decimal_of(n as nat)
    }
}

/// Render a signed number in decimal.
pub fn i64_to_decimal(n: i64) -> (r: Vec<u8>)
    ensures
        r@ == decimal_of_i64(n as int),
{
    if n >= 0 {
        u64_to_decimal(n as u64)
    } else {
        let m: u64 = (-(n as i128)) as u64;
        let mut v: Vec<u8> = Vec::new();
        v.push(45);
        let digits = u64_to_decimal(m);
        push_all(&mut v, digits.as_slice());
        proof {
            assert(v@ =~= decimal_of_i64(n as int));
        }
        v
    }
}

/// A copy of a byte vector.
pub fn copy_bytes(v: &Vec<u8>) -> (r: Vec<u8>)
    ensures
        r@ == v@,
{
    let r = subvec(v.as_slice(), 0, v.len());
    proof {
        assert(v@.subrange(0, v@.len() as int) =~= v@);
    }
    r
}

/// Whether a byte is ASCII whitespace.
pub fn is_ws_byte(b: u8) -> (r: bool)
    ensures
        r == is_ws(b),
{
    b == 32 || b == 9 || b == 10 || b == 13
}

/// Copy of the byte range `[i, j)` of a slice.
pub fn subvec(s: &[u8], i: usize, j: usize) -> (r: Vec<u8>)
    requires
        i <= j <= s@.len(),
    ensures
        r@ == s@.subrange(i as int, j as int),
{
    let mut r: Vec<u8> = Vec::new();
    let mut k: usize = i;
    while k < j
        invariant
            i <= k <= j <= s@.len(),
            r@ == s@.subrange(i as int, k as int),
        decreases j - k,
    {
        r.push(s[k]);
        k = k + 1;
        proof {
            assert(r@ =~= s@.subrange(i as int, k as int));
        }
    }
    r
}

/// Append every byte of a slice to a vector.
pub fn push_all(dst: &mut Vec<u8>, src: &[u8])
    ensures
        final(dst)@ == old(dst)@ + src@,
{
    let ghost orig = dst@;
    let mut k: usize = 0;
    while k < src.len()
        invariant
            k <= src@.len(),
            dst@ == orig + src@.subrange(0, k as int),
        decreases src@.len() - k,
    {
        dst.push(src[k]);
        k = k + 1;
        proof {
            assert(orig + src@.subrange(0, k - 1 as int) + seq![src@[k - 1]] =~= orig
                + src@.subrange(0, k as int));
        }
    }
    proof {
        assert(orig + src@.subrange(0, src@.len() as int) =~= orig + src@);
    }
}

/// Trim ASCII whitespace from both ends of a byte text.
pub fn trim(s: &[u8]) -> (r: Vec<u8>)
    ensures
        r@ == trim_spec(s@),
{
    let n = s.len();
    let mut lo: usize = 0;
    while lo < n && is_ws_byte(s[lo])
        invariant
            lo <= n == s@.len(),
            forall|i: int| 0 <= i < lo ==> is_ws(s@[i]),
        decreases n - lo,
    {
        lo = lo + 1;
    }
    let mut hi: usize = n;
    while hi > lo && is_ws_byte(s[hi - 1])
        invariant
            lo <= hi <= n == s@.len(),
            forall|i: int| 0 <= i < lo ==> is_ws(s@[i]),
            forall|i: int| hi <= i < n ==> is_ws(s@[i]),
        decreases hi,
    {
        hi = hi - 1;
    }
    let r = subvec(s, lo, hi);
    proof {
        lemma_trim_front_subrange(s@, lo as int);
        let t = s@.subrange(lo as int, n as int);
        lemma_trim_back_subrange(t, hi - lo as int);
        assert(t.subrange(0, hi - lo as int) =~= s@.subrange(lo as int, hi as int));
    }
    r
}

/// Whether a byte text is entirely ASCII whitespace.
pub fn is_blank(s: &[u8]) -> (r: bool)
    ensures
        r == all_ws(s@),
{
    let mut k: usize = 0;
    while k < s.len()
        invariant
            k <= s@.len(),
            forall|i: int| 0 <= i < k ==> is_ws(s@[i]),
        decreases s@.len() - k,
    {
        if !is_ws_byte(s[k]) {
            return false;
        }
        k = k + 1;
    }
    true
}

/// Whether `needle` occurs contiguously in `hay`.
pub fn contains_slice(hay: &[u8], needle: &[u8]) -> (r: bool)
    ensures
        r == contains_seq(hay@, needle@),
{
    let m = needle.len();
    let n = hay.len();
    if m > n {
        proof {
            assert(!contains_seq(hay@, needle@));
        }
        return false;
    }
    let mut k: usize = 0;
    while k <= n - m
        invariant
            m == needle@.len() <= n == hay@.len(),
            k <= n - m + 1,
            forall|j: int|
                0 <= j < k ==> #[trigger] hay@.subrange(j, j + needle@.len()) != needle@,
        decreases n - m + 1 - k,
    {
        let mut i: usize = 0;
        let mut matched = true;
        while i < m
            invariant
                m == needle@.len(),
                n == hay@.len(),
                k + m <= n,
                i <= m,
                matched || i == m,
                matched == (forall|j: int| 0 <= j < i ==> hay@[k + j] == needle@[j]),
            decreases m - i,
        {
            if hay[k + i] != needle[i] {
                proof {
                    assert(!(hay@[k + i] == needle@[i as int]));
                }
                matched = false;
                i = m;
            } else {
                proof {
                    assert(forall|j: int| 0 <= j < i ==> hay@[k + j] == needle@[j]);
                }
                i = i + 1;
            }
        }
        if matched {
            proof {
                assert(hay@.subrange(k as int, k + needle@.len()) =~= needle@);
            }
            return true;
        }
        proof {
            assert(hay@.subrange(k as int, k + needle@.len()) != needle@);
        }
        k = k + 1;
    }
    proof {
        assert forall|j: int| 0 <= j && j + needle@.len() <= hay@.len() implies #[trigger] hay@.subrange(
            j,
            j + needle@.len(),
        ) != needle@ by {
            assert(j < k);
        }
    }
    false
}

/// Whether `pre` is a prefix of `s`.
pub fn slice_starts_with(s: &[u8], pre: &[u8]) -> (r: bool)
    ensures
        r == starts_with(s@, pre@),
{
    if pre.len() > s.len() {
        return false;
    }
    let mut i: usize = 0;
    while i < pre.len()
        invariant
            pre@.len() <= s@.len(),
            i <= pre@.len(),
            forall|j: int| 0 <= j < i ==> s@[j] == pre@[j],
        decreases pre@.len() - i,
    {
        if s[i] != pre[i] {
            proof {
                assert(s@.subrange(0, pre@.len() as int)[i as int] != pre@[i as int]);
            }
            return false;
        }
        i = i + 1;
    }
    proof {
        assert(s@.subrange(0, pre@.len() as int) =~= pre@);
    }
    true
}

/// Equality of two byte texts.
pub fn bytes_eq(a: &[u8], b: &[u8]) -> (r: bool)
    ensures
        r == (a@ == b@),
{
    if a.len() != b.len() {
        return false;
    }
    let mut i: usize = 0;
    while i < a.len()
        invariant
            a@.len() == b@.len(),
            i <= a@.len(),
            forall|j: int| 0 <= j < i ==> a@[j] == b@[j],
        decreases a@.len() - i,
    {
        if a[i] != b[i] {
            return false;
        }
        i = i + 1;
    }
    proof {
        assert(a@ =~= b@);
    }
    true
}

/// Join pieces with a blank line between them.
pub fn join_with_blank_line(ps: &Vec<Vec<u8>>) -> (r: Vec<u8>)
    ensures
        r@ == join_blank(views_of(ps@)),
{
    let mut r: Vec<u8> = Vec::new();
    let mut k: usize = 0;
    while k < ps.len()
        invariant
            k <= ps@.len(),
            r@ == join_blank(views_of(ps@).subrange(0, k as int)) + if 0 < k < ps@.len() {
                seq![10u8, 10u8]
            } else {
                Seq::<u8>::empty()
            },
        decreases ps@.len() - k,
    {
        proof {
            lemma_join_blank_step(views_of(ps@), k as int);
        }
        push_all(&mut r, ps[k].as_slice());
        k = k + 1;
        if k < ps.len() {
            r.push(10u8);
            r.push(10u8);
        }
        proof {
            if k < ps@.len() {
                assert(r@ =~= join_blank(views_of(ps@).subrange(0, k as int)) + seq![10u8, 10u8]);
            } else {
                assert(r@ =~= join_blank(views_of(ps@).subrange(0, k as int)));
            }
        }
    }
    proof {
        assert(views_of(ps@).subrange(0, ps@.len() as int) =~= views_of(ps@));
    }
    r
}

/// One step of `join_blank`: joining the first `k + 1` pieces equals joining
/// the first `k`, then a blank line (if the prefix was non-empty), then piece `k`.
pub proof fn lemma_join_blank_step(ps: Seq<Seq<u8>>, k: int)
    requires
        0 <= k < ps.len(),
    ensures
        join_blank(ps.subrange(0, k + 1)) == join_blank(ps.subrange(0, k)) + if k > 0 {
            seq![10u8, 10u8] + ps[k]
        } else {
            ps[k]
        },
    decreases k,
{
    if k == 0 {
        assert(ps.subrange(0, 1).len() == 1);
        assert(join_blank(ps.subrange(0, 1)) == ps.subrange(0, 1).first());
        assert(ps.subrange(0, 1).first() == ps[0]);
        assert(join_blank(ps.subrange(0, 0)) =~= Seq::<u8>::empty());
        assert(join_blank(ps.subrange(0, 0)) + ps[0] =~= ps[0]);
    } else {
        lemma_join_blank_step(ps.drop_first(), k - 1);
        assert(ps.subrange(0, k + 1).first() == ps.first());
        assert(ps.subrange(0, k + 1).drop_first() =~= ps.drop_first().subrange(0, k));
        assert(ps.subrange(0, k).first() == ps.first());
        assert(ps.subrange(0, k).drop_first() =~= ps.drop_first().subrange(0, k - 1));
        assert(ps.drop_first()[k - 1] == ps[k]);
        if k == 1 {
            assert(join_blank(ps.subrange(0, 2)) == ps.first() + seq![10u8, 10u8] + join_blank(
                ps.drop_first().subrange(0, 1),
            ));
            assert(join_blank(ps.subrange(0, 1)) == ps.first());
            assert(ps.first() + seq![10u8, 10u8] + ps[1] =~= ps.first() + (seq![10u8, 10u8]
                + ps[1]));
        } else {
            assert(join_blank(ps.subrange(0, k + 1)) == ps.first() + seq![10u8, 10u8] + join_blank(
                ps.drop_first().subrange(0, k),
            ));
            assert(join_blank(ps.subrange(0, k)) == ps.first() + seq![10u8, 10u8] + join_blank(
                ps.drop_first().subrange(0, k - 1),
            ));
            assert(ps.first() + seq![10u8, 10u8] + (join_blank(ps.drop_first().subrange(0, k - 1))
                + (seq![10u8, 10u8] + ps[k])) =~= (ps.first() + seq![10u8, 10u8] + join_blank(
                ps.drop_first().subrange(0, k - 1),
            )) + (seq![10u8, 10u8] + ps[k]));
        }
    }
}


/// Index of the first blank-line paragraph break (two line feeds) at or
/// after `i`, or the length when there is none.
pub open spec fn first_break(s: Seq<u8>, i: int) -> int
    decreases s.len() - i,
{
    if i < 0 || i + 2 > s.len() {
        s.len() as int
    } else if s[i] == 10 && s[i + 1] == 10 {
        i
    } else {
        first_break(s, i + 1)
    }
}

pub proof fn lemma_first_break(s: Seq<u8>, i: int)
    requires
        0 <= i <= s.len(),
    ensures
        i <= first_break(s, i) <= s.len(),
        first_break(s, i) < s.len() ==> first_break(s, i) + 2 <= s.len() && s[first_break(s, i)]
            == 10 && s[first_break(s, i) + 1] == 10,
    decreases s.len() - i,
{
    if i + 2 <= s.len() && !(s[i] == 10 && s[i + 1] == 10) {
        lemma_first_break(s, i + 1);
    }
}

/// Find the first blank-line paragraph break at or after `from`.
pub fn find_break(s: &[u8], from: usize) -> (r: usize)
    requires
        from <= s@.len(),
    ensures
        r == first_break(s@, from as int),
        from <= r <= s@.len(),
{
    let n = s.len();
    let mut i: usize = from;
    while i < n && n - i >= 2 && !(s[i] == 10 && s[i + 1] == 10)
        invariant
            from <= i <= n == s@.len(),
            first_break(s@, from as int) == first_break(s@, i as int),
        decreases n - i,
    {
        i = i + 1;
    }
    if n - i < 2 {
        proof {
            lemma_first_break(s@, i as int);
        }
        n
    } else {
        i
    }
}

/// The blank-line paragraphs of a text from `pos` on: the pieces between
/// double line feeds, empty pieces kept, as the fields of a split.
pub open spec fn split_paras(s: Seq<u8>, pos: int) -> Seq<Seq<u8>>
    decreases s.len() + 1 - pos,
    when 0 <= pos <= s.len()
    via split_paras_dec
{
    let b = first_break(s, pos);
    if b >= s.len() {
        seq![s.subrange(pos, s.len() as int)]
    } else {
        seq![s.subrange(pos, b)] + split_paras(s, b + 2)
    }
}

#[via_fn]
proof fn split_paras_dec(s: Seq<u8>, pos: int) {
    lemma_first_break(s, pos);
}

/// The blank-line paragraphs of a whole text.
pub open spec fn paragraphs_of(s: Seq<u8>) -> Seq<Seq<u8>> {
    split_paras(s, 0)
}

/// The text with every leading occurrence of the byte removed.
pub open spec fn trim_byte_front(s: Seq<u8>, b: u8) -> Seq<u8>
    decreases s.len(),
{
    if s.len() > 0 && s.first() == b {
        trim_byte_front(s.drop_first(), b)
    } else {
        s
    }
}

/// The text with every trailing occurrence of the byte removed.
pub open spec fn trim_byte_back(s: Seq<u8>, b: u8) -> Seq<u8>
    decreases s.len(),
{
    if s.len() > 0 && s.last() == b {
        trim_byte_back(s.drop_last(), b)
    } else {
        s
    }
}

pub proof fn lemma_trim_byte_front_subrange(s: Seq<u8>, b: u8, k: int)
    requires
        0 <= k <= s.len(),
        forall|i: int| 0 <= i < k ==> s[i] == b,
        k == s.len() || s[k] != b,
    ensures
        trim_byte_front(s, b) == s.subrange(k, s.len() as int),
    decreases k,
{
    if k == 0 {
        if s.len() == 0 || s.first() != b {
            assert(trim_byte_front(s, b) =~= s.subrange(0, s.len() as int));
        }
    } else {
        let t = s.drop_first();
        lemma_trim_byte_front_subrange(t, b, k - 1);
        assert(trim_byte_front(s, b) == trim_byte_front(t, b));
        assert(t.subrange(k - 1, t.len() as int) =~= s.subrange(k, s.len() as int));
    }
}

pub proof fn lemma_trim_byte_back_subrange(s: Seq<u8>, b: u8, k: int)
    requires
        0 <= k <= s.len(),
        forall|i: int| k <= i < s.len() ==> s[i] == b,
        k == 0 || s[k - 1] != b,
    ensures
        trim_byte_back(s, b) == s.subrange(0, k),
    decreases s.len() - k,
{
    if k == s.len() {
        if s.len() == 0 || s.last() != b {
            assert(trim_byte_back(s, b) =~= s.subrange(0, k));
        } else {
            assert(false);
        }
    } else {
        assert(s.last() == b);
        let t = s.drop_last();
        lemma_trim_byte_back_subrange(t, b, k);
        assert(trim_byte_back(s, b) == trim_byte_back(t, b));
        assert(t.subrange(0, k) =~= s.subrange(0, k));
    }
}

/// Remove every occurrence of the byte from both ends of the text.
pub fn trim_byte(s: &[u8], b: u8) -> (r: Vec<u8>)
    ensures
        r@ == trim_byte_back(trim_byte_front(s@, b), b),
{
    let n = s.len();
    let mut lo: usize = 0;
    while lo < n && s[lo] == b
        invariant
            lo <= n == s@.len(),
            forall|i: int| 0 <= i < lo ==> s@[i] == b,
        decreases n - lo,
    {
        lo = lo + 1;
    }
    let mut hi: usize = n;
    while hi > lo && s[hi - 1] == b
        invariant
            lo <= hi <= n == s@.len(),
            forall|i: int| 0 <= i < lo ==> s@[i] == b,
            forall|i: int| hi <= i < n ==> s@[i] == b,
        decreases hi,
    {
        hi = hi - 1;
    }
    let r = subvec(s, lo, hi);
    proof {
        lemma_trim_byte_front_subrange(s@, b, lo as int);
        let t = s@.subrange(lo as int, n as int);
        lemma_trim_byte_back_subrange(t, b, hi - lo as int);
        assert(t.subrange(0, hi - lo as int) =~= s@.subrange(lo as int, hi as int));
    }
    r
}

} // verus!
