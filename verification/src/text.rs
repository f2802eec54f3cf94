//! Byte-level text utilities for input lines: ASCII trimming, splitting on
//! the single-space delimiter, and decimal parsing.

use vstd::prelude::*;

verus! {

/// ASCII whitespace, as `u8::is_ascii_whitespace` counts it.
pub open spec fn is_space_byte(b: u8) -> bool {
    b == 32 || b == 9 || b == 10 || b == 12 || b == 13
}

pub open spec fn trim_start_spec(s: Seq<u8>) -> Seq<u8>
    decreases s.len(),
{
    if s.len() == 0 {
        s
    } else if is_space_byte(s[0]) {
        trim_start_spec(s.drop_first())
    } else {
        s
    }
}

pub open spec fn trim_end_spec(s: Seq<u8>) -> Seq<u8>
    decreases s.len(),
{
    if s.len() == 0 {
        s
    } else if is_space_byte(s.last()) {
        trim_end_spec(s.drop_last())
    } else {
        s
    }
}

/// What trimming an ASCII line does: strip leading and trailing whitespace.
pub open spec fn trim_spec(s: Seq<u8>) -> Seq<u8> {
    trim_end_spec(trim_start_spec(s))
}

proof fn lemma_trim_start_skip(s: Seq<u8>, i: int)
    requires
        0 <= i <= s.len(),
        forall|k: int| 0 <= k < i ==> is_space_byte(s[k]),
        i < s.len() ==> !is_space_byte(s[i]),
    ensures
        trim_start_spec(s) == s.skip(i),
    decreases i,
{
    if i == 0 {
        assert(s.skip(0) =~= s);
    } else {
        lemma_trim_start_skip(s.drop_first(), i - 1);
        assert(s.drop_first().skip(i - 1) =~= s.skip(i));
    }
}

proof fn lemma_trim_end_take(s: Seq<u8>, j: int)
    requires
        0 <= j <= s.len(),
        forall|k: int| j <= k < s.len() ==> is_space_byte(s[k]),
        j > 0 ==> !is_space_byte(s[j - 1]),
    ensures
        trim_end_spec(s) == s.take(j),
    decreases s.len() - j,
{
    if j == s.len() {
        if s.len() == 0 {
            assert(s.take(0) =~= s);
        } else {
            assert(s.take(j) =~= s);
        }
    } else {
        assert(is_space_byte(s.last()));
        lemma_trim_end_take(s.drop_last(), j);
        assert(s.drop_last().take(j) =~= s.take(j));
    }
}

/// Copy the byte range `[i, j)` of a slice into a fresh vector.
pub fn copy_range(v: &[u8], i: usize, j: usize) -> (r: Vec<u8>)
    requires
        i <= j <= v@.len(),
    ensures
        r@ == v@.subrange(i as int, j as int),
{
    let mut r: Vec<u8> = Vec::new();
    let mut k: usize = i;
    while k < j
        invariant
            i <= k <= j <= v@.len(),
            r@ == v@.subrange(i as int, k as int),
        decreases j - k,
    {
        r.push(v[k]);
        assert(v@.subrange(i as int, k + 1 as int) =~= v@.subrange(i as int, k as int).push(
            v@[k as int],
        ));
        k = k + 1;
    }
    r
}

/// Strip leading and trailing ASCII whitespace from a byte string.
pub fn trim_bytes(v: &[u8]) -> (r: Vec<u8>)
    ensures
        r@ == trim_spec(v@),
{
    let n = v.len();
    let mut i: usize = 0;
    while i < n && (v[i] == 32 || v[i] == 9 || v[i] == 10 || v[i] == 12 || v[i] == 13)
        invariant
            0 <= i <= n,
            n == v@.len(),
            forall|k: int| 0 <= k < i ==> is_space_byte(v@[k]),
        decreases n - i,
    {
        i = i + 1;
    }
    let mut j: usize = n;
    while j > i && (v[j - 1] == 32 || v[j - 1] == 9 || v[j - 1] == 10 || v[j - 1] == 12 || v[j
        - 1] == 13)
        invariant
            i <= j <= n,
            n == v@.len(),
            forall|k: int| j <= k < n ==> is_space_byte(v@[k]),
        decreases j,
    {
        j = j - 1;
    }
    proof {
        lemma_trim_start_skip(v@, i as int);
        let t = v@.skip(i as int);
        lemma_trim_end_take(t, j - i);
        assert(t.take(j - i) =~= v@.subrange(i as int, j as int));
    }
    copy_range(v, i, j)
}

/// What splitting a line on the single-space delimiter yields: every piece
/// between two spaces, empty pieces kept; an empty line yields one empty piece.
pub open spec fn split_spec(s: Seq<u8>) -> Seq<Seq<u8>>
    decreases s.len(),
{
    if s.len() == 0 {
        seq![Seq::<u8>::empty()]
    } else if s[0] == 32 {
        seq![Seq::<u8>::empty()] + split_spec(s.drop_first())
    } else {
        let rest = split_spec(s.drop_first());
        seq![seq![s[0]] + rest[0]] + rest.drop_first()
    }
}

pub proof fn lemma_split_len(s: Seq<u8>)
    ensures
        split_spec(s).len() >= 1,
    decreases s.len(),
{
    if s.len() != 0 {
        lemma_split_len(s.drop_first());
    }
}

/// A piece without a space splits into itself alone.
pub proof fn lemma_split_no_space(s: Seq<u8>)
    requires
        forall|k: int| 0 <= k < s.len() ==> s[k] != 32,
    ensures
        split_spec(s) == seq![s],
    decreases s.len(),
{
    if s.len() == 0 {
        assert(split_spec(s) =~~= seq![s]);
    } else {
        lemma_split_no_space(s.drop_first());
        assert(seq![s[0]] + s.drop_first() =~= s);
        assert(split_spec(s) =~~= seq![s]);
    }
}

/// Prepending a space-free prefix extends the first piece of the split.
proof fn lemma_split_prepend(cur: Seq<u8>, s: Seq<u8>)
    requires
        forall|k: int| 0 <= k < cur.len() ==> cur[k] != 32,
    ensures
        split_spec(cur + s) == seq![cur + split_spec(s)[0]] + split_spec(s).drop_first(),
    decreases cur.len(),
{
    lemma_split_len(s);
    if cur.len() == 0 {
        assert(cur + s =~= s);
        assert(cur + split_spec(s)[0] =~= split_spec(s)[0]);
        assert(seq![split_spec(s)[0]] + split_spec(s).drop_first() =~~= split_spec(s));
    } else {
        lemma_split_prepend(cur.drop_first(), s);
        let whole = cur + s;
        assert(whole[0] == cur[0]);
        assert(whole[0] != 32);
        assert(whole.drop_first() =~= cur.drop_first() + s);
        let rest = split_spec(cur.drop_first() + s);
        assert(rest[0] == cur.drop_first() + split_spec(s)[0]);
        assert(seq![cur[0]] + rest[0] =~= cur + split_spec(s)[0]);
        assert(rest.drop_first() =~~= split_spec(s).drop_first());
        assert(split_spec(whole) =~~= seq![cur + split_spec(s)[0]] + split_spec(s).drop_first());
    }
}

/// A space after a space-free piece closes that piece.
proof fn lemma_split_close_piece(cur: Seq<u8>, s: Seq<u8>)
    requires
        forall|k: int| 0 <= k < cur.len() ==> cur[k] != 32,
    ensures
        split_spec(cur + seq![32u8] + s) == seq![cur] + split_spec(s),
    decreases cur.len(),
{
    let sp = seq![32u8] + s;
    assert(sp[0] == 32);
    assert(sp.drop_first() =~= s);
    assert(split_spec(sp) =~~= seq![Seq::<u8>::empty()] + split_spec(s));
    lemma_split_prepend(cur, sp);
    lemma_split_len(s);
    assert(cur + seq![32u8] + s =~= cur + sp);
    assert(cur + split_spec(sp)[0] =~= cur);
    assert(split_spec(sp).drop_first() =~~= split_spec(s));
    assert(split_spec(cur + seq![32u8] + s) =~~= seq![cur] + split_spec(s));
}

/// Split a line on the single-space delimiter, keeping empty pieces.
pub fn split_bytes(line: &[u8]) -> (r: Vec<Vec<u8>>)
    ensures
        r.deep_view() == split_spec(line@),
        r@.len() >= 1,
{
    let n = line.len();
    let mut res: Vec<Vec<u8>> = Vec::new();
    let mut cur: Vec<u8> = Vec::new();
    let mut i: usize = 0;
    proof {
        assert(cur@ + line@.skip(0) =~= line@);
        assert(res.deep_view() + split_spec(line@) =~~= split_spec(line@));
    }
    while i < n
        invariant
            0 <= i <= n,
            n == line@.len(),
            forall|k: int| 0 <= k < cur@.len() ==> cur@[k] != 32,
            split_spec(line@) == res.deep_view() + split_spec(cur@ + line@.skip(i as int)),
        decreases n - i,
    {
        let ghost pre_res = res.deep_view();
        let ghost pre_cur = cur@;
        let b = line[i];
        if b == 32 {
            proof {
                assert(pre_cur + line@.skip(i as int) =~= pre_cur + seq![32u8] + line@.skip(
                    i + 1,
                ));
                lemma_split_close_piece(pre_cur, line@.skip(i + 1));
            }
            res.push(cur);
            cur = Vec::new();
            proof {
                assert(res.deep_view() =~~= pre_res.push(pre_cur));
                assert(cur@ + line@.skip(i + 1) =~= line@.skip(i + 1));
                assert(pre_res.push(pre_cur) + split_spec(line@.skip(i + 1)) =~~= pre_res + (seq![
                    pre_cur,
                ] + split_spec(line@.skip(i + 1))));
            }
        } else {
            cur.push(b);
            proof {
                assert(pre_cur + line@.skip(i as int) =~= cur@ + line@.skip(i + 1));
            }
        }
        i = i + 1;
    }
    let ghost pre_res = res.deep_view();
    let ghost pre_cur = cur@;
    proof {
        assert(pre_cur + line@.skip(i as int) =~= pre_cur);
        lemma_split_no_space(pre_cur);
    }
    res.push(cur);
    proof {
        lemma_split_len(line@);
        assert(res.deep_view() =~~= pre_res.push(pre_cur));
        assert(pre_res + seq![pre_cur] =~~= pre_res.push(pre_cur));
        assert(res.deep_view() =~~= split_spec(line@));
    }
    res
}

pub open spec fn is_digit_byte(b: u8) -> bool {
    48 <= b <= 57
}

/// Value of a string of decimal digits, most significant first.
pub open spec fn digits_value(s: Seq<u8>) -> nat
    decreases s.len(),
{
    if s.len() == 0 {
        0
    } else {
        digits_value(s.drop_last()) * 10 + (s.last() - 48) as nat
    }
}

/// Whether a line parses as a decimal number that fits in `usize`:
/// after trimming it is non-empty, all digits, and in range.
pub open spec fn parse_ok(s: Seq<u8>) -> bool {
    let t = trim_spec(s);
    t.len() > 0 && (forall|k: int| 0 <= k < t.len() ==> is_digit_byte(t[k])) && digits_value(t)
        <= usize::MAX
}

proof fn lemma_digits_value_prefix(s: Seq<u8>, j: int)
    requires
        0 <= j <= s.len(),
        forall|k: int| 0 <= k < s.len() ==> is_digit_byte(s[k]),
    ensures
        digits_value(s.take(j)) <= digits_value(s),
    decreases s.len() - j,
{
    if j < s.len() {
        lemma_digits_value_prefix(s, j + 1);
        let t = s.take(j + 1);
        assert(t.drop_last() =~= s.take(j));
        assert(t.last() == s[j]);
        assert(digits_value(s.take(j)) <= digits_value(s.take(j)) * 10 + (s[j] - 48) as nat);
    } else {
        assert(s.take(j) =~= s);
    }
}

/// Parse a trimmed line as a decimal `usize`; `None` when the line is empty,
/// holds a non-digit, or overflows.
pub fn parse_index(s: &[u8]) -> (r: Option<usize>)
    ensures
        r == (if parse_ok(s@) {
            Some(digits_value(trim_spec(s@)) as usize)
        } else {
            None::<usize>
        }),
{
    let t = trim_bytes(s);
    let n = t.len();
    if n == 0 {
        return None;
    }
    let mut acc: usize = 0;
    let mut k: usize = 0;
    while k < n
        invariant
            0 <= k <= n,
            n == t@.len(),
            t@ == trim_spec(s@),
            forall|m: int| 0 <= m < k ==> is_digit_byte(t@[m]),
            acc == digits_value(t@.take(k as int)),
        decreases n - k,
    {
        let b = t[k];
        if b < 48 || b > 57 {
            return None;
        }
        let d = (b - 48) as usize;
        proof {
            assert(digits_value(t@.take(k + 1)) == acc * 10 + d) by {
                assert(t@.take(k + 1).drop_last() =~= t@.take(k as int));
                assert(t@.take(k + 1).last() == t@[k as int]);
            };
        }
        let wide: u128 = (acc as u128) * 10 + (d as u128);
        if wide > (usize::MAX as u128) {
            proof {
                if parse_ok(s@) {
                    lemma_digits_value_prefix(t@, k + 1);
                }
            }
            return None;
        }
        acc = acc * 10 + d;
        k = k + 1;
    }
    proof {
        assert(t@.take(n as int) =~= t@);
    }
    Some(acc)
}

/// Whether two byte strings hold the same bytes.
pub fn bytes_eq(a: &[u8], b: &[u8]) -> (r: bool)
    ensures
        r == (a@ == b@),
{
    if a.len() != b.len() {
        return false;
    }
    let n = a.len();
    let mut k: usize = 0;
    while k < n
        invariant
            0 <= k <= n,
            n == a@.len() == b@.len(),
            forall|m: int| 0 <= m < k ==> a@[m] == b@[m],
        decreases n - k,
    {
        if a[k] != b[k] {
            return false;
        }
        k = k + 1;
    }
    assert(a@ =~= b@);
    true
}

} // verus!
