//! Verified utilities over `&str` values, viewed as sequences of characters.
use vstd::prelude::*;

verus! {

/// Character-for-character equality of two string slices.
pub fn str_eq(a: &str, b: &str) -> (r: bool)
    ensures
        r == (a@ == b@),
{
    let alen = a.unicode_len();
    let blen = b.unicode_len();
    if alen != blen {
        assert(a@ != b@);
        return false;
    }
    let mut i: usize = 0;
    while i < alen
        invariant
            i <= alen,
            alen == a@.len(),
            alen == b@.len(),
            forall|j: int| 0 <= j < i ==> a@[j] == b@[j],
        decreases alen - i,
    {
        if a.get_char(i) != b.get_char(i) {
            assert(a@ != b@);
            return false;
        }
        i += 1;
    }
    assert(a@ =~= b@);
    true
}

/// Lexicographic order on character sequences, by scalar value; the order
/// strings sort in.
pub open spec fn spec_str_lt(a: Seq<char>, b: Seq<char>) -> bool
    decreases a.len(),
{
    if b.len() == 0 {
        false
    } else if a.len() == 0 {
        true
    } else if a[0] == b[0] {
        spec_str_lt(a.drop_first(), b.drop_first())
    } else {
        (a[0] as u32) < (b[0] as u32)
    }
}

/// Exactly one of `a < b`, `b < a`, `a == b` holds.
pub proof fn lemma_str_lt_trichotomy(a: Seq<char>, b: Seq<char>)
    ensures
        spec_str_lt(a, b) || spec_str_lt(b, a) || a == b,
        spec_str_lt(a, b) ==> !spec_str_lt(b, a) && a != b,
        spec_str_lt(b, a) ==> !spec_str_lt(a, b) && a != b,
    decreases a.len(),
{
    if a.len() == 0 && b.len() == 0 {
        assert(a =~= b);
    } else if a.len() > 0 && b.len() > 0 {
        if a[0] == b[0] {
            lemma_str_lt_trichotomy(a.drop_first(), b.drop_first());
            if a.drop_first() == b.drop_first() {
                assert(a.drop_first().len() == b.drop_first().len());
                assert forall|i: int| 0 <= i < a.len() implies a[i] == b[i] by {
                    if i > 0 {
                        assert(a.drop_first()[i - 1] == a[i]);
                        assert(b.drop_first()[i - 1] == b[i]);
                    }
                }
                assert(a =~= b);
            }
            if a == b {
                assert(a.drop_first() =~= b.drop_first());
            }
        } else {
            assert((a[0] as u32) != (b[0] as u32)) by {
                if (a[0] as u32) == (b[0] as u32) {
                    vstd::utf8::char_u32_cast(a[0], a[0] as u32);
                    vstd::utf8::char_u32_cast(b[0], b[0] as u32);
                }
            }
        }
    }
}

/// Lexicographic order is transitive.
pub proof fn lemma_str_lt_trans(a: Seq<char>, b: Seq<char>, c: Seq<char>)
    requires
        spec_str_lt(a, b),
        spec_str_lt(b, c),
    ensures
        spec_str_lt(a, c),
    decreases a.len(),
{
    if c.len() == 0 {
    } else if a.len() == 0 {
    } else if b.len() == 0 {
    } else {
        if a[0] == b[0] && b[0] == c[0] {
            lemma_str_lt_trans(a.drop_first(), b.drop_first(), c.drop_first());
        } else {
            if (a[0] as u32) == (c[0] as u32) {
                assert(a[0] == c[0]);
            }
        }
    }
}

/// If `a` and `b` agree on their first `k` characters, their order is the
/// order of their remainders.
pub proof fn lemma_str_lt_skip(a: Seq<char>, b: Seq<char>, k: int)
    requires
        0 <= k <= a.len(),
        k <= b.len(),
        forall|i: int| 0 <= i < k ==> a[i] == b[i],
    ensures
        spec_str_lt(a, b) == spec_str_lt(a.skip(k), b.skip(k)),
    decreases k,
{
    if k > 0 {
        assert(a.len() > 0 && b.len() > 0 && a[0] == b[0]);
        assert forall|i: int| 0 <= i < k - 1 implies a.drop_first()[i] == b.drop_first()[i] by {
            assert(a.drop_first()[i] == a[i + 1]);
            assert(b.drop_first()[i] == b[i + 1]);
        }
        lemma_str_lt_skip(a.drop_first(), b.drop_first(), k - 1);
        assert(a.drop_first().skip(k - 1) =~= a.skip(k));
        assert(b.drop_first().skip(k - 1) =~= b.skip(k));
    } else {
        assert(a.skip(0) =~= a);
        assert(b.skip(0) =~= b);
    }
}

/// Runtime lexicographic comparison of two string slices.
pub fn str_lt(a: &str, b: &str) -> (r: bool)
    ensures
        r == spec_str_lt(a@, b@),
{
    let alen = a.unicode_len();
    let blen = b.unicode_len();
    let mut i: usize = 0;
    loop
        invariant
            i <= alen,
            i <= blen,
            alen == a@.len(),
            blen == b@.len(),
            forall|k: int| 0 <= k < i ==> a@[k] == b@[k],
        ensures
            spec_str_lt(a@, b@) == spec_str_lt(a@.skip(i as int), b@.skip(i as int)),
            i <= alen && i <= blen,
            i == alen || i == blen || a@[i as int] != b@[i as int],
        decreases alen - i,
    {
        proof {
            lemma_str_lt_skip(a@, b@, i as int);
        }
        if i == alen || i == blen {
            break;
        }
        if a.get_char(i) != b.get_char(i) {
            break;
        }
        i += 1;
    }
    if i == blen {
        false
    } else if i == alen {
        assert(spec_str_lt(a@.skip(i as int), b@.skip(i as int)));
        true
    } else {
        let ca = a.get_char(i);
        let cb = b.get_char(i);
        proof {
            assert(a@.skip(i as int)[0] == a@[i as int]);
            assert(b@.skip(i as int)[0] == b@[i as int]);
        }
        (ca as u32) < (cb as u32)
    }
}

/// `s` with leading and trailing ASCII whitespace removed.
pub open spec fn spec_trim(s: Seq<char>) -> Seq<char>
    decreases s.len(),
{
    if s.len() == 0 {
        s
    } else if is_ws(s[0]) {
        spec_trim(s.drop_first())
    } else if is_ws(s.last()) {
        spec_trim(s.drop_last())
    } else {
        s
    }
}

/// Trim ASCII whitespace from both ends.
pub fn trim<'a>(s: &'a str) -> (r: &'a str)
    ensures
        r@ == spec_trim(s@),
{
    let len = s.unicode_len();
    let mut a: usize = 0;
    proof {
        assert(s@.skip(0) =~= s@);
    }
    while a < len && ws_char(s.get_char(a))
        invariant
            a <= len,
            len == s@.len(),
            spec_trim(s@) == spec_trim(s@.skip(a as int)),
            forall|k: int| 0 <= k < a ==> is_ws(s@[k]),
        decreases len - a,
    {
        proof {
            let t = s@.skip(a as int);
            assert(t[0] == s@[a as int]);
            assert(t.drop_first() =~= s@.skip(a as int + 1));
        }
        a += 1;
    }
    let mut b: usize = len;
    proof {
        assert(s@.skip(a as int).take(len - a) =~= s@.skip(a as int));
    }
    while b > a && ws_char(s.get_char(b - 1))
        invariant
            a <= b <= len,
            len == s@.len(),
            a < len ==> !is_ws(s@[a as int]),
            a == len ==> b == len,
            spec_trim(s@) == spec_trim(s@.skip(a as int).take(b - a)),
            forall|k: int| 0 <= k < a ==> is_ws(s@[k]),
        decreases b,
    {
        proof {
            let t = s@.skip(a as int).take(b - a);
            assert(t.len() == b - a);
            assert(t[0] == s@[a as int]);
            assert(t.last() == s@[b - 1]);
            assert(t.drop_last() =~= s@.skip(a as int).take(b - 1 - a));
        }
        b -= 1;
    }
    let r = s.substring_char(a, b);
    proof {
        let t = s@.skip(a as int).take(b - a);
        assert(r@ =~= t);
        if t.len() > 0 {
            assert(t[0] == s@[a as int]);
            assert(t.last() == s@[b - 1]);
        }
    }
    r
}

/// The value of `s` as an unsigned octal numeral: digits `0`..`7` only,
/// nonempty, most significant first.
pub open spec fn spec_octal_value(s: Seq<char>) -> Option<int>
    decreases s.len(),
{
    if s.len() == 0 {
        None
    } else if !('0' <= s.last() <= '7') {
        None
    } else if s.len() == 1 {
        Some(s.last() as int - '0' as int)
    } else {
        match spec_octal_value(s.drop_last()) {
            Some(v) => Some(v * 8 + (s.last() as int - '0' as int)),
            None => None,
        }
    }
}

/// The value of `s` as an unsigned decimal numeral: digits `0`..`9` only,
/// nonempty, most significant first.
pub open spec fn spec_decimal_value(s: Seq<char>) -> Option<int>
    decreases s.len(),
{
    if s.len() == 0 {
        None
    } else if !('0' <= s.last() <= '9') {
        None
    } else if s.len() == 1 {
        Some(s.last() as int - '0' as int)
    } else {
        match spec_decimal_value(s.drop_last()) {
            Some(v) => Some(v * 10 + (s.last() as int - '0' as int)),
            None => None,
        }
    }
}

/// Parse `s` as an octal `i32`; `None` when `s` is empty, holds a non-octal
/// character, or overflows.
pub fn parse_octal_i32(s: &str) -> (r: Option<i32>)
    ensures
        match r {
            Some(v) => spec_octal_value(s@) == Some(v as int),
            None => spec_octal_value(s@) is None || spec_octal_value(s@).unwrap() > i32::MAX,
        },
{
    let len = s.unicode_len();
    if len == 0 {
        return None;
    }
    let mut v: u64 = 0;
    let mut i: usize = 0;
    while i < len
        invariant
            i <= len,
            len == s@.len(),
            len > 0,
            v <= i32::MAX,
            i > 0 ==> spec_octal_value(s@.take(i as int)) == Some(v as int),
            i == 0 ==> v == 0,
        decreases len - i,
    {
        let c = s.get_char(i);
        if !('0' <= c && c <= '7') {
            proof {
                lemma_octal_extend_bad(s@, i as int);
            }
            return None;
        }
        let d = ((c as u32) - ('0' as u32)) as u64;
        proof {
            assert(s@.take(i as int + 1).last() == s@[i as int]);
            assert(s@.take(i as int + 1).drop_last() =~= s@.take(i as int));
            vstd::utf8::char_is_scalar(c);
        }
        v = v * 8 + d;
        i += 1;
        proof {
            assert(spec_octal_value(s@.take(i as int)) == Some(v as int));
        }
        if v > i32::MAX as u64 {
            proof {
                if i < len {
                    lemma_octal_prefix_monotone(s@, i as int);
                } else {
                    assert(s@.take(i as int) =~= s@);
                }
            }
            return None;
        }
    }
    proof {
        assert(s@.take(len as int) =~= s@);
    }
    Some(v as i32)
}

/// A non-digit at position `i` poisons the whole numeral.
proof fn lemma_octal_extend_bad(s: Seq<char>, i: int)
    requires
        0 <= i < s.len(),
        !('0' <= s[i] <= '7'),
    ensures
        spec_octal_value(s) is None,
    decreases s.len() - i,
{
    if i == s.len() - 1 {
    } else {
        lemma_octal_extend_bad(s.drop_last(), i);
    }
}

/// A numeral's value is at least the value of any of its prefixes.
proof fn lemma_octal_prefix_monotone(s: Seq<char>, i: int)
    requires
        0 <= i < s.len(),
    ensures
        spec_octal_value(s) is Some ==> spec_octal_value(s.take(i)) is Some
            || i == 0,
        spec_octal_value(s) is Some && i > 0 ==> spec_octal_value(s).unwrap() >= spec_octal_value(
            s.take(i),
        ).unwrap() && spec_octal_value(s.take(i)).unwrap() >= 0,
    decreases s.len() - i,
{
    if spec_octal_value(s) is Some {
        lemma_octal_nonneg(s);
        if i == s.len() - 1 {
            assert(s.take(i) =~= s.drop_last());
            if i > 0 {
                lemma_octal_nonneg(s.take(i));
            }
        } else {
            lemma_octal_prefix_monotone(s.drop_last(), i);
            assert(s.drop_last().take(i) =~= s.take(i));
            if i > 0 {
                lemma_octal_nonneg(s.take(i));
            }
        }
    }
}

/// Octal values are non-negative.
proof fn lemma_octal_nonneg(s: Seq<char>)
    ensures
        spec_octal_value(s) is Some ==> spec_octal_value(s).unwrap() >= 0,
    decreases s.len(),
{
    if s.len() > 1 {
        lemma_octal_nonneg(s.drop_last());
    } else if s.len() == 1 {
        if spec_octal_value(s) is Some {
            vstd::utf8::char_is_scalar(s.last());
        }
    }
}

/// Parse `s` as a decimal `u64`; `None` when `s` is empty, holds a
/// non-decimal character, or overflows.
pub fn parse_decimal_u64(s: &str) -> (r: Option<u64>)
    ensures
        match r {
            Some(v) => spec_decimal_value(s@) == Some(v as int),
            None => spec_decimal_value(s@) is None || spec_decimal_value(s@).unwrap() > u64::MAX,
        },
{
    let len = s.unicode_len();
    if len == 0 {
        return None;
    }
    let mut v: u128 = 0;
    let mut i: usize = 0;
    while i < len
        invariant
            i <= len,
            len == s@.len(),
            len > 0,
            v <= u64::MAX,
            i > 0 ==> spec_decimal_value(s@.take(i as int)) == Some(v as int),
            i == 0 ==> v == 0,
        decreases len - i,
    {
        let c = s.get_char(i);
        if !('0' <= c && c <= '9') {
            proof {
                lemma_decimal_extend_bad(s@, i as int);
            }
            return None;
        }
        let d = ((c as u32) - ('0' as u32)) as u128;
        proof {
            assert(s@.take(i as int + 1).last() == s@[i as int]);
            assert(s@.take(i as int + 1).drop_last() =~= s@.take(i as int));
            vstd::utf8::char_is_scalar(c);
        }
        v = v * 10 + d;
        i += 1;
        proof {
            assert(spec_decimal_value(s@.take(i as int)) == Some(v as int));
        }
        if v > u64::MAX as u128 {
            proof {
                if i < len {
                    lemma_decimal_prefix_monotone(s@, i as int);
                } else {
                    assert(s@.take(i as int) =~= s@);
                }
            }
            return None;
        }
    }
    proof {
        assert(s@.take(len as int) =~= s@);
    }
    Some(v as u64)
}

/// A non-digit at position `i` poisons the whole numeral.
proof fn lemma_decimal_extend_bad(s: Seq<char>, i: int)
    requires
        0 <= i < s.len(),
        !('0' <= s[i] <= '9'),
    ensures
        spec_decimal_value(s) is None,
    decreases s.len() - i,
{
    if i == s.len() - 1 {
    } else {
        lemma_decimal_extend_bad(s.drop_last(), i);
    }
}

/// A numeral's value is at least the value of any of its prefixes.
proof fn lemma_decimal_prefix_monotone(s: Seq<char>, i: int)
    requires
        0 <= i < s.len(),
    ensures
        spec_decimal_value(s) is Some ==> spec_decimal_value(s.take(i)) is Some
            || i == 0,
        spec_decimal_value(s) is Some && i > 0 ==> spec_decimal_value(s).unwrap()
            >= spec_decimal_value(s.take(i)).unwrap() && spec_decimal_value(s.take(i)).unwrap()
            >= 0,
    decreases s.len() - i,
{
    if spec_decimal_value(s) is Some {
        lemma_decimal_nonneg(s);
        if i == s.len() - 1 {
            assert(s.take(i) =~= s.drop_last());
            if i > 0 {
                lemma_decimal_nonneg(s.take(i));
            }
        } else {
            lemma_decimal_prefix_monotone(s.drop_last(), i);
            assert(s.drop_last().take(i) =~= s.take(i));
            if i > 0 {
                lemma_decimal_nonneg(s.take(i));
            }
        }
    }
}

/// Decimal values are non-negative.
proof fn lemma_decimal_nonneg(s: Seq<char>)
    ensures
        spec_decimal_value(s) is Some ==> spec_decimal_value(s).unwrap() >= 0,
    decreases s.len(),
{
    if s.len() > 1 {
        lemma_decimal_nonneg(s.drop_last());
    } else if s.len() == 1 {
        if spec_decimal_value(s) is Some {
            vstd::utf8::char_is_scalar(s.last());
        }
    }
}

/// `pat` occurs in `s` at position `i`.
pub open spec fn spec_occurs_at(s: Seq<char>, pat: Seq<char>, i: int) -> bool {
    0 <= i && i + pat.len() <= s.len() && s.subrange(i, i + pat.len()) == pat
}

/// The first occurrence of `pat` in `s` at or after `i`.
pub open spec fn spec_find_from(s: Seq<char>, pat: Seq<char>, i: int) -> Option<int>
    decreases s.len() - i + 1,
{
    if i < 0 || i + pat.len() > s.len() {
        None
    } else if s.subrange(i, i + pat.len()) == pat {
        Some(i)
    } else {
        spec_find_from(s, pat, i + 1)
    }
}

/// The first occurrence of `pat` in `s`.
pub open spec fn spec_find(s: Seq<char>, pat: Seq<char>) -> Option<int> {
    spec_find_from(s, pat, 0)
}

/// The last occurrence of `pat` in `s` at or before `i`.
pub open spec fn spec_rfind_from(s: Seq<char>, pat: Seq<char>, i: int) -> Option<int>
    decreases i + 1,
{
    if i < 0 {
        None
    } else if i + pat.len() <= s.len() && s.subrange(i, i + pat.len()) == pat {
        Some(i)
    } else {
        spec_rfind_from(s, pat, i - 1)
    }
}

/// The last occurrence of `pat` in `s`.
pub open spec fn spec_rfind(s: Seq<char>, pat: Seq<char>) -> Option<int> {
    spec_rfind_from(s, pat, s.len() - pat.len())
}

/// A successful `spec_find_from` returns a real occurrence.
pub proof fn lemma_spec_find_occurs(s: Seq<char>, pat: Seq<char>, i0: int)
    requires
        spec_find_from(s, pat, i0) is Some,
    ensures
        spec_occurs_at(s, pat, spec_find_from(s, pat, i0).unwrap()),
        spec_find_from(s, pat, i0).unwrap() >= i0,
    decreases s.len() - i0 + 1,
{
    if !(i0 < 0 || i0 + pat.len() > s.len()) && s.subrange(i0, i0 + pat.len()) != pat {
        lemma_spec_find_occurs(s, pat, i0 + 1);
    }
}

/// A successful `spec_rfind_from` returns a real occurrence.
pub proof fn lemma_spec_rfind_occurs(s: Seq<char>, pat: Seq<char>, i0: int)
    requires
        spec_rfind_from(s, pat, i0) is Some,
    ensures
        spec_occurs_at(s, pat, spec_rfind_from(s, pat, i0).unwrap()),
        spec_rfind_from(s, pat, i0).unwrap() <= i0,
    decreases i0 + 1,
{
    if i0 >= 0 && !(i0 + pat.len() <= s.len() && s.subrange(i0, i0 + pat.len()) == pat) {
        lemma_spec_rfind_occurs(s, pat, i0 - 1);
    }
}

/// A first occurrence at `k` is what `spec_find` returns.
pub proof fn lemma_spec_find_at(s: Seq<char>, pat: Seq<char>, k: int, i: int)
    requires
        spec_occurs_at(s, pat, k),
        forall|j: int| 0 <= j < k ==> !spec_occurs_at(s, pat, j),
        0 <= i <= k,
    ensures
        spec_find_from(s, pat, i) == Some(k),
    decreases k - i,
{
    if i < k {
        assert(!spec_occurs_at(s, pat, i));
        lemma_spec_find_at(s, pat, k, i + 1);
    }
}

/// With no occurrence anywhere, `spec_find` fails.
pub proof fn lemma_spec_find_none(s: Seq<char>, pat: Seq<char>, i: int)
    requires
        forall|j: int| !spec_occurs_at(s, pat, j),
        0 <= i,
    ensures
        spec_find_from(s, pat, i) is None,
    decreases s.len() - i + 1,
{
    if !(i + pat.len() > s.len()) {
        assert(!spec_occurs_at(s, pat, i));
        lemma_spec_find_none(s, pat, i + 1);
    }
}

/// A last occurrence at `k` is what `spec_rfind` returns.
pub proof fn lemma_spec_rfind_at(s: Seq<char>, pat: Seq<char>, k: int, i: int)
    requires
        spec_occurs_at(s, pat, k),
        forall|j: int| j > k ==> !spec_occurs_at(s, pat, j),
        k <= i,
    ensures
        spec_rfind_from(s, pat, i) == Some(k),
    decreases i - k,
{
    if i > k {
        assert(!spec_occurs_at(s, pat, i));
        lemma_spec_rfind_at(s, pat, k, i - 1);
    }
}

/// With no occurrence anywhere, `spec_rfind` fails.
pub proof fn lemma_spec_rfind_none(s: Seq<char>, pat: Seq<char>, i: int)
    requires
        forall|j: int| !spec_occurs_at(s, pat, j),
    ensures
        spec_rfind_from(s, pat, i) is None,
    decreases i + 1,
{
    if i >= 0 {
        assert(!spec_occurs_at(s, pat, i));
        lemma_spec_rfind_none(s, pat, i - 1);
    }
}

/// Whether `pat` occurs in `s` at position `i`.
fn match_at(s: &str, pat: &str, i: usize, slen: usize, plen: usize) -> (r: bool)
    requires
        slen == s@.len(),
        plen == pat@.len(),
        i + plen <= slen,
    ensures
        r == spec_occurs_at(s@, pat@, i as int),
{
    let mut k: usize = 0;
    while k < plen
        invariant
            k <= plen,
            slen == s@.len(),
            plen == pat@.len(),
            i + plen <= slen,
            forall|m: int| 0 <= m < k ==> s@[i + m] == pat@[m],
        decreases plen - k,
    {
        if s.get_char(i + k) != pat.get_char(k) {
            proof {
                assert(s@.subrange(i as int, i + plen)[k as int] == s@[i + k]);
                assert(s@.subrange(i as int, i + plen) != pat@);
            }
            return false;
        }
        k += 1;
    }
    proof {
        assert(s@.subrange(i as int, i + plen) =~= pat@);
    }
    true
}

/// The position of the first occurrence of `pat` in `s`, if any.
pub fn find_sub(s: &str, pat: &str) -> (r: Option<usize>)
    ensures
        match r {
            Some(i) => spec_find(s@, pat@) == Some(i as int),
            None => spec_find(s@, pat@) is None,
        },
{
    let slen = s.unicode_len();
    let plen = pat.unicode_len();
    if plen > slen {
        proof {
            assert(forall|j: int| !spec_occurs_at(s@, pat@, j));
            lemma_spec_find_none(s@, pat@, 0);
        }
        return None;
    }
    let mut i: usize = 0;
    loop
        invariant
            plen <= slen,
            i <= slen - plen,
            slen == s@.len(),
            plen == pat@.len(),
            forall|j: int| 0 <= j < i ==> !spec_occurs_at(s@, pat@, j),
        ensures
            forall|j: int| !spec_occurs_at(s@, pat@, j),
        decreases slen - plen - i,
    {
        if match_at(s, pat, i, slen, plen) {
            proof {
                lemma_spec_find_at(s@, pat@, i as int, 0);
            }
            return Some(i);
        }
        if i == slen - plen {
            proof {
                assert forall|j: int| !spec_occurs_at(s@, pat@, j) by {
                    if 0 <= j <= i {
                    }
                }
            }
            break;
        }
        i += 1;
    }
    proof {
        lemma_spec_find_none(s@, pat@, 0);
    }
    None
}

/// The position of the last occurrence of `pat` in `s`, if any.
pub fn rfind_sub(s: &str, pat: &str) -> (r: Option<usize>)
    ensures
        match r {
            Some(i) => spec_rfind(s@, pat@) == Some(i as int),
            None => spec_rfind(s@, pat@) is None,
        },
{
    let slen = s.unicode_len();
    let plen = pat.unicode_len();
    if plen > slen {
        proof {
            assert(forall|j: int| !spec_occurs_at(s@, pat@, j));
            lemma_spec_rfind_none(s@, pat@, s@.len() - pat@.len());
        }
        return None;
    }
    let mut i: usize = slen - plen;
    loop
        invariant
            plen <= slen,
            i <= slen - plen,
            slen == s@.len(),
            plen == pat@.len(),
            forall|j: int| j > i ==> !spec_occurs_at(s@, pat@, j),
        ensures
            forall|j: int| !spec_occurs_at(s@, pat@, j),
        decreases i,
    {
        if match_at(s, pat, i, slen, plen) {
            proof {
                lemma_spec_rfind_at(s@, pat@, i as int, s@.len() - pat@.len());
            }
            return Some(i);
        }
        if i == 0 {
            proof {
                assert forall|j: int| !spec_occurs_at(s@, pat@, j) by {
                    if j == 0 {
                        assert(!spec_occurs_at(s@, pat@, 0));
                    }
                }
            }
            break;
        }
        i -= 1;
    }
    proof {
        lemma_spec_rfind_none(s@, pat@, s@.len() - pat@.len());
    }
    None
}

/// ASCII whitespace, as `char::is_ascii_whitespace` defines it.
pub open spec fn is_ws(c: char) -> bool {
    c == ' ' || c == '\t' || c == '\n' || c == '\u{c}' || c == '\r'
}

/// Runtime test for ASCII whitespace.
pub fn ws_char(c: char) -> (r: bool)
    ensures
        r == is_ws(c),
{
    c == ' ' || c == '\t' || c == '\n' || c == '\u{c}' || c == '\r'
}

/// Index of the first character satisfying `p`, or `s.len()` if none does.
pub open spec fn first_idx(s: Seq<char>, p: spec_fn(char) -> bool) -> nat
    decreases s.len(),
{
    if s.len() == 0 {
        0
    } else if p(s[0]) {
        0
    } else {
        1 + first_idx(s.drop_first(), p)
    }
}

/// `first_idx` is at most the length, nothing before it satisfies `p`, and
/// the character at it (if any) does.
pub proof fn lemma_first_idx_props(s: Seq<char>, p: spec_fn(char) -> bool)
    ensures
        first_idx(s, p) <= s.len(),
        forall|i: int| 0 <= i < first_idx(s, p) ==> !p(s[i]),
        first_idx(s, p) < s.len() ==> p(s[first_idx(s, p) as int]),
    decreases s.len(),
{
    if s.len() == 0 {
    } else if p(s[0]) {
    } else {
        lemma_first_idx_props(s.drop_first(), p);
        assert forall|i: int| 0 <= i < first_idx(s, p) implies !p(s[i]) by {
            if i > 0 {
                assert(s.drop_first()[i - 1] == s[i]);
            }
        }
        if first_idx(s, p) < s.len() {
            assert(s.drop_first()[first_idx(s.drop_first(), p) as int] == s[first_idx(
                s,
                p,
            ) as int]);
        }
    }
}

/// Any index with the properties of `first_idx` is `first_idx`.
pub proof fn lemma_first_idx_unique(s: Seq<char>, p: spec_fn(char) -> bool, k: int)
    requires
        0 <= k <= s.len(),
        forall|i: int| 0 <= i < k ==> !p(s[i]),
        k < s.len() ==> p(s[k]),
    ensures
        first_idx(s, p) == k,
    decreases s.len(),
{
    if s.len() == 0 {
    } else if p(s[0]) {
    } else {
        assert(!p(s[0]));
        assert(k != 0);
        assert forall|i: int| 0 <= i < k - 1 implies !p(s.drop_first()[i]) by {
            assert(s.drop_first()[i] == s[i + 1]);
        }
        if k - 1 < s.drop_first().len() {
            assert(s.drop_first()[k - 1] == s[k]);
        }
        lemma_first_idx_unique(s.drop_first(), p, k - 1);
    }
}

/// The maximal whitespace-separated fields of `s`, in order.
pub open spec fn spec_fields(s: Seq<char>) -> Seq<Seq<char>>
    decreases s.len(),
    via spec_fields_dec
{
    if s.len() == 0 {
        Seq::empty()
    } else if is_ws(s[0]) {
        spec_fields(s.drop_first())
    } else {
        let j = first_idx(s, |c: char| is_ws(c));
        seq![s.take(j as int)] + spec_fields(s.skip(j as int))
    }
}

#[via_fn]
proof fn spec_fields_dec(s: Seq<char>) {
    if s.len() > 0 && !is_ws(s[0]) {
        lemma_first_idx_props(s, |c: char| is_ws(c));
    }
}

/// Dropping a leading whitespace character leaves the fields unchanged.
pub proof fn lemma_fields_skip_ws(t: Seq<char>)
    requires
        t.len() > 0,
        is_ws(t[0]),
    ensures
        spec_fields(t) == spec_fields(t.drop_first()),
{
}

/// A maximal non-whitespace run at the front of `t` is its first field.
pub proof fn lemma_fields_take_run(t: Seq<char>, j: int)
    requires
        0 < j <= t.len(),
        forall|i: int| 0 <= i < j ==> !is_ws(t[i]),
        j < t.len() ==> is_ws(t[j]),
    ensures
        spec_fields(t) == seq![t.take(j)] + spec_fields(t.skip(j)),
{
    lemma_first_idx_unique(t, |c: char| is_ws(c), j);
}

/// Split `s` into its maximal runs of non-whitespace characters.
pub fn split_ws_fields(s: &str) -> (r: Vec<String>)
    ensures
        r.deep_view() == spec_fields(s@),
{
    let len = s.unicode_len();
    let mut r: Vec<String> = Vec::new();
    let mut i: usize = 0;
    proof {
        assert(s@.skip(0) =~= s@);
        assert(r.deep_view() =~= Seq::<Seq<char>>::empty());
    }
    loop
        invariant
            i <= len,
            len == s@.len(),
            spec_fields(s@) == r.deep_view() + spec_fields(s@.skip(i as int)),
        ensures
            spec_fields(s@) == r.deep_view(),
        decreases len - i,
    {
        let ghost i0 = i;
        while i < len && ws_char(s.get_char(i))
            invariant
                i0 <= i <= len,
                len == s@.len(),
                spec_fields(s@) == r.deep_view() + spec_fields(s@.skip(i as int)),
            decreases len - i,
        {
            proof {
                lemma_fields_skip_ws(s@.skip(i as int));
                assert(s@.skip(i as int).drop_first() =~= s@.skip(i as int + 1));
            }
            i += 1;
        }
        if i == len {
            proof {
                assert(s@.skip(i as int) =~= Seq::<char>::empty());
                assert(r.deep_view() + spec_fields(s@.skip(i as int)) =~= r.deep_view());
            }
            break;
        }
        let start = i;
        let mut j = i + 1;
        while j < len && !ws_char(s.get_char(j))
            invariant
                start < j <= len,
                len == s@.len(),
                forall|k: int| start <= k < j ==> !is_ws(s@[k]),
            decreases len - j,
        {
            j += 1;
        }
        let field = String::from_str(s.substring_char(start, j));
        proof {
            let t = s@.skip(start as int);
            assert forall|k: int| 0 <= k < j - start implies !is_ws(t[k]) by {
                assert(t[k] == s@[start + k]);
            }
            if j < len {
                assert(t[j - start] == s@[j as int]);
            }
            lemma_fields_take_run(t, j - start);
            assert(t.take(j - start) =~= s@.subrange(start as int, j as int));
            assert(t.skip(j - start) =~= s@.skip(j as int));
        }
        let ghost old_dv = r.deep_view();
        r.push(field);
        proof {
            assert(r.deep_view() =~= old_dv + seq![field@]);
            assert(r.deep_view() + spec_fields(s@.skip(j as int)) =~= old_dv + (seq![
                s@.skip(start as int).take(j - start),
            ] + spec_fields(s@.skip(start as int).skip(j - start))));
        }
        i = j;
    }
    r
}

/// A line with its single trailing carriage return removed, if it has one.
pub open spec fn strip_cr(s: Seq<char>) -> Seq<char> {
    if s.len() > 0 && s.last() == '\r' {
        s.drop_last()
    } else {
        s
    }
}

/// The lines of `s`: segments separated by `'\n'`, each stripped of one
/// trailing `'\r'`; a final segment is a line only if it is non-empty.
pub open spec fn spec_lines(s: Seq<char>) -> Seq<Seq<char>>
    decreases s.len(),
    via spec_lines_dec
{
    if s.len() == 0 {
        Seq::empty()
    } else {
        let j = first_idx(s, |c: char| c == '\n');
        if j == s.len() {
            seq![strip_cr(s)]
        } else {
            seq![strip_cr(s.take(j as int))] + spec_lines(s.skip(j as int + 1))
        }
    }
}

#[via_fn]
proof fn spec_lines_dec(s: Seq<char>) {
    if s.len() > 0 {
        lemma_first_idx_props(s, |c: char| c == '\n');
    }
}

/// Split `s` into lines as `spec_lines` describes.
pub fn split_lines(s: &str) -> (r: Vec<String>)
    ensures
        r.deep_view() == spec_lines(s@),
{
    let len = s.unicode_len();
    let mut r: Vec<String> = Vec::new();
    let mut i: usize = 0;
    proof {
        assert(s@.skip(0) =~= s@);
        assert(r.deep_view() =~= Seq::<Seq<char>>::empty());
    }
    while i < len
        invariant
            i <= len,
            len == s@.len(),
            spec_lines(s@) == r.deep_view() + spec_lines(s@.skip(i as int)),
        decreases len - i,
    {
        let start = i;
        let mut j = i;
        while j < len && s.get_char(j) != '\n'
            invariant
                start <= j <= len,
                len == s@.len(),
                forall|k: int| start <= k < j ==> s@[k] != '\n',
            decreases len - j,
        {
            j += 1;
        }
        let mut end = j;
        if end > start && s.get_char(end - 1) == '\r' {
            end -= 1;
        }
        let line = String::from_str(s.substring_char(start, end));
        proof {
            let t = s@.skip(start as int);
            assert forall|k: int| 0 <= k < j - start implies t[k] != '\n' by {
                assert(t[k] == s@[start + k]);
            }
            if j < len {
                assert(t[j - start] == s@[j as int]);
            }
            lemma_first_idx_unique(t, |c: char| c == '\n', j - start);
            assert(t.take(j - start) =~= s@.subrange(start as int, j as int));
            assert(strip_cr(t.take(j - start)) =~= s@.subrange(start as int, end as int));
            if j == len {
                assert(strip_cr(t) =~= s@.subrange(start as int, end as int));
            } else {
                assert(t.skip(j - start + 1) =~= s@.skip(j as int + 1));
            }
        }
        let ghost old_dv = r.deep_view();
        r.push(line);
        proof {
            assert(r.deep_view() =~= old_dv + seq![line@]);
            if j == len {
                assert(spec_lines(s@.skip(start as int)) == seq![
                    strip_cr(s@.skip(start as int)),
                ]);
                assert(s@.skip(len as int) =~= Seq::<char>::empty());
                assert(r.deep_view() + spec_lines(s@.skip(len as int)) =~= old_dv + seq![line@]);
            } else {
                assert(r.deep_view() + spec_lines(s@.skip(j as int + 1)) =~= old_dv + (seq![
                    strip_cr(s@.skip(start as int).take(j - start)),
                ] + spec_lines(s@.skip(start as int).skip(j - start + 1))));
            }
        }
        if j == len {
            i = len;
        } else {
            i = j + 1;
        }
    }
    proof {
        assert(s@.skip(len as int) =~= Seq::<char>::empty());
        assert(r.deep_view() =~= r.deep_view() + spec_lines(s@.skip(i as int)));
    }
    r
}

} // verus!
