//! Verified helpers on strings and character sequences: trimming,
//! lexicographic comparison, substring search, decimal parsing, and
//! single-character appends.

use vstd::prelude::*;
use vstd::string::StrSliceExecFns;
use vstd::string::StringExecFns;

verus! {

/// Relies on `String::push`: appends exactly the one given character.
pub assume_specification[ String::push ](s: &mut String, c: char)
    ensures
        final(s)@ == old(s)@.push(c),
;

/// The whitespace characters that trimming removes.
pub open spec fn is_space_char(c: char) -> bool {
    c == ' ' || c == '\t' || c == '\n' || c == '\r'
}

/// `s` without leading whitespace.
pub open spec fn trim_start_spec(s: Seq<char>) -> Seq<char>
    decreases s.len(),
{
    if s.len() == 0 {
        s
    } else if is_space_char(s[0]) {
        trim_start_spec(s.drop_first())
    } else {
        s
    }
}

/// `s` without trailing whitespace.
pub open spec fn trim_end_spec(s: Seq<char>) -> Seq<char>
    decreases s.len(),
{
    if s.len() == 0 {
        s
    } else if is_space_char(s.last()) {
        trim_end_spec(s.drop_last())
    } else {
        s
    }
}

/// `s` without leading or trailing whitespace.
pub open spec fn trim_spec(s: Seq<char>) -> Seq<char> {
    trim_end_spec(trim_start_spec(s))
}

pub fn is_space(c: char) -> (r: bool)
    ensures
        r == is_space_char(c),
{
    c == ' ' || c == '\t' || c == '\n' || c == '\r'
}

proof fn lemma_trim_start_at(s: Seq<char>, i: int)
    requires
        0 <= i <= s.len(),
        forall|k: int| 0 <= k < i ==> is_space_char(#[trigger] s[k]),
        i < s.len() ==> !is_space_char(s[i]),
    ensures
        trim_start_spec(s) == s.skip(i),
    decreases i,
{
    if i == 0 {
        assert(s.skip(0) =~= s);
    } else {
        lemma_trim_start_at(s.drop_first(), i - 1);
        assert(s.drop_first().skip(i - 1) =~= s.skip(i));
    }
}

proof fn lemma_trim_end_at(s: Seq<char>, j: int)
    requires
        0 <= j <= s.len(),
        forall|k: int| j <= k < s.len() ==> is_space_char(#[trigger] s[k]),
        j > 0 ==> !is_space_char(s[j - 1]),
    ensures
        trim_end_spec(s) == s.take(j),
    decreases s.len() - j,
{
    if j == s.len() {
        assert(s.take(j) =~= s);
    } else {
        lemma_trim_end_at(s.drop_last(), j);
        assert(s.drop_last().take(j) =~= s.take(j));
    }
}

/// A trimmed string starts and ends with non-whitespace.
pub proof fn lemma_trim_shape(s: Seq<char>)
    ensures
        trim_spec(s).len() > 0 ==> !is_space_char(trim_spec(s)[0]),
        trim_spec(s).len() > 0 ==> !is_space_char(trim_spec(s).last()),
        trim_spec(trim_spec(s)) == trim_spec(s),
    decreases s.len(),
{
    lemma_trim_start_shape(s);
    lemma_trim_end_shape(trim_start_spec(s));
    let t = trim_spec(s);
    if t.len() > 0 {
        assert(t[0] == trim_start_spec(s)[0]) by {
            lemma_trim_end_prefix(trim_start_spec(s));
        }
        lemma_trim_start_at(t, 0);
        lemma_trim_end_at(t, t.len() as int);
    } else {
        assert(trim_start_spec(t) =~= t);
        assert(trim_end_spec(t) == t);
    }
}

proof fn lemma_trim_start_shape(s: Seq<char>)
    ensures
        trim_start_spec(s).len() > 0 ==> !is_space_char(trim_start_spec(s)[0]),
        trim_start_spec(s).len() <= s.len(),
    decreases s.len(),
{
    if s.len() > 0 && is_space_char(s[0]) {
        lemma_trim_start_shape(s.drop_first());
    }
}

proof fn lemma_trim_end_shape(s: Seq<char>)
    ensures
        trim_end_spec(s).len() > 0 ==> !is_space_char(trim_end_spec(s).last()),
        trim_end_spec(s).len() <= s.len(),
    decreases s.len(),
{
    if s.len() > 0 && is_space_char(s.last()) {
        lemma_trim_end_shape(s.drop_last());
    }
}

proof fn lemma_trim_end_prefix(s: Seq<char>)
    ensures
        trim_end_spec(s) == s.take(trim_end_spec(s).len() as int),
        trim_end_spec(s).len() <= s.len(),
    decreases s.len(),
{
    if s.len() == 0 || !is_space_char(s.last()) {
        assert(s.take(s.len() as int) =~= s);
    } else {
        lemma_trim_end_prefix(s.drop_last());
        let t = trim_end_spec(s);
        assert(s.drop_last().take(t.len() as int) =~= s.take(t.len() as int));
    }
}

/// A copy of `s` with leading and trailing whitespace removed.
pub fn trim_str(s: &str) -> (r: String)
    ensures
        r@ == trim_spec(s@),
{
    let len = s.unicode_len();
    let mut i: usize = 0;
    while i < len && is_space(s.get_char(i))
        invariant
            0 <= i <= len,
            len == s@.len(),
            forall|k: int| 0 <= k < i ==> is_space_char(#[trigger] s@[k]),
        decreases len - i,
    {
        i = i + 1;
    }
    proof {
        lemma_trim_start_at(s@, i as int);
    }
    if i == len {
        let r = String::new();
        proof {
            assert(s@.skip(i as int) =~= Seq::<char>::empty());
            assert(trim_end_spec(trim_start_spec(s@)) =~= Seq::<char>::empty());
        }
        return r;
    }
    // There is a non-space character at index i, so trimming from the end
    // stops at or after it.
    let mut j: usize = len;
    while j > i + 1 && is_space(s.get_char(j - 1))
        invariant
            i < j <= len,
            len == s@.len(),
            forall|k: int| j <= k < len ==> is_space_char(#[trigger] s@[k]),
        decreases j,
    {
        j = j - 1;
    }
    let sub = s.substring_char(i, j);
    proof {
        let st = s@.skip(i as int);
        if is_space_char(s@[j - 1]) {
            // Only possible when j == i + 1, but s@[i] is not a space.
            assert(!is_space_char(s@[i as int]));
            assert(j - 1 == i);
            assert(false);
        }
        lemma_trim_end_at(st, j - i);
        assert(st.take(j - i) =~= s@.subrange(i as int, j as int));
    }
    sub.to_owned()
}

/// Strict lexicographic order on character sequences, by Unicode scalar
/// value; the order `Vec<String>::sort` uses on valid UTF-8.
pub open spec fn lex_lt(a: Seq<char>, b: Seq<char>) -> bool
    decreases a.len(),
{
    if b.len() == 0 {
        false
    } else if a.len() == 0 {
        true
    } else if (a[0] as u32) < (b[0] as u32) {
        true
    } else if (a[0] as u32) > (b[0] as u32) {
        false
    } else {
        lex_lt(a.drop_first(), b.drop_first())
    }
}

pub proof fn lemma_lex_lt_trichotomy(a: Seq<char>, b: Seq<char>)
    ensures
        lex_lt(a, b) || lex_lt(b, a) || a == b,
    decreases a.len(),
{
    if b.len() == 0 {
        if a.len() == 0 {
            assert(a =~= b);
        }
    } else if a.len() == 0 {
    } else if (a[0] as u32) == (b[0] as u32) {
        assert(a[0] == b[0]) by {
            vstd::utf8::char_u32_cast(a[0], a[0] as u32);
            vstd::utf8::char_u32_cast(b[0], b[0] as u32);
        }
        lemma_lex_lt_trichotomy(a.drop_first(), b.drop_first());
        if a.drop_first() == b.drop_first() {
            assert(a.drop_first().len() == a.len() - 1);
            assert(b.drop_first().len() == b.len() - 1);
            assert(a.len() == b.len());
            assert forall|k: int| 0 <= k < a.len() implies a[k] == b[k] by {
                if k > 0 {
                    assert(a.drop_first()[k - 1] == b.drop_first()[k - 1]);
                }
            }
            assert(a =~= b);
        }
    }
}

pub proof fn lemma_lex_lt_transitive(a: Seq<char>, b: Seq<char>, c: Seq<char>)
    requires
        lex_lt(a, b),
        lex_lt(b, c),
    ensures
        lex_lt(a, c),
    decreases a.len(),
{
    if a.len() > 0 && b.len() > 0 && c.len() > 0 && (a[0] as u32) == (b[0] as u32) && (b[0]
        as u32) == (c[0] as u32) {
        lemma_lex_lt_transitive(a.drop_first(), b.drop_first(), c.drop_first());
    }
}

proof fn lemma_lex_lt_skip(a: Seq<char>, b: Seq<char>, i: int)
    requires
        0 <= i <= a.len(),
        i <= b.len(),
        forall|k: int| 0 <= k < i ==> a[k] == b[k],
    ensures
        lex_lt(a, b) == lex_lt(a.skip(i), b.skip(i)),
    decreases i,
{
    if i == 0 {
        assert(a.skip(0) =~= a);
        assert(b.skip(0) =~= b);
    } else {
        assert(a.len() > 0 && b.len() > 0);
        lemma_lex_lt_skip(a.drop_first(), b.drop_first(), i - 1);
        assert(a.drop_first().skip(i - 1) =~= a.skip(i));
        assert(b.drop_first().skip(i - 1) =~= b.skip(i));
    }
}

/// Decides the strict lexicographic order on two strings.
pub fn str_lt(a: &str, b: &str) -> (r: bool)
    ensures
        r == lex_lt(a@, b@),
{
    let alen = a.unicode_len();
    let blen = b.unicode_len();
    let mut i: usize = 0;
    loop
        invariant
            0 <= i <= alen,
            i <= blen,
            alen == a@.len(),
            blen == b@.len(),
            forall|k: int| 0 <= k < i ==> a@[k] == b@[k],
        decreases alen - i,
    {
        proof {
            lemma_lex_lt_skip(a@, b@, i as int);
        }
        if i == alen || i == blen {
            return alen < blen;
        }
        let ca = a.get_char(i) as u32;
        let cb = b.get_char(i) as u32;
        if ca < cb {
            return true;
        }
        if ca > cb {
            return false;
        }
        proof {
            vstd::utf8::char_u32_cast(a@[i as int], ca);
            vstd::utf8::char_u32_cast(b@[i as int], cb);
        }
        i = i + 1;
    }
}

/// Decides whether two strings hold the same characters.
pub fn str_eq(a: &str, b: &str) -> (r: bool)
    ensures
        r == (a@ == b@),
{
    let alen = a.unicode_len();
    let blen = b.unicode_len();
    if alen != blen {
        return false;
    }
    let mut i: usize = 0;
    while i < alen
        invariant
            0 <= i <= alen,
            alen == a@.len(),
            alen == b@.len(),
            forall|k: int| 0 <= k < i ==> a@[k] == b@[k],
        decreases alen - i,
    {
        if a.get_char(i) != b.get_char(i) {
            return false;
        }
        i = i + 1;
    }
    proof {
        assert(a@ =~= b@);
    }
    true
}

/// `needle` occurs in `hay` as a contiguous run of characters.
pub open spec fn contains_seq(hay: Seq<char>, needle: Seq<char>) -> bool {
    exists|k: int|
        0 <= k && k + needle.len() <= hay.len() && #[trigger] hay.subrange(k, k + needle.len())
            == needle
}

/// Decides substring containment.
pub fn str_contains(hay: &str, needle: &str) -> (r: bool)
    ensures
        r == contains_seq(hay@, needle@),
{
    let hlen = hay.unicode_len();
    let nlen = needle.unicode_len();
    if nlen > hlen {
        return false;
    }
    let mut k: usize = 0;
    loop
        invariant
            0 <= k <= hlen - nlen,
            nlen <= hlen,
            hlen == hay@.len(),
            nlen == needle@.len(),
            forall|k0: int|
                0 <= k0 < k ==> #[trigger] hay@.subrange(k0, k0 + needle@.len() as int)
                    != needle@,
        decreases hlen - nlen - k,
    {
        if match_at(hay, needle, k) {
            return true;
        }
        if k == hlen - nlen {
            return false;
        }
        k = k + 1;
    }
}

/// Decides whether `needle` occurs in `hay` starting at character `k`.
fn match_at(hay: &str, needle: &str, k: usize) -> (r: bool)
    requires
        k + needle@.len() <= hay@.len(),
    ensures
        r == (hay@.subrange(k as int, k + needle@.len() as int) == needle@),
{
    let hlen = hay.unicode_len();
    let nlen = needle.unicode_len();
    let mut j: usize = 0;
    while j < nlen
        invariant
            0 <= j <= nlen,
            nlen == needle@.len(),
            hlen == hay@.len(),
            k + nlen <= hlen,
            forall|m: int| 0 <= m < j ==> hay@[k + m] == needle@[m],
        decreases nlen - j,
    {
        if hay.get_char(k + j) != needle.get_char(j) {
            proof {
                let sub = hay@.subrange(k as int, k + needle@.len() as int);
                assert(sub[j as int] == hay@[k + j]);
            }
            return false;
        }
        j = j + 1;
    }
    proof {
        assert(hay@.subrange(k as int, k + needle@.len() as int) =~= needle@);
    }
    true
}

/// Strictly increasing in the lexicographic order: sorted with no
/// duplicates.
pub open spec fn strictly_sorted_lex(s: Seq<Seq<char>>) -> bool {
    forall|i: int, j: int| 0 <= i < j < s.len() ==> lex_lt(#[trigger] s[i], #[trigger] s[j])
}

/// Inserts `tag` into a strictly sorted vector, keeping it strictly
/// sorted; a tag already present is left alone.
pub fn insert_sorted_unique(out: &mut Vec<String>, tag: &String)
    requires
        strictly_sorted_lex(old(out).deep_view()),
    ensures
        strictly_sorted_lex(final(out).deep_view()),
        final(out).deep_view().to_set() == old(out).deep_view().to_set().insert(tag@),
{
    proof {
        crate::idea::lemma_string_vec_deep_view(out);
    }
    let ghost dv = out.deep_view();
    let n = out.len();
    let mut idx: usize = 0;
    while idx < n && str_lt(out[idx].as_str(), tag.as_str())
        invariant
            0 <= idx <= n,
            n == out@.len(),
            dv == out.deep_view(),
            dv.len() == n,
            forall|k: int| 0 <= k < dv.len() ==> #[trigger] dv[k] == out@[k]@,
            forall|k: int| 0 <= k < idx ==> lex_lt(#[trigger] dv[k], tag@),
        decreases n - idx,
    {
        idx = idx + 1;
    }
    if idx < n && out[idx].eq(tag) {
        // Already present: the set gains nothing.
        proof {
            assert(dv[idx as int] == tag@);
            assert(dv.contains(tag@));
            assert(dv.to_set() =~= dv.to_set().insert(tag@));
        }
        return ;
    }
    proof {
        lemma_lex_lt_trichotomy(dv[idx as int], tag@);
        if idx < n {
            assert(lex_lt(tag@, dv[idx as int]));
        }
    }
    out.insert(idx, tag.clone());
    proof {
        crate::idea::lemma_string_vec_deep_view(out);
        let dv2 = out.deep_view();
        assert(dv2.len() == dv.len() + 1);
        assert(forall|k: int| 0 <= k < idx ==> #[trigger] dv2[k] == dv[k]);
        assert(dv2[idx as int] == tag@);
        assert(forall|k: int| idx < k < dv2.len() ==> #[trigger] dv2[k] == dv[k - 1]);
        assert(strictly_sorted_lex(dv2)) by {
            assert forall|i: int, j: int| 0 <= i < j < dv2.len() implies lex_lt(
                #[trigger] dv2[i],
                #[trigger] dv2[j],
            ) by {
                if i < idx && j == idx {
                } else if i == idx && j > idx {
                    if idx < n {
                        if j - 1 > idx {
                            lemma_lex_lt_transitive(tag@, dv[idx as int], dv[j - 1]);
                        }
                    }
                } else if i < idx && j > idx {
                    if j - 1 > i {
                    } else {
                        assert(j - 1 == i && i == idx - 1);
                        assert(lex_lt(dv[i], tag@));
                        assert(false);
                    }
                }
            }
        }
        assert(dv2.to_set() =~= dv.to_set().insert(tag@)) by {
            assert forall|x: Seq<char>| dv2.to_set().contains(x) implies dv.to_set().insert(
                tag@,
            ).contains(x) by {
                let k = choose|k: int| 0 <= k < dv2.len() && dv2[k] == x;
                if k < idx {
                    assert(dv[k] == x);
                } else if k > idx {
                    assert(dv[k - 1] == x);
                }
            }
            assert forall|x: Seq<char>| dv.to_set().insert(tag@).contains(x) implies dv2.to_set()
                .contains(x) by {
                if x == tag@ {
                    assert(dv2[idx as int] == x);
                } else {
                    let k = choose|k: int| 0 <= k < dv.len() && dv[k] == x;
                    if k < idx {
                        assert(dv2[k] == x);
                    } else {
                        assert(dv2[k + 1] == x);
                    }
                }
            }
        }
    }
}

/// A decimal digit.
pub open spec fn is_digit_char(c: char) -> bool {
    48 <= c as u32 <= 57
}

/// The numeric value of a decimal digit.
pub open spec fn digit_val(c: char) -> int {
    c as u32 - 48
}

/// A non-empty, all-digit character sequence.
pub open spec fn all_digits(s: Seq<char>) -> bool {
    s.len() > 0 && forall|i: int| 0 <= i < s.len() ==> is_digit_char(#[trigger] s[i])
}

/// The number the digit sequence denotes, most significant digit first.
pub open spec fn digits_val(s: Seq<char>) -> int
    decreases s.len(),
{
    if s.len() == 0 {
        0
    } else {
        digits_val(s.drop_last()) * 10 + digit_val(s.last())
    }
}

pub proof fn lemma_digits_val_bounds(s: Seq<char>)
    requires
        forall|i: int| 0 <= i < s.len() ==> is_digit_char(#[trigger] s[i]),
    ensures
        digits_val(s) >= 0,
        forall|m: int| 0 <= m <= s.len() ==> #[trigger] digits_val(s.take(m)) <= digits_val(s),
    decreases s.len(),
{
    if s.len() == 0 {
        assert forall|m: int| 0 <= m <= s.len() implies #[trigger] digits_val(s.take(m))
            <= digits_val(s) by {
            assert(s.take(m) =~= s);
        }
    } else {
        lemma_digits_val_bounds(s.drop_last());
        assert(digits_val(s) >= digits_val(s.drop_last())) by {
            assert(digits_val(s.drop_last()) * 10 >= digits_val(s.drop_last())) by (
            nonlinear_arith)
                requires
                    digits_val(s.drop_last()) >= 0,
            ;
        }
        assert forall|m: int| 0 <= m <= s.len() implies #[trigger] digits_val(s.take(m))
            <= digits_val(s) by {
            if m == s.len() {
                assert(s.take(m) =~= s);
            } else {
                assert(s.take(m) =~= s.drop_last().take(m));
            }
        }
    }
}

/// Parses `s` from character `start` to the end as an unsigned decimal
/// number. Fails with `ParseError` when the run is empty, holds a
/// non-digit, or does not fit in `i64`.
pub fn parse_decimal(s: &str, start: usize) -> (r: Result<i64, crate::error::Error>)
    requires
        start <= s@.len(),
    ensures
        match r {
            Ok(v) => all_digits(s@.skip(start as int)) && 0 <= v && v == digits_val(
                s@.skip(start as int),
            ),
            Err(e) => e == crate::error::Error::ParseError && (!all_digits(
                s@.skip(start as int),
            ) || digits_val(s@.skip(start as int)) > i64::MAX),
        },
{
    let len = s.unicode_len();
    let ghost digits = s@.skip(start as int);
    if start == len {
        return Err(crate::error::Error::ParseError);
    }
    let mut acc: i64 = 0;
    let mut i: usize = start;
    while i < len
        invariant
            start <= i <= len,
            len == s@.len(),
            start < len,
            digits == s@.skip(start as int),
            forall|k: int| start <= k < i ==> is_digit_char(#[trigger] s@[k]),
            0 <= acc,
            acc == digits_val(digits.take(i - start)),
        decreases len - i,
    {
        let c = s.get_char(i);
        let cv = c as u32;
        if cv < 48 || cv > 57 {
            assert(!is_digit_char(digits[i - start]));
            return Err(crate::error::Error::ParseError);
        }
        let d = (cv - 48) as i64;
        proof {
            assert(digits.take(i + 1 - start).drop_last() =~= digits.take(i - start));
            assert(digits.take(i + 1 - start).last() == s@[i as int]);
        }
        if acc > (i64::MAX - d) / 10 {
            proof {
                assert(acc * 10 + d > i64::MAX) by (nonlinear_arith)
                    requires
                        acc > (i64::MAX - d) / 10,
                        0 <= d <= 9,
                ;
                if all_digits(digits) {
                    lemma_digits_val_bounds(digits);
                    assert(digits_val(digits.take(i + 1 - start)) <= digits_val(digits));
                }
            }
            return Err(crate::error::Error::ParseError);
        }
        proof {
            assert(acc * 10 + d <= i64::MAX) by (nonlinear_arith)
                requires
                    acc <= (i64::MAX - d) / 10,
                    0 <= acc,
                    0 <= d <= 9,
            ;
            assert(acc * 10 >= 0) by (nonlinear_arith)
                requires
                    acc >= 0,
            ;
        }
        acc = acc * 10 + d;
        i = i + 1;
    }
    proof {
        assert(digits.take(len - start) =~= digits);
    }
    Ok(acc)
}

/// A character with ASCII lower-case letters replaced by upper-case ones.
pub open spec fn upper_char(c: char) -> char {
    if 97 <= c as u32 <= 122 {
        ((c as u32) - 32) as char
    } else {
        c
    }
}

/// A copy of `s` with ASCII lower-case letters replaced by upper-case ones.
pub fn to_uppercase_str(s: &str) -> (r: String)
    ensures
        r@ == s@.map_values(|c: char| upper_char(c)),
{
    let len = s.unicode_len();
    let mut r = String::new();
    let mut i: usize = 0;
    while i < len
        invariant
            0 <= i <= len,
            len == s@.len(),
            r@ == s@.take(i as int).map_values(|c: char| upper_char(c)),
        decreases len - i,
    {
        let c = s.get_char(i);
        let cv = c as u32;
        let u: char;
        if 97 <= cv && cv <= 122 {
            u = ((cv - 32) as u8) as char;
        } else {
            u = c;
        }
        assert(u == upper_char(s@[i as int]));
        r.push(u);
        proof {
            assert(s@.take(i + 1).map_values(|c: char| upper_char(c)) =~= s@.take(
                i as int,
            ).map_values(|c: char| upper_char(c)).push(upper_char(s@[i as int])));
        }
        i = i + 1;
    }
    proof {
        assert(s@.take(len as int) =~= s@);
    }
    r
}

} // verus!
