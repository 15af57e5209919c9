//! Verified text utilities: whitespace detection, lexicographic order,
//! substring search, splitting, and decimal formatting. All contracts are
//! stated over `Seq<char>` views.

use vstd::prelude::*;
use vstd::string::StrSliceExecFns;
use crate::outside::push_char;

verus! {

/// Whether a character is whitespace, as far as class names go: space,
/// tab, line feed, form feed or carriage return.
pub open spec fn is_space(c: char) -> bool {
    c == ' ' || c == '\t' || c == '\n' || c == '\r' || c as u32 == 12
}

/// Whether the sequence is empty or holds only whitespace.
pub open spec fn is_blank(s: Seq<char>) -> bool {
    forall|i: int| 0 <= i < s.len() ==> is_space(#[trigger] s[i])
}

/// Whether the string is empty or holds only whitespace.
pub fn is_blank_str(s: &str) -> (r: bool)
    ensures
        r == is_blank(s@),
{
    let n = s.unicode_len();
    let mut i: usize = 0;
    while i < n
        invariant
            i <= n,
            n == s@.len(),
            forall|j: int| 0 <= j < i ==> is_space(#[trigger] s@[j]),
        decreases n - i,
    {
        let c = s.get_char(i);
        if !(c == ' ' || c == '\t' || c == '\n' || c == '\r' || c as u32 == 12) {
            return false;
        }
        i = i + 1;
    }
    true
}

/// The views of a sequence of strings.
pub open spec fn views_of(v: Seq<String>) -> Seq<Seq<char>> {
    v.map_values(|x: String| x@)
}

/// Pushing a string commutes with taking views.
pub proof fn lemma_views_of_push(v: Seq<String>, s: String)
    ensures
        views_of(v.push(s)) == views_of(v).push(s@),
{
    assert(views_of(v.push(s)).len() == v.len() + 1);
    assert(views_of(v).len() == v.len());
    assert forall|j: int| 0 <= j < v.len() + 1 implies views_of(v.push(s))[j] == views_of(v).push(
        s@,
    )[j] by {
        assert(views_of(v.push(s))[j] == v.push(s)[j]@);
        if j < v.len() {
            assert(v.push(s)[j] == v[j]);
            assert(views_of(v)[j] == v[j]@);
        } else {
            assert(v.push(s)[j] == s);
        }
    }
    assert(views_of(v.push(s)) =~= views_of(v).push(s@));
}

/// Concatenation commutes with taking views.
pub proof fn lemma_views_of_add(a: Seq<String>, b: Seq<String>)
    ensures
        views_of(a + b) == views_of(a) + views_of(b),
{
    assert(views_of(a + b).len() == a.len() + b.len());
    assert(views_of(a).len() == a.len());
    assert(views_of(b).len() == b.len());
    assert forall|j: int| 0 <= j < a.len() + b.len() implies views_of(a + b)[j] == (views_of(a)
        + views_of(b))[j] by {
        assert(views_of(a + b)[j] == (a + b)[j]@);
        if j < a.len() {
            assert((a + b)[j] == a[j]);
            assert(views_of(a)[j] == a[j]@);
        } else {
            assert((a + b)[j] == b[j - a.len()]);
            assert(views_of(b)[j - a.len()] == b[j - a.len()]@);
        }
    }
    assert(views_of(a + b) =~= views_of(a) + views_of(b));
}

/// Lexicographic order on character sequences, by scalar value.
pub open spec fn lex_le(a: Seq<char>, b: Seq<char>) -> bool
    decreases a.len(),
{
    if a.len() == 0 {
        true
    } else if b.len() == 0 {
        false
    } else if a[0] != b[0] {
        a[0] < b[0]
    } else {
        lex_le(a.drop_first(), b.drop_first())
    }
}

/// The lexicographic order is total.
pub proof fn lemma_lex_total(a: Seq<char>, b: Seq<char>)
    ensures
        lex_le(a, b) || lex_le(b, a),
    decreases a.len(),
{
    if a.len() == 0 || b.len() == 0 {
    } else if a[0] == b[0] {
        lemma_lex_total(a.drop_first(), b.drop_first());
    }
}

/// The lexicographic order is transitive.
pub proof fn lemma_lex_trans(a: Seq<char>, b: Seq<char>, c: Seq<char>)
    requires
        lex_le(a, b),
        lex_le(b, c),
    ensures
        lex_le(a, c),
    decreases a.len(),
{
    if a.len() == 0 || b.len() == 0 || c.len() == 0 {
    } else if a[0] == b[0] && b[0] == c[0] {
        lemma_lex_trans(a.drop_first(), b.drop_first(), c.drop_first());
    }
}

/// Lexicographic comparison of two strings.
pub fn str_le(a: &str, b: &str) -> (r: bool)
    ensures
        r == lex_le(a@, b@),
{
    let na = a.unicode_len();
    let nb = b.unicode_len();
    let mut i: usize = 0;
    proof {
        assert(a@.skip(0) =~= a@);
        assert(b@.skip(0) =~= b@);
    }
    while i < na && i < nb
        invariant
            i <= na,
            i <= nb,
            na == a@.len(),
            nb == b@.len(),
            lex_le(a@, b@) == lex_le(a@.skip(i as int), b@.skip(i as int)),
        decreases na - i,
    {
        let ca = a.get_char(i);
        let cb = b.get_char(i);
        proof {
            assert(a@.skip(i as int)[0] == a@[i as int]);
            assert(b@.skip(i as int)[0] == b@[i as int]);
        }
        if ca != cb {
            return ca < cb;
        }
        proof {
            assert(a@.skip(i as int).drop_first() =~= a@.skip(i + 1));
            assert(b@.skip(i as int).drop_first() =~= b@.skip(i + 1));
        }
        i = i + 1;
    }
    proof {
        if i >= na {
            assert(a@.skip(i as int).len() == 0);
        } else {
            assert(b@.skip(i as int).len() == 0);
            assert(a@.skip(i as int).len() > 0);
        }
    }
    i >= na
}

/// Whether `needle` occurs in `hay` at position `k`.
pub open spec fn match_at_spec(hay: Seq<char>, needle: Seq<char>, k: int) -> bool {
    0 <= k && k + needle.len() <= hay.len() && hay.subrange(k, k + needle.len()) == needle
}

/// Whether `needle` occurs anywhere in `hay`.
pub open spec fn contains_seq(hay: Seq<char>, needle: Seq<char>) -> bool {
    exists|k: int| match_at_spec(hay, needle, k)
}

fn match_at(hay: &str, needle: &str, k: usize) -> (r: bool)
    requires
        k + needle@.len() <= hay@.len(),
    ensures
        r == match_at_spec(hay@, needle@, k as int),
{
    let nh = hay.unicode_len();
    let nn = needle.unicode_len();
    let mut j: usize = 0;
    while j < nn
        invariant
            j <= nn,
            nn == needle@.len(),
            nh == hay@.len(),
            k + nn <= hay@.len(),
            forall|j2: int| 0 <= j2 < j ==> hay@[k + j2] == needle@[j2],
        decreases nn - j,
    {
        if hay.get_char(k + j) != needle.get_char(j) {
            proof {
                assert(hay@.subrange(k as int, k + nn)[j as int] == hay@[k + j]);
            }
            return false;
        }
        j = j + 1;
    }
    proof {
        assert(hay@.subrange(k as int, k + nn) =~= needle@);
    }
    true
}

/// Whether `needle` occurs anywhere in `hay`.
pub fn str_contains(hay: &str, needle: &str) -> (r: bool)
    ensures
        r == contains_seq(hay@, needle@),
{
    let nh = hay.unicode_len();
    let nn = needle.unicode_len();
    if nn > nh {
        return false;
    }
    if nn == 0 {
        proof {
            assert(hay@.subrange(0, 0) =~= needle@);
            assert(match_at_spec(hay@, needle@, 0));
        }
        return true;
    }
    let mut k: usize = 0;
    while k <= nh - nn
        invariant
            nh == hay@.len(),
            nn == needle@.len(),
            0 < nn <= nh,
            k <= nh - nn + 1,
            forall|k2: int| 0 <= k2 < k ==> !match_at_spec(hay@, needle@, k2),
        decreases nh - k,
    {
        if match_at(hay, needle, k) {
            return true;
        }
        k = k + 1;
    }
    false
}

/// Whether `p` is a prefix of `s`.
pub open spec fn starts_with_spec(s: Seq<char>, p: Seq<char>) -> bool {
    match_at_spec(s, p, 0)
}

pub fn str_starts_with(s: &str, p: &str) -> (r: bool)
    ensures
        r == starts_with_spec(s@, p@),
{
    if p.unicode_len() > s.unicode_len() {
        return false;
    }
    match_at(s, p, 0)
}

/// Whether the sequence holds a decimal digit.
pub open spec fn is_digit(c: char) -> bool {
    48 <= c as u32 && c as u32 <= 57
}

pub open spec fn has_digit(s: Seq<char>) -> bool {
    exists|i: int| 0 <= i < s.len() && is_digit(s[i])
}

pub fn str_has_digit(s: &str) -> (r: bool)
    ensures
        r == has_digit(s@),
{
    let n = s.unicode_len();
    let mut i: usize = 0;
    while i < n
        invariant
            i <= n,
            n == s@.len(),
            forall|j: int| 0 <= j < i ==> !is_digit(s@[j]),
        decreases n - i,
    {
        let c = s.get_char(i);
        let u = c as u32;
        if 48 <= u && u <= 57 {
            return true;
        }
        i = i + 1;
    }
    false
}

/// The position of the first occurrence of `sep` in `s`, if any; `None`
/// when `sep` is empty.
pub open spec fn find_sep(s: Seq<char>, sep: Seq<char>) -> Option<int>
    decreases s.len(),
{
    if sep.len() == 0 || s.len() < sep.len() {
        None
    } else if s.subrange(0, sep.len() as int) == sep {
        Some(0)
    } else {
        match find_sep(s.drop_first(), sep) {
            Some(k) => Some(k + 1),
            None => None,
        }
    }
}

/// A found separator lies inside the string.
pub proof fn lemma_find_sep_bounds(s: Seq<char>, sep: Seq<char>)
    ensures
        match find_sep(s, sep) {
            Some(k) => 0 <= k && 1 <= sep.len() && k + sep.len() <= s.len() && s.subrange(
                k,
                k + sep.len(),
            ) == sep,
            None => true,
        },
    decreases s.len(),
{
    if sep.len() == 0 || s.len() < sep.len() {
    } else if s.subrange(0, sep.len() as int) == sep {
    } else {
        lemma_find_sep_bounds(s.drop_first(), sep);
        match find_sep(s.drop_first(), sep) {
            Some(k) => {
                assert(s.subrange(k + 1, k + 1 + sep.len()) =~= s.drop_first().subrange(
                    k,
                    k + sep.len(),
                ));
            },
            None => {},
        }
    }
}

proof fn lemma_find_sep_first(s: Seq<char>, sep: Seq<char>, k: int)
    requires
        sep.len() > 0,
        match_at_spec(s, sep, k),
        forall|k2: int| 0 <= k2 < k ==> !match_at_spec(s, sep, k2),
    ensures
        find_sep(s, sep) == Some(k),
    decreases s.len(),
{
    if k == 0 {
    } else {
        assert(!match_at_spec(s, sep, 0));
        assert(match_at_spec(s.drop_first(), sep, k - 1)) by {
            assert(s.drop_first().subrange(k - 1, k - 1 + sep.len()) =~= s.subrange(
                k,
                k + sep.len(),
            ));
        }
        assert forall|k2: int| 0 <= k2 < k - 1 implies !match_at_spec(s.drop_first(), sep, k2) by {
            if match_at_spec(s.drop_first(), sep, k2) {
                assert(s.subrange(k2 + 1, k2 + 1 + sep.len()) =~= s.drop_first().subrange(
                    k2,
                    k2 + sep.len(),
                ));
                assert(match_at_spec(s, sep, k2 + 1));
            }
        }
        lemma_find_sep_first(s.drop_first(), sep, k - 1);
    }
}

proof fn lemma_find_sep_none(s: Seq<char>, sep: Seq<char>)
    requires
        sep.len() > 0,
        forall|k2: int| 0 <= k2 ==> !match_at_spec(s, sep, k2),
    ensures
        find_sep(s, sep) is None,
    decreases s.len(),
{
    if s.len() < sep.len() {
    } else {
        assert(!match_at_spec(s, sep, 0));
        assert forall|k2: int| 0 <= k2 implies !match_at_spec(s.drop_first(), sep, k2) by {
            if match_at_spec(s.drop_first(), sep, k2) {
                assert(s.subrange(k2 + 1, k2 + 1 + sep.len()) =~= s.drop_first().subrange(
                    k2,
                    k2 + sep.len(),
                ));
                assert(match_at_spec(s, sep, k2 + 1));
            }
        }
        lemma_find_sep_none(s.drop_first(), sep);
    }
}

/// The position of the first occurrence of `sep` in `s`.
pub fn find_first(s: &str, sep: &str) -> (r: Option<usize>)
    ensures
        match r {
            Some(k) => find_sep(s@, sep@) == Some(k as int),
            None => find_sep(s@, sep@) is None,
        },
{
    let ns = s.unicode_len();
    let nsep = sep.unicode_len();
    if nsep == 0 || nsep > ns {
        return None;
    }
    let mut k: usize = 0;
    while k <= ns - nsep
        invariant
            ns == s@.len(),
            nsep == sep@.len(),
            0 < nsep <= ns,
            k <= ns - nsep + 1,
            forall|k2: int| 0 <= k2 < k ==> !match_at_spec(s@, sep@, k2),
        decreases ns - k,
    {
        if match_at(s, sep, k) {
            proof {
                lemma_find_sep_first(s@, sep@, k as int);
            }
            return Some(k);
        }
        k = k + 1;
    }
    proof {
        assert forall|k2: int| 0 <= k2 implies !match_at_spec(s@, sep@, k2) by {
            if k2 >= k {
                assert(k2 + sep@.len() > s@.len());
            }
        }
        lemma_find_sep_none(s@, sep@);
    }
    None
}

/// `s` cut at every occurrence of `sep`, the separators dropped. The
/// sequence of character views of the split parts equals `split_chars`.
pub open spec fn split_chars(s: Seq<char>, sep: Seq<char>) -> Seq<Seq<char>>
    decreases s.len(),
    via split_chars_decreases
{
    match find_sep(s, sep) {
        None => seq![s],
        Some(k) => seq![s.subrange(0, k)] + split_chars(
            s.subrange(k + sep.len(), s.len() as int),
            sep,
        ),
    }
}

#[via_fn]
proof fn split_chars_decreases(s: Seq<char>, sep: Seq<char>) {
    lemma_find_sep_bounds(s, sep);
}

/// `s` cut at every occurrence of `sep`; a string without the separator
/// comes back whole, as its one part.
pub fn split_str(s: &str, sep: &str) -> (r: Vec<String>)
    ensures
        views_of(r@) == split_chars(s@, sep@),
    decreases s@.len(),
{
    match find_first(s, sep) {
        None => {
            let mut v: Vec<String> = Vec::new();
            v.push(s.to_owned());
            proof {
                assert(views_of(v@) =~= seq![s@]);
            }
            v
        },
        Some(k) => {
            proof {
                lemma_find_sep_bounds(s@, sep@);
            }
            let ns = s.unicode_len();
            let nsep = sep.unicode_len();
            let head = s.substring_char(0, k);
            let tail = s.substring_char(k + nsep, ns);
            let mut v = split_str(tail, sep);
            let ghost old_views = views_of(v@);
            v.insert(0, head.to_owned());
            proof {
                assert(views_of(v@) =~= seq![s@.subrange(0, k as int)] + split_chars(
                    s@.subrange(k + nsep, ns as int),
                    sep@,
                )) by {
                    assert forall|i: int| 0 <= i < v@.len() implies views_of(v@)[i] == (seq![
                        s@.subrange(0, k as int),
                    ] + old_views)[i] by {
                        if i > 0 {
                            assert(v@[i] == v@.subrange(1, v@.len() as int)[i - 1]);
                        }
                    }
                }
            }
            v
        },
    }
}

/// The numeric value of a sequence of decimal digits, most significant
/// first.
pub open spec fn digit_val(c: char) -> int {
    c as u32 - 48
}

pub open spec fn all_digits(s: Seq<char>) -> bool {
    forall|i: int| 0 <= i < s.len() ==> is_digit(s[i])
}

pub open spec fn digits_val(s: Seq<char>) -> int
    decreases s.len(),
{
    if s.len() == 0 {
        0
    } else {
        digits_val(s.drop_last()) * 10 + digit_val(s.last())
    }
}

proof fn lemma_digits_val_monotone(s: Seq<char>, i: int, j: int)
    requires
        all_digits(s),
        0 <= i <= j <= s.len(),
    ensures
        0 <= digits_val(s.subrange(0, i)) <= digits_val(s.subrange(0, j)),
    decreases j,
{
    if i == j {
        lemma_digits_val_nonneg(s.subrange(0, i));
    } else {
        lemma_digits_val_monotone(s, i, j - 1);
        assert(s.subrange(0, j).drop_last() =~= s.subrange(0, j - 1));
        assert(is_digit(s[j - 1]));
    }
}

proof fn lemma_digits_val_nonneg(s: Seq<char>)
    requires
        all_digits(s),
    ensures
        digits_val(s) >= 0,
    decreases s.len(),
{
    if s.len() > 0 {
        assert(all_digits(s.drop_last()));
        lemma_digits_val_nonneg(s.drop_last());
        assert(is_digit(s.last()));
    }
}

/// Parses a decimal number that fits in a `u8`; anything else is `None`.
pub fn parse_u8(s: &str) -> (r: Option<u8>)
    ensures
        match r {
            Some(v) => s@.len() > 0 && all_digits(s@) && digits_val(s@) == v as int,
            None => s@.len() == 0 || !all_digits(s@) || digits_val(s@) > 255,
        },
{
    let n = s.unicode_len();
    if n == 0 {
        return None;
    }
    let mut acc: u32 = 0;
    let mut i: usize = 0;
    while i < n
        invariant
            i <= n,
            n == s@.len(),
            all_digits(s@.subrange(0, i as int)),
            acc as int == digits_val(s@.subrange(0, i as int)),
            acc <= 255,
        decreases n - i,
    {
        let c = s.get_char(i);
        let u = c as u32;
        if !(48 <= u && u <= 57) {
            assert(!is_digit(s@[i as int]));
            return None;
        }
        let d = u - 48;
        proof {
            assert(s@.subrange(0, i + 1).drop_last() =~= s@.subrange(0, i as int));
            assert(s@.subrange(0, i + 1).last() == s@[i as int]);
        }
        if acc > 25 || acc * 10 + d > 255 {
            proof {
                if all_digits(s@) {
                    assert(digits_val(s@.subrange(0, i + 1)) > 255);
                    lemma_digits_val_monotone(s@, i + 1, n as int);
                    assert(s@.subrange(0, n as int) =~= s@);
                    assert(digits_val(s@) > 255);
                }
            }
            return None;
        }
        acc = acc * 10 + d;
        i = i + 1;
    }
    proof {
        assert(s@.subrange(0, n as int) =~= s@);
    }
    Some(acc as u8)
}

/// The decimal form of a natural number, most significant digit first.
pub open spec fn dec_chars(n: nat) -> Seq<char>
    decreases n,
{
    if n < 10 {
        seq![((48 + n) as u8) as char]
    } else {
        dec_chars(n / 10).push(((48 + n % 10) as u8) as char)
    }
}

/// The decimal form of a number.
pub fn fmt_u64(n: u64) -> (r: String)
    ensures
        r@ == dec_chars(n as nat),
    decreases n,
{
    if n < 10 {
        let mut s = String::new();
        push_char(&mut s, ((48 + n) as u8) as char);
        proof {
            assert(s@ =~= dec_chars(n as nat));
        }
        s
    } else {
        let mut s = fmt_u64(n / 10);
        push_char(&mut s, ((48 + n % 10) as u8) as char);
        s
    }
}

/// Character-wise string equality.
pub fn str_eq(a: &str, b: &str) -> (r: bool)
    ensures
        r == (a@ == b@),
{
    let na = a.unicode_len();
    let nb = b.unicode_len();
    if na != nb {
        return false;
    }
    let mut i: usize = 0;
    while i < na
        invariant
            i <= na,
            na == a@.len(),
            na == b@.len(),
            forall|j: int| 0 <= j < i ==> a@[j] == b@[j],
        decreases na - i,
    {
        if a.get_char(i) != b.get_char(i) {
            return false;
        }
        i = i + 1;
    }
    proof {
        assert(a@ =~= b@);
    }
    true
}

} // verus!
