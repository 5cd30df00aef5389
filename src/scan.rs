//! Character classes, digit runs and other lexical helpers shared by the parsers.

use vstd::prelude::*;

verus! {

/// Skipping `a` elements and then `b` more is skipping `a + b`.
pub broadcast proof fn lemma_skip_skip<A>(s: Seq<A>, a: int, b: int)
    requires
        0 <= a <= s.len(),
        0 <= b <= s.len() - a,
    ensures
        #[trigger] s.skip(a).skip(b) == s.skip(a + b),
{
    assert(s.skip(a).skip(b) =~= s.skip(a + b));
}

pub open spec fn is_digit_char(c: char) -> bool {
    '0' <= c && c <= '9'
}

pub open spec fn is_hex_char(c: char) -> bool {
    is_digit_char(c) || ('a' <= c && c <= 'f') || ('A' <= c && c <= 'F')
}

pub open spec fn is_ascii_alnum(c: char) -> bool {
    is_digit_char(c) || ('a' <= c && c <= 'z') || ('A' <= c && c <= 'Z')
}

/// The characters of the URL-safe base64 alphabet, with `=` for padding.
pub open spec fn is_base64url_char(c: char) -> bool {
    is_ascii_alnum(c) || c == '-' || c == '_' || c == '='
}

/// ASCII lower-casing; every other character is left alone.
pub open spec fn ascii_lower(c: char) -> char {
    if 'A' <= c && c <= 'Z' {
        ((c as u8) + 32) as char
    } else {
        c
    }
}

pub open spec fn digit_value(c: char) -> int {
    (c as u32) - ('0' as u32)
}

/// The number written in decimal by a sequence of digits (0 for none).
pub open spec fn digits_value(d: Seq<char>) -> int
    decreases d.len(),
{
    if d.len() == 0 {
        0
    } else {
        digits_value(d.drop_last()) * 10 + digit_value(d.last())
    }
}

/// Length of the longest prefix of `t` made of decimal digits.
pub open spec fn digit_run(t: Seq<char>) -> int
    decreases t.len(),
{
    if t.len() > 0 && is_digit_char(t[0]) {
        1 + digit_run(t.skip(1))
    } else {
        0
    }
}

/// `t` starts with `k`, ignoring ASCII case.
pub open spec fn starts_with_ci(t: Seq<char>, k: Seq<char>) -> bool {
    k.len() <= t.len() && forall|j: int| 0 <= j < k.len() ==> ascii_lower(#[trigger] t[j]) == ascii_lower(k[j])
}

/// `t` starts with exactly `k`.
pub open spec fn starts_with(t: Seq<char>, k: Seq<char>) -> bool {
    k.len() <= t.len() && t.take(k.len() as int) == k
}

pub proof fn lemma_digit_run_bounds(t: Seq<char>)
    ensures
        0 <= digit_run(t) <= t.len(),
        forall|j: int| 0 <= j < digit_run(t) ==> is_digit_char(#[trigger] t[j]),
        digit_run(t) < t.len() ==> !is_digit_char(t[digit_run(t)]),
    decreases t.len(),
{
    if t.len() > 0 && is_digit_char(t[0]) {
        lemma_digit_run_bounds(t.skip(1));
        assert forall|j: int| 0 <= j < digit_run(t) implies is_digit_char(#[trigger] t[j]) by {
            if j > 0 {
                assert(t[j] == t.skip(1)[j - 1]);
            }
        }
    }
}

pub proof fn lemma_digits_value_nonneg(d: Seq<char>)
    requires
        forall|j: int| 0 <= j < d.len() ==> is_digit_char(#[trigger] d[j]),
    ensures
        digits_value(d) >= 0,
    decreases d.len(),
{
    if d.len() > 0 {
        lemma_digits_value_nonneg(d.drop_last());
    }
}

/// A longer run of digits never has a smaller value than a prefix of it.
pub proof fn lemma_digits_value_monotone(d: Seq<char>, k: int)
    requires
        0 <= k <= d.len(),
        forall|j: int| 0 <= j < d.len() ==> is_digit_char(#[trigger] d[j]),
    ensures
        digits_value(d.take(k)) <= digits_value(d),
    decreases d.len() - k,
{
    if k < d.len() {
        lemma_digits_value_monotone(d, k + 1);
        let p = d.take(k + 1);
        assert(p.drop_last() =~= d.take(k));
        lemma_digits_value_nonneg(d.take(k));
    } else {
        assert(d.take(k) =~= d);
    }
}

/// Converts a string slice into its sequence of characters.
pub fn chars_of(s: &str) -> (r: Vec<char>)
    ensures
        r@ == s@,
{
    let n = s.unicode_len();
    let mut v: Vec<char> = Vec::new();
    let mut i: usize = 0;
    while i < n
        invariant
            n == s@.len(),
            i <= n,
            v@ == s@.take(i as int),
        decreases n - i,
    {
        let c = s.get_char(i);
        v.push(c);
        i = i + 1;
        assert(v@ =~= s@.take(i as int));
    }
    assert(s@.take(n as int) =~= s@);
    v
}

/// Relies on String::push: appends one character at the end.
#[verifier::external_body]
fn push_char(s: &mut String, c: char)
    ensures
        final(s)@ == old(s)@.push(c),
{
    s.push(c);
}

/// A new string holding the characters `s[from..to]`.
pub fn string_of_range(s: &Vec<char>, from: usize, to: usize) -> (r: String)
    requires
        from <= to <= s@.len(),
    ensures
        r@ == s@.subrange(from as int, to as int),
{
    let mut out = String::new();
    let mut i: usize = from;
    while i < to
        invariant
            from <= i <= to <= s@.len(),
            out@ == s@.subrange(from as int, i as int),
        decreases to - i,
    {
        push_char(&mut out, s[i]);
        i = i + 1;
        assert(out@ =~= s@.subrange(from as int, i as int));
    }
    out
}

/// A new string holding the characters of `v`.
pub fn string_of_chars(v: &Vec<char>) -> (r: String)
    ensures
        r@ == v@,
{
    let r = string_of_range(v, 0, v.len());
    assert(v@.subrange(0, v@.len() as int) =~= v@);
    r
}

pub fn is_digit(c: char) -> (r: bool)
    ensures
        r == is_digit_char(c),
{
    '0' <= c && c <= '9'
}

pub fn is_hex_digit(c: char) -> (r: bool)
    ensures
        r == is_hex_char(c),
{
    is_digit(c) || ('a' <= c && c <= 'f') || ('A' <= c && c <= 'F')
}

pub fn is_base64url(c: char) -> (r: bool)
    ensures
        r == is_base64url_char(c),
{
    is_digit(c) || ('a' <= c && c <= 'z') || ('A' <= c && c <= 'Z') || c == '-' || c == '_' || c == '='
}

pub fn lower(c: char) -> (r: char)
    ensures
        r == ascii_lower(c),
{
    if 'A' <= c && c <= 'Z' {
        ((c as u8) + 32) as char
    } else {
        c
    }
}

/// The number of digits that start `s[i..]`.
pub fn digit_run_at(s: &Vec<char>, i: usize) -> (n: usize)
    requires
        i <= s@.len(),
    ensures
        n as int == digit_run(s@.skip(i as int)),
        i + n <= s@.len(),
{
    broadcast use lemma_skip_skip;
    let mut j: usize = i;
    while j < s.len() && is_digit(s[j])
        invariant
            i <= j <= s@.len(),
            digit_run(s@.skip(i as int)) == (j - i) + digit_run(s@.skip(j as int)),
        decreases s@.len() - j,
    {
        assert(s@.skip(j as int).skip(1) == s@.skip(j + 1));
        j = j + 1;
    }
    j - i
}

/// The value of the digits `s[i..j]`, when it is at most `limit`.
pub fn digits_upto(s: &Vec<char>, i: usize, j: usize, limit: u64) -> (r: Option<u64>)
    requires
        i <= j <= s@.len(),
        forall|k: int| i <= k < j ==> is_digit_char(#[trigger] s@[k]),
    ensures
        r is Some <==> digits_value(s@.subrange(i as int, j as int)) <= limit,
        r matches Some(v) ==> v as int == digits_value(s@.subrange(i as int, j as int)),
{
    let mut acc: u64 = 0;
    let mut k: usize = i;
    while k < j
        invariant
            i <= k <= j <= s@.len(),
            forall|m: int| i <= m < j ==> is_digit_char(#[trigger] s@[m]),
            acc as int == digits_value(s@.subrange(i as int, k as int)),
            acc <= limit,
        decreases j - k,
    {
        let d = (s[k] as u32 - '0' as u32) as u64;
        assert(s@.subrange(i as int, k + 1).drop_last() =~= s@.subrange(i as int, k as int));
        if acc > limit / 10 || d > limit - acc * 10 {
            proof {
                let whole = s@.subrange(i as int, j as int);
                assert(whole.take(k + 1 - i) =~= s@.subrange(i as int, k + 1));
                lemma_digits_value_monotone(whole, k + 1 - i);
                assert(acc * 10 + d > limit) by (nonlinear_arith)
                    requires acc > limit / 10 || (acc * 10 <= limit && d > limit - acc * 10);
            }
            return None;
        }
        acc = acc * 10 + d;
        k = k + 1;
    }
    Some(acc)
}

} // verus!

verus! {

/// Length of the longest prefix of `t` drawn from the base64url alphabet.
pub open spec fn base64_run(t: Seq<char>) -> int
    decreases t.len(),
{
    if t.len() > 0 && is_base64url_char(t[0]) {
        1 + base64_run(t.skip(1))
    } else {
        0
    }
}

/// The number of base64url characters that start `s[i..]`.
pub fn base64_run_at(s: &Vec<char>, i: usize) -> (n: usize)
    requires
        i <= s@.len(),
    ensures
        n as int == base64_run(s@.skip(i as int)),
        i + n <= s@.len(),
{
    broadcast use lemma_skip_skip;
    let mut j: usize = i;
    while j < s.len() && is_base64url(s[j])
        invariant
            i <= j <= s@.len(),
            base64_run(s@.skip(i as int)) == (j - i) + base64_run(s@.skip(j as int)),
        decreases s@.len() - j,
    {
        assert(s@.skip(j as int).skip(1) == s@.skip(j + 1));
        j = j + 1;
    }
    j - i
}

/// Whether `s[i..]` starts with `k`, ignoring ASCII case.
pub fn starts_with_ci_at(s: &Vec<char>, i: usize, k: &Vec<char>) -> (r: bool)
    requires
        i <= s@.len(),
    ensures
        r == starts_with_ci(s@.skip(i as int), k@),
{
    if k.len() > s.len() - i {
        return false;
    }
    let n = s.len();
    let mut j: usize = 0;
    while j < k.len()
        invariant
            n == s@.len(),
            i <= s@.len(),
            k@.len() <= s@.len() - i,
            i + k@.len() <= s@.len(),
            j <= k@.len(),
            forall|m: int| 0 <= m < j ==> ascii_lower(#[trigger] s@.skip(i as int)[m]) == ascii_lower(k@[m]),
        decreases k@.len() - j,
    {
        if lower(s[i + j]) != lower(k[j]) {
            assert(ascii_lower(s@.skip(i as int)[j as int]) != ascii_lower(k@[j as int]));
            return false;
        }
        j = j + 1;
    }
    true
}

/// Whether `s[i..]` starts with exactly `k`.
pub fn starts_with_at(s: &Vec<char>, i: usize, k: &Vec<char>) -> (r: bool)
    requires
        i <= s@.len(),
    ensures
        r == starts_with(s@.skip(i as int), k@),
{
    if k.len() > s.len() - i {
        return false;
    }
    let n = s.len();
    let mut j: usize = 0;
    while j < k.len()
        invariant
            n == s@.len(),
            i <= s@.len(),
            k@.len() <= s@.len() - i,
            i + k@.len() <= s@.len(),
            j <= k@.len(),
            forall|m: int| 0 <= m < j ==> #[trigger] s@.skip(i as int)[m] == k@[m],
        decreases k@.len() - j,
    {
        if s[i + j] != k[j] {
            assert(s@.skip(i as int).take(k@.len() as int)[j as int] != k@[j as int]);
            return false;
        }
        j = j + 1;
    }
    assert(s@.skip(i as int).take(k@.len() as int) =~= k@);
    true
}

} // verus!

verus! {

pub open spec fn pow10(n: nat) -> int
    decreases n,
{
    if n == 0 {
        1
    } else {
        10 * pow10((n - 1) as nat)
    }
}

/// A run of `k` digits is worth less than `10^k`.
pub proof fn lemma_digits_value_bound(d: Seq<char>)
    requires
        forall|j: int| 0 <= j < d.len() ==> is_digit_char(#[trigger] d[j]),
    ensures
        0 <= digits_value(d) < pow10(d.len()),
    decreases d.len(),
{
    if d.len() > 0 {
        let p = d.drop_last();
        lemma_digits_value_bound(p);
        assert(is_digit_char(d[d.len() - 1]));
        let v = digits_value(p);
        let q = pow10(p.len());
        assert(v * 10 + digit_value(d.last()) < 10 * q) by (nonlinear_arith)
            requires 0 <= v < q, 0 <= digit_value(d.last()) <= 9;
        assert(v * 10 >= 0) by (nonlinear_arith) requires v >= 0;
    }
}

/// `t` starts with `n` decimal digits.
pub open spec fn starts_with_digits(t: Seq<char>, n: int) -> bool {
    n <= t.len() && forall|j: int| 0 <= j < n ==> is_digit_char(#[trigger] t[j])
}

} // verus!

verus! {

pub proof fn lemma_pow10_monotone(a: nat, b: nat)
    requires
        a <= b,
    ensures
        1 <= pow10(a) <= pow10(b),
    decreases b,
{
    if a < b {
        lemma_pow10_monotone(a, (b - 1) as nat);
    } else if a > 0 {
        lemma_pow10_monotone((a - 1) as nat, (a - 1) as nat);
    }
}

} // verus!

verus! {

/// The first `n` characters of a digit run are digits, within bounds.
pub proof fn lemma_run_is_digits(s: Seq<char>, i: int, n: int)
    requires
        0 <= i <= s.len(),
        0 <= n <= digit_run(s.skip(i)),
    ensures
        i + n <= s.len(),
        forall|k: int| i <= k < i + n ==> is_digit_char(#[trigger] s[k]),
{
    lemma_digit_run_bounds(s.skip(i));
    assert forall|k: int| i <= k < i + n implies is_digit_char(#[trigger] s[k]) by {
        assert(s[k] == s.skip(i)[k - i]);
    }
}

} // verus!

verus! {

pub open spec fn is_ascii_ident_start(c: char) -> bool {
    ('a' <= c && c <= 'z') || ('A' <= c && c <= 'Z') || c == '_'
}

pub open spec fn is_ascii_ident_char(c: char) -> bool {
    is_ascii_alnum(c) || c == '_'
}

/// Length of the longest prefix of `t` made of ASCII letters, digits and `_`.
pub open spec fn ascii_ident_run(t: Seq<char>) -> int
    decreases t.len(),
{
    if t.len() > 0 && is_ascii_ident_char(t[0]) {
        1 + ascii_ident_run(t.skip(1))
    } else {
        0
    }
}

/// Length of the ASCII identifier at the start of `t` (a letter or `_`, then letters,
/// digits and `_`); 0 when there is none.
pub open spec fn ascii_ident_len(t: Seq<char>) -> int {
    if t.len() > 0 && is_ascii_ident_start(t[0]) {
        1 + ascii_ident_run(t.skip(1))
    } else {
        0
    }
}

/// An ASCII identifier that equals `keyword` ignoring ASCII case, taken whole.
pub open spec fn spec_keyword_ignore_ascii_case(t: Seq<char>, keyword: Seq<char>) -> Result<((), int), crate::ast::Failure> {
    let n = ascii_ident_len(t);
    if n > 0 && n == keyword.len() && starts_with_ci(t, keyword) {
        Ok(((), n))
    } else {
        Err(crate::ast::Failure::NoMatch)
    }
}

fn ascii_ident_len_at(s: &Vec<char>, i: usize) -> (n: usize)
    requires
        i <= s@.len(),
    ensures
        n as int == ascii_ident_len(s@.skip(i as int)),
        i + n <= s@.len(),
{
    broadcast use lemma_skip_skip;
    let len = s.len();
    if !(i < len && (('a' <= s[i] && s[i] <= 'z') || ('A' <= s[i] && s[i] <= 'Z') || s[i] == '_')) {
        return 0;
    }
    let mut j: usize = i + 1;
    while j < len && (is_digit(s[j]) || ('a' <= s[j] && s[j] <= 'z') || ('A' <= s[j] && s[j] <= 'Z') || s[j] == '_')
        invariant
            len == s@.len(),
            i < j <= len,
            ascii_ident_run(s@.skip(i + 1)) == (j - i - 1) + ascii_ident_run(s@.skip(j as int)),
        decreases len - j,
    {
        assert(s@.skip(j as int).skip(1) == s@.skip(j + 1));
        j = j + 1;
    }
    assert(s@.skip(i as int).skip(1) == s@.skip(i + 1));
    j - i
}

/// Matches `keyword` as a whole identifier at the start of `inp`, ignoring ASCII case:
/// `DURATION` matches `duration`, `durations` does not.
pub fn keyword_ignore_ascii_case<'a>(inp: &'a str, keyword: &str) -> (r: crate::ast::IResult<'a, ()>)
    ensures
        crate::ast::reports(inp@, r, spec_keyword_ignore_ascii_case(inp@, keyword@)),
{
    let s = chars_of(inp);
    let k = chars_of(keyword);
    assert(s@.skip(0) =~= s@);
    let n = ascii_ident_len_at(&s, 0);
    let step = if n > 0 && n == k.len() && starts_with_ci_at(&s, 0, &k) {
        Ok(((), n))
    } else {
        Err(crate::ast::Failure::NoMatch)
    };
    crate::literal::finish(inp, &s, step, Ghost(spec_keyword_ignore_ascii_case(inp@, keyword@)))
}

} // verus!
