//! Parsers for the scalar literals: null, booleans, numbers, strings, GUIDs and binary.

use vstd::prelude::*;
use crate::ast::{
    agrees, reports, Date, DateTimeOffset, Duration, Failure, FloatLiteral, FloatView, IResult, Literal, LiteralView,
    ParseError, Time,
};
use crate::temporal::{
    date_at, datetime_at, duration_at, spec_date, spec_datetime, spec_duration, spec_time, time_at,
};
use crate::scan::{
    base64_run, base64_run_at, chars_of, digit_run, digit_run_at, digits_upto, digits_value, is_digit_char, is_hex_char,
    is_hex_digit, lemma_digit_run_bounds, lemma_skip_skip, starts_with, starts_with_at, starts_with_ci,
    starts_with_ci_at, string_of_chars, string_of_range,
};

verus! {

broadcast use lemma_skip_skip;

pub open spec fn spec_null(t: Seq<char>) -> Result<((), int), Failure> {
    if starts_with(t, seq!['n', 'u', 'l', 'l']) {
        Ok(((), 4))
    } else {
        Err(Failure::NoMatch)
    }
}

/// `true` or `false` in any ASCII case.
pub open spec fn spec_boolean(t: Seq<char>) -> Result<(bool, int), Failure> {
    if starts_with_ci(t, seq!['t', 'r', 'u', 'e']) {
        Ok((true, 4))
    } else if starts_with_ci(t, seq!['f', 'a', 'l', 's', 'e']) {
        Ok((false, 5))
    } else {
        Err(Failure::NoMatch)
    }
}

pub open spec fn sign_len(t: Seq<char>) -> int {
    if t.len() > 0 && (t[0] == '+' || t[0] == '-') {
        1
    } else {
        0
    }
}

/// The end of the optional exponent that starts at `c`: `e` or `E`, an optional sign,
/// and at least one digit; `c` itself where there is none.
pub open spec fn exponent_end(t: Seq<char>, c: int) -> int {
    if 0 <= c < t.len() && (t[c] == 'e' || t[c] == 'E') {
        let es = sign_len(t.skip(c + 1));
        let d = digit_run(t.skip(c + 1 + es));
        if d > 0 {
            c + 1 + es + d
        } else {
            c
        }
    } else {
        c
    }
}

/// The length of the decimal float text at the start of `t`: an optional sign,
/// digits, then a fraction (`.` and optional digits) or an exponent or both.
pub open spec fn float_text_len(t: Seq<char>) -> Option<int> {
    let a = sign_len(t);
    let d = digit_run(t.skip(a));
    let b = a + d;
    let has_frac = b < t.len() && t[b] == '.';
    let c = if has_frac {
        b + 1 + digit_run(t.skip(b + 1))
    } else {
        b
    };
    let e = exponent_end(t, c);
    if d > 0 && (has_frac || e > c) {
        Some(e)
    } else {
        None
    }
}

/// A float: decimal text with a fraction or an exponent, or `NaN`, `INF`, `-INF`.
pub open spec fn spec_float(t: Seq<char>) -> Result<(FloatView, int), Failure> {
    match float_text_len(t) {
        Some(n) => Ok((FloatView::Decimal(t.take(n)), n)),
        None => if starts_with(t, seq!['N', 'a', 'N']) {
            Ok((FloatView::NaN, 3))
        } else if starts_with(t, seq!['I', 'N', 'F']) {
            Ok((FloatView::Infinity, 3))
        } else if starts_with(t, seq!['-', 'I', 'N', 'F']) {
            Ok((FloatView::NegInfinity, 4))
        } else {
            Err(Failure::NoMatch)
        },
    }
}

/// An optional sign and decimal digits, whose value must fit in an `i64`.
pub open spec fn spec_integer(t: Seq<char>) -> Result<(i64, int), Failure> {
    let a = sign_len(t);
    let d = digit_run(t.skip(a));
    let m = digits_value(t.subrange(a, a + d));
    let v = if a == 1 && t[0] == '-' {
        -m
    } else {
        m
    };
    if d == 0 {
        Err(Failure::NoMatch)
    } else if i64::MIN <= v <= i64::MAX {
        Ok((v as i64, a + d))
    } else {
        Err(Failure::Invalid)
    }
}

/// The body of a quoted string after its opening quote, unescaped onto `acc`:
/// the text and the number of characters consumed, closing quote included.
pub open spec fn string_body(t: Seq<char>, acc: Seq<char>) -> Option<(Seq<char>, int)>
    decreases t.len(),
{
    if t.len() == 0 {
        None
    } else if t[0] != '\'' {
        match string_body(t.skip(1), acc.push(t[0])) {
            Some((v, n)) => Some((v, n + 1)),
            None => None,
        }
    } else if t.len() >= 2 && t[1] == '\'' {
        match string_body(t.skip(2), acc.push('\'')) {
            Some((v, n)) => Some((v, n + 2)),
            None => None,
        }
    } else {
        Some((acc, 1))
    }
}

/// A string in single quotes, in which `''` stands for one quote.
pub open spec fn spec_string(t: Seq<char>) -> Result<(Seq<char>, int), Failure> {
    if t.len() > 0 && t[0] == '\'' {
        match string_body(t.skip(1), seq![]) {
            Some((v, n)) => Ok((v, n + 1)),
            None => Err(Failure::NoMatch),
        }
    } else {
        Err(Failure::NoMatch)
    }
}

pub open spec fn is_guid_hyphen_index(j: int) -> bool {
    j == 8 || j == 13 || j == 18 || j == 23
}

/// The first `m` characters of `t` follow the GUID pattern: hex digits in groups of
/// 8, 4, 4, 4 and 12, joined by hyphens.
pub open spec fn guid_shape_upto(t: Seq<char>, m: int) -> bool {
    t.len() >= m && forall|j: int|
        0 <= j < m ==> if is_guid_hyphen_index(j) {
            #[trigger] t[j] == '-'
        } else {
            is_hex_char(t[j])
        }
}

/// `t` starts with a whole GUID.
pub open spec fn guid_shape(t: Seq<char>) -> bool {
    guid_shape_upto(t, 36)
}

/// A GUID, kept as written. Text that starts like one (two groups and their hyphens)
/// but breaks the grouping later is a malformed GUID.
pub open spec fn spec_guid(t: Seq<char>) -> Result<(Seq<char>, int), Failure> {
    if guid_shape(t) {
        Ok((t.take(36), 36))
    } else if guid_shape_upto(t, 14) {
        Err(Failure::Invalid)
    } else {
        Err(Failure::NoMatch)
    }
}

/// What decoding `s` as URL-safe base64, with or without padding, gives.
pub uninterp spec fn base64url_decoded(s: Seq<char>) -> Option<Seq<u8>>;

/// `binary'...'` (keyword in any case) around base64url text, decoded.
pub open spec fn spec_binary(t: Seq<char>) -> Result<(Seq<u8>, int), Failure> {
    let k = seq!['b', 'i', 'n', 'a', 'r', 'y', '\''];
    if starts_with_ci(t, k) {
        let n = base64_run(t.skip(7));
        if 7 + n < t.len() && t[7 + n] == '\'' {
            match base64url_decoded(t.subrange(7, 7 + n)) {
                Some(b) => Ok((b, 7 + n + 1)),
                None => Err(Failure::Invalid),
            }
        } else {
            Err(Failure::NoMatch)
        }
    } else {
        Err(Failure::NoMatch)
    }
}

#[verifier::external_type_specification]
#[verifier::external_body]
pub struct ExDecodeError(base64::DecodeError);

/// Relies on base64's `GeneralPurpose` engine over the URL-safe alphabet with
/// `DecodePaddingMode::Indifferent`: the outcome depends on the text alone.
#[verifier::external_body]
fn decode_base64url(text: &str) -> (r: Result<Vec<u8>, base64::DecodeError>)
    ensures
        r is Ok <==> base64url_decoded(text@) is Some,
        r matches Ok(v) ==> base64url_decoded(text@) == Some(v@),
{
    let cfg = base64::engine::GeneralPurposeConfig::new().with_decode_padding_mode(
        base64::engine::DecodePaddingMode::Indifferent,
    );
    let engine = base64::engine::GeneralPurpose::new(&base64::alphabet::URL_SAFE, cfg);
    base64::Engine::decode(&engine, text)
}

/// Turns the result of a step on the whole input into what a parser reports.
pub fn finish<'a, T: View>(
    inp: &'a str,
    s: &Vec<char>,
    step: Result<(T, usize), Failure>,
    Ghost(sp): Ghost<Result<(T::V, int), Failure>>,
) -> (r: IResult<'a, T>)
    requires
        s@ == inp@,
        agrees(step, sp),
        step matches Ok((_, n)) ==> n <= s@.len(),
    ensures
        reports(inp@, r, sp),
{
    match step {
        Ok((v, n)) => {
            let rest = inp.substring_char(n, s.len());
            assert(rest@ =~= inp@.skip(n as int));
            Ok((rest, v))
        },
        Err(Failure::NoMatch) => Err(ParseError { kind: crate::ast::ErrorKind::Syntax, offset: 0 }),
        Err(Failure::Invalid) => Err(ParseError { kind: crate::ast::ErrorKind::Domain, offset: 0 }),
    }
}

pub fn null_at(s: &Vec<char>, i: usize) -> (r: Result<((), usize), Failure>)
    requires
        i <= s@.len(),
    ensures
        agrees(r, spec_null(s@.skip(i as int))),
        r matches Ok((_, n)) ==> i + n <= s@.len(),
{
    let k = vec!['n', 'u', 'l', 'l'];
    if starts_with_at(s, i, &k) {
        Ok(((), 4))
    } else {
        Err(Failure::NoMatch)
    }
}

pub fn boolean_at(s: &Vec<char>, i: usize) -> (r: Result<(bool, usize), Failure>)
    requires
        i <= s@.len(),
    ensures
        agrees(r, spec_boolean(s@.skip(i as int))),
        r matches Ok((_, n)) ==> i + n <= s@.len(),
{
    let t = vec!['t', 'r', 'u', 'e'];
    let f = vec!['f', 'a', 'l', 's', 'e'];
    if starts_with_ci_at(s, i, &t) {
        Ok((true, 4))
    } else if starts_with_ci_at(s, i, &f) {
        Ok((false, 5))
    } else {
        Err(Failure::NoMatch)
    }
}

pub fn sign_len_at(s: &Vec<char>, i: usize) -> (r: usize)
    requires
        i <= s@.len(),
    ensures
        r as int == sign_len(s@.skip(i as int)),
        i + r <= s@.len(),
{
    if i < s.len() && (s[i] == '+' || s[i] == '-') {
        1
    } else {
        0
    }
}

/// The number of characters of the decimal float text at `s[i..]`, if there is one.
#[verifier::rlimit(40)]
fn float_text_len_at(s: &Vec<char>, i: usize) -> (r: Option<usize>)
    requires
        i <= s@.len(),
    ensures
        r matches Some(n) ==> float_text_len(s@.skip(i as int)) == Some(n as int) && i + n <= s@.len(),
        r is None ==> float_text_len(s@.skip(i as int)) is None,
{
    let len = s.len();
    let ghost t = s@.skip(i as int);
    let a = sign_len_at(s, i);
    let d = digit_run_at(s, i + a);
    let b = i + a + d;
    let has_frac = b < s.len() && s[b] == '.';
    let c = if has_frac {
        b + 1 + digit_run_at(s, b + 1)
    } else {
        b
    };
    let mut e = c;
    if c < s.len() && (s[c] == 'e' || s[c] == 'E') {
        let es = sign_len_at(s, c + 1);
        let d2 = digit_run_at(s, c + 1 + es);
        if d2 > 0 {
            e = c + 1 + es + d2;
        }
        assert(t.skip(c - i + 1) == s@.skip(c + 1));
        assert(t.skip(c - i + 1 + es) == s@.skip(c + 1 + es));
    }
    assert(exponent_end(t, c - i) == e - i);
    if d > 0 && (has_frac || e > c) {
        Some(e - i)
    } else {
        None
    }
}

pub fn float_at(s: &Vec<char>, i: usize) -> (r: Result<(FloatLiteral, usize), Failure>)
    requires
        i <= s@.len(),
    ensures
        agrees(r, spec_float(s@.skip(i as int))),
        r matches Ok((_, n)) ==> i + n <= s@.len(),
{
    let len = s.len();
    match float_text_len_at(s, i) {
        Some(n) => {
            let text = string_of_range(s, i, i + n);
            assert(text@ =~= s@.skip(i as int).take(n as int));
            Ok((FloatLiteral::Decimal(text), n))
        },
        None => {
            let nan = vec!['N', 'a', 'N'];
            let inf = vec!['I', 'N', 'F'];
            let neg_inf = vec!['-', 'I', 'N', 'F'];
            if starts_with_at(s, i, &nan) {
                Ok((FloatLiteral::NaN, 3))
            } else if starts_with_at(s, i, &inf) {
                Ok((FloatLiteral::Infinity, 3))
            } else if starts_with_at(s, i, &neg_inf) {
                Ok((FloatLiteral::NegInfinity, 4))
            } else {
                Err(Failure::NoMatch)
            }
        },
    }
}

#[verifier::rlimit(40)]
pub fn integer_at(s: &Vec<char>, i: usize) -> (r: Result<(i64, usize), Failure>)
    requires
        i <= s@.len(),
    ensures
        agrees(r, spec_integer(s@.skip(i as int))),
        r matches Ok((_, n)) ==> i + n <= s@.len(),
{
    let len = s.len();
    let ghost t = s@.skip(i as int);
    let a = sign_len_at(s, i);
    let d = digit_run_at(s, i + a);
    if d == 0 {
        return Err(Failure::NoMatch);
    }
    proof {
        lemma_digit_run_bounds(s@.skip(i + a));
        assert(t.subrange(a as int, a + d) =~= s@.subrange(i + a, i + a + d));
        assert forall|k: int| i + a <= k < i + a + d implies is_digit_char(#[trigger] s@[k]) by {
            assert(s@[k] == s@.skip(i + a)[k - i - a]);
        }
    }
    let negative = a == 1 && s[i] == '-';
    let limit: u64 = if negative {
        9223372036854775808
    } else {
        9223372036854775807
    };
    match digits_upto(s, i + a, i + a + d, limit) {
        Some(m) => {
            let v: i64 = if negative {
                if m == 9223372036854775808 {
                    i64::MIN
                } else {
                    -(m as i64)
                }
            } else {
                m as i64
            };
            Ok((v, a + d))
        },
        None => Err(Failure::Invalid),
    }
}

/// The quoted string at `s[i..]`, unescaped.
#[verifier::rlimit(40)]
pub fn string_at(s: &Vec<char>, i: usize) -> (r: Result<(String, usize), Failure>)
    requires
        i <= s@.len(),
    ensures
        agrees(r, spec_string(s@.skip(i as int))),
        r matches Ok((_, n)) ==> i + n <= s@.len(),
{
    if !(i < s.len() && s[i] == '\'') {
        return Err(Failure::NoMatch);
    }
    let mut out: Vec<char> = Vec::new();
    let mut k: usize = i + 1;
    while k < s.len()
        invariant
            i < k <= s@.len(),
            s@[i as int] == '\'',
            string_body(s@.skip(i + 1), seq![]) == match string_body(s@.skip(k as int), out@) {
                Some((v, n)) => Some((v, n + (k - i - 1))),
                None => None,
            },
        decreases s@.len() - k,
    {
        if s[k] != '\'' {
            out.push(s[k]);
            k = k + 1;
        } else if k + 1 < s.len() && s[k + 1] == '\'' {
            assert(s@.skip(k as int).skip(2) == s@.skip(k + 2));
            out.push('\'');
            k = k + 2;
        } else {
            let text = string_of_chars(&out);
            return Ok((text, k + 1 - i));
        }
    }
    Err(Failure::NoMatch)
}

/// Whether the first `m` characters of `s[i..]` follow the GUID pattern.
fn guid_pattern_upto(s: &Vec<char>, i: usize, m: usize) -> (r: bool)
    requires
        i <= s@.len(),
        m <= 36,
    ensures
        r == guid_shape_upto(s@.skip(i as int), m as int),
{
    let len = s.len();
    let ghost t = s@.skip(i as int);
    if len - i < m {
        return false;
    }
    let mut j: usize = 0;
    while j < m
        invariant
            len == s@.len(),
            i + m <= s@.len(),
            m <= 36,
            t == s@.skip(i as int),
            j <= m,
            forall|k: int|
                0 <= k < j ==> if is_guid_hyphen_index(k) {
                    #[trigger] t[k] == '-'
                } else {
                    is_hex_char(t[k])
                },
        decreases m - j,
    {
        let c = s[i + j];
        let ok = if j == 8 || j == 13 || j == 18 || j == 23 {
            c == '-'
        } else {
            is_hex_digit(c)
        };
        if !ok {
            assert(t[j as int] == c);
            return false;
        }
        j = j + 1;
    }
    true
}

pub fn guid_at(s: &Vec<char>, i: usize) -> (r: Result<(String, usize), Failure>)
    requires
        i <= s@.len(),
    ensures
        agrees(r, spec_guid(s@.skip(i as int))),
        r matches Ok((_, n)) ==> i + n <= s@.len(),
{
    let len = s.len();
    if guid_pattern_upto(s, i, 36) {
        let text = string_of_range(s, i, i + 36);
        assert(text@ =~= s@.skip(i as int).take(36));
        Ok((text, 36))
    } else if guid_pattern_upto(s, i, 14) {
        Err(Failure::Invalid)
    } else {
        Err(Failure::NoMatch)
    }
}

#[verifier::rlimit(40)]
pub fn binary_at(s: &Vec<char>, i: usize) -> (r: Result<(Vec<u8>, usize), Failure>)
    requires
        i <= s@.len(),
    ensures
        agrees(r, spec_binary(s@.skip(i as int))),
        r matches Ok((_, n)) ==> i + n <= s@.len(),
{
    let len = s.len();
    let ghost t = s@.skip(i as int);
    let k = vec!['b', 'i', 'n', 'a', 'r', 'y', '\''];
    if !starts_with_ci_at(s, i, &k) {
        return Err(Failure::NoMatch);
    }
    let n = base64_run_at(s, i + 7);
    assert(t.skip(7) == s@.skip(i + 7));
    if !(i + 7 + n < s.len() && s[i + 7 + n] == '\'') {
        return Err(Failure::NoMatch);
    }
    let payload = string_of_range(s, i + 7, i + 7 + n);
    assert(payload@ =~= t.subrange(7, 7 + n));
    match decode_base64url(payload.as_str()) {
        Ok(bytes) => Ok((bytes, 7 + n + 1)),
        Err(_) => Err(Failure::Invalid),
    }
}

pub fn parse_float(inp: &str) -> (r: IResult<'_, FloatLiteral>)
    ensures
        reports(inp@, r, spec_float(inp@)),
{
    let s = chars_of(inp);
    assert(s@.skip(0) =~= s@);
    let step = float_at(&s, 0);
    finish(inp, &s, step, Ghost(spec_float(inp@)))
}

pub fn parse_string(inp: &str) -> (r: IResult<'_, String>)
    ensures
        reports(inp@, r, spec_string(inp@)),
{
    let s = chars_of(inp);
    assert(s@.skip(0) =~= s@);
    let step = string_at(&s, 0);
    finish(inp, &s, step, Ghost(spec_string(inp@)))
}

pub fn parse_guid(inp: &str) -> (r: IResult<'_, String>)
    ensures
        reports(inp@, r, spec_guid(inp@)),
{
    let s = chars_of(inp);
    assert(s@.skip(0) =~= s@);
    let step = guid_at(&s, 0);
    finish(inp, &s, step, Ghost(spec_guid(inp@)))
}

pub fn parse_binary(inp: &str) -> (r: IResult<'_, Vec<u8>>)
    ensures
        reports(inp@, r, spec_binary(inp@)),
{
    let s = chars_of(inp);
    assert(s@.skip(0) =~= s@);
    let step = binary_at(&s, 0);
    finish(inp, &s, step, Ghost(spec_binary(inp@)))
}

} // verus!

verus! {

/// Ordered choice: the first step's outcome when it matched (or matched with an invalid
/// value), otherwise `rest`.
pub open spec fn or_else<V>(
    r: Result<(V, int), Failure>,
    f: spec_fn(V) -> LiteralView,
    rest: Result<(LiteralView, int), Failure>,
) -> Result<(LiteralView, int), Failure> {
    match r {
        Ok((v, n)) => Ok((f(v), n)),
        Err(Failure::Invalid) => Err(Failure::Invalid),
        Err(Failure::NoMatch) => rest,
    }
}

/// A primitive literal: the alternatives in their fixed order of priority.
pub open spec fn spec_literal(t: Seq<char>) -> Result<(LiteralView, int), Failure> {
    or_else(spec_null(t), |u: ()| LiteralView::Null,
    or_else(spec_duration(t), |d: Duration| LiteralView::Duration(d),
    or_else(spec_boolean(t), |b: bool| LiteralView::Boolean(b),
    or_else(spec_string(t), |s: Seq<char>| LiteralView::String(s),
    or_else(spec_datetime(t), |d: DateTimeOffset| LiteralView::DateTimeOffset(d),
    or_else(spec_date(t), |d: Date| LiteralView::Date(d),
    or_else(spec_time(t), |x: Time| LiteralView::Time(x),
    or_else(spec_guid(t), |g: Seq<char>| LiteralView::GUID(g),
    or_else(spec_float(t), |f: FloatView| LiteralView::Float(f),
    or_else(spec_integer(t), |i: i64| LiteralView::Integer(i),
    or_else(spec_binary(t), |b: Seq<u8>| LiteralView::Binary(b),
    Err(Failure::NoMatch))))))))))))
}

#[verifier::rlimit(40)]
pub fn literal_at(s: &Vec<char>, i: usize) -> (r: Result<(Literal, usize), Failure>)
    requires
        i <= s@.len(),
    ensures
        agrees(r, spec_literal(s@.skip(i as int))),
        r matches Ok((_, n)) ==> i + n <= s@.len(),
{
    match null_at(s, i) {
        Ok((_, n)) => return Ok((Literal::Null, n)),
        Err(Failure::Invalid) => return Err(Failure::Invalid),
        Err(Failure::NoMatch) => {},
    }
    match duration_at(s, i) {
        Ok((d, n)) => return Ok((Literal::Duration(d), n)),
        Err(Failure::Invalid) => return Err(Failure::Invalid),
        Err(Failure::NoMatch) => {},
    }
    match boolean_at(s, i) {
        Ok((b, n)) => return Ok((Literal::Boolean(b), n)),
        Err(Failure::Invalid) => return Err(Failure::Invalid),
        Err(Failure::NoMatch) => {},
    }
    match string_at(s, i) {
        Ok((v, n)) => return Ok((Literal::String(v), n)),
        Err(Failure::Invalid) => return Err(Failure::Invalid),
        Err(Failure::NoMatch) => {},
    }
    match datetime_at(s, i) {
        Ok((d, n)) => return Ok((Literal::DateTimeOffset(d), n)),
        Err(Failure::Invalid) => return Err(Failure::Invalid),
        Err(Failure::NoMatch) => {},
    }
    match date_at(s, i) {
        Ok((d, n)) => return Ok((Literal::Date(d), n)),
        Err(Failure::Invalid) => return Err(Failure::Invalid),
        Err(Failure::NoMatch) => {},
    }
    match time_at(s, i) {
        Ok((x, n)) => return Ok((Literal::Time(x), n)),
        Err(Failure::Invalid) => return Err(Failure::Invalid),
        Err(Failure::NoMatch) => {},
    }
    match guid_at(s, i) {
        Ok((g, n)) => return Ok((Literal::GUID(g), n)),
        Err(Failure::Invalid) => return Err(Failure::Invalid),
        Err(Failure::NoMatch) => {},
    }
    match float_at(s, i) {
        Ok((f, n)) => return Ok((Literal::Float(f), n)),
        Err(Failure::Invalid) => return Err(Failure::Invalid),
        Err(Failure::NoMatch) => {},
    }
    match integer_at(s, i) {
        Ok((v, n)) => return Ok((Literal::Integer(v), n)),
        Err(Failure::Invalid) => return Err(Failure::Invalid),
        Err(Failure::NoMatch) => {},
    }
    match binary_at(s, i) {
        Ok((b, n)) => Ok((Literal::Binary(b), n)),
        Err(f) => Err(f),
    }
}

pub fn parse_literal(inp: &str) -> (r: IResult<'_, Literal>)
    ensures
        reports(inp@, r, spec_literal(inp@)),
{
    let s = chars_of(inp);
    assert(s@.skip(0) =~= s@);
    let step = literal_at(&s, 0);
    finish(inp, &s, step, Ghost(spec_literal(inp@)))
}

} // verus!
