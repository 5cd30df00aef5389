//! Laws that relate the parsers to one another and to the texts that denote literals.

use vstd::prelude::*;
use crate::ast::{Failure, LiteralView};
use crate::literal::{
    base64url_decoded, guid_shape, spec_binary, spec_boolean, spec_literal, spec_null, spec_string,
    string_body,
};
use crate::literal::{float_text_len, spec_float, spec_integer};
use crate::scan::{
    ascii_lower, base64_run, digit_run, digit_value, digits_value, is_base64url_char, is_digit_char, lemma_skip_skip,
    starts_with_ci,
};
use crate::ast::{Date, Time};
use crate::scan::pow10;
use crate::temporal::{
    days_in_month, duration_keyword, fraction_nanos, fraction_prefix_value, padded_digit, spec_date, spec_datetime,
    spec_day, spec_duration, spec_fractional_seconds, spec_hour, spec_minute, spec_month, spec_second, spec_time,
    spec_year,
};

verus! {

broadcast use lemma_skip_skip;

/// The `duration` keyword before the quotes changes nothing: for every text `x`,
/// `duration'x` and `'x` give the same duration (or fail alike).
pub proof fn law_duration_keyword_optional(x: Seq<char>)
    ensures
        match (spec_duration(duration_keyword() + seq!['\''] + x), spec_duration(seq!['\''] + x)) {
            (Ok((a, n)), Ok((b, m))) => a == b && n == m + 8,
            (Err(e), Err(f)) => e == f,
            _ => false,
        },
{
    let t1 = duration_keyword() + seq!['\''] + x;
    let t2 = seq!['\''] + x;
    assert(starts_with_ci(t1, duration_keyword())) by {
        assert forall|j: int| 0 <= j < 8 implies ascii_lower(#[trigger] t1[j]) == ascii_lower(duration_keyword()[j]) by {
            assert(t1[j] == duration_keyword()[j]);
        }
    }
    assert(!starts_with_ci(t2, duration_keyword())) by {
        assert(ascii_lower(t2[0]) != ascii_lower(duration_keyword()[0]));
    }
    assert(t1[8] == '\'');
    assert(t1.skip(9) =~= x);
    assert(t2.skip(1) =~= x);
}

/// `null` reads back as the null literal.
pub proof fn law_null_round_trip()
    ensures
        spec_literal(seq!['n', 'u', 'l', 'l']) == Ok::<(LiteralView, int), Failure>((LiteralView::Null, 4)),
{
    let t = seq!['n', 'u', 'l', 'l'];
    assert(t.take(4) =~= t);
}

pub open spec fn render_boolean(b: bool) -> Seq<char> {
    if b {
        seq!['t', 'r', 'u', 'e']
    } else {
        seq!['f', 'a', 'l', 's', 'e']
    }
}

/// Every boolean reads back from its text `true` or `false`.
pub proof fn law_boolean_round_trip(b: bool)
    ensures
        spec_literal(render_boolean(b)) == Ok::<(LiteralView, int), Failure>(
            (LiteralView::Boolean(b), render_boolean(b).len() as int),
        ),
{
    let t = render_boolean(b);
    assert(t[0] != 'n');
    assert(!(t.take(4) == seq!['n', 'u', 'l', 'l'])) by {
        assert(t.take(4)[0] != 'n');
    }
    assert(spec_null(t) is Err);
    assert(!starts_with_ci(t, duration_keyword())) by {
        assert(ascii_lower(t[0]) != ascii_lower(duration_keyword()[0]));
    }
    if b {
        assert(starts_with_ci(t, seq!['t', 'r', 'u', 'e']));
    } else {
        assert(!starts_with_ci(t, seq!['t', 'r', 'u', 'e'])) by {
            assert(ascii_lower(t[0]) != ascii_lower('t'));
        }
        assert(starts_with_ci(t, seq!['f', 'a', 'l', 's', 'e']));
    }
    assert(spec_boolean(t) == Ok::<(bool, int), Failure>((b, t.len() as int)));
}

/// The text of a string's content with every quote doubled.
pub open spec fn escape(s: Seq<char>) -> Seq<char>
    decreases s.len(),
{
    if s.len() == 0 {
        seq![]
    } else if s[0] == '\'' {
        seq!['\'', '\''] + escape(s.skip(1))
    } else {
        seq![s[0]] + escape(s.skip(1))
    }
}

/// The quoted text of a string literal.
pub open spec fn render_string(s: Seq<char>) -> Seq<char> {
    seq!['\''] + escape(s) + seq!['\'']
}

proof fn lemma_string_body_escape(s: Seq<char>, acc: Seq<char>)
    ensures
        string_body(escape(s) + seq!['\''], acc) == Some((acc + s, escape(s).len() + 1 as int)),
    decreases s.len(),
{
    let t = escape(s) + seq!['\''];
    if s.len() == 0 {
        assert(t =~= seq!['\'']);
        assert(acc + s =~= acc);
    } else {
        lemma_string_body_escape(s.skip(1), acc.push(s[0]));
        assert(acc.push(s[0]) + s.skip(1) =~= acc + s);
        if s[0] == '\'' {
            assert(t.skip(2) =~= escape(s.skip(1)) + seq!['\'']);
        } else {
            assert(t.skip(1) =~= escape(s.skip(1)) + seq!['\'']);
        }
    }
}

/// Every string reads back from its quoted, quote-doubled text, except where that text
/// is itself a duration's (`'P1D'`): the duration alternative comes first.
pub proof fn law_string_round_trip(s: Seq<char>)
    requires
        spec_duration(render_string(s)) == Err::<(crate::ast::Duration, int), Failure>(Failure::NoMatch),
    ensures
        spec_literal(render_string(s)) == Ok::<(LiteralView, int), Failure>(
            (LiteralView::String(s), render_string(s).len() as int),
        ),
{
    let t = render_string(s);
    lemma_string_body_escape(s, seq![]);
    assert(t.skip(1) =~= escape(s) + seq!['\'']);
    assert(seq![] + s =~= s);
    assert(spec_null(t) is Err) by {
        if t.len() >= 4 {
            assert(t.take(4)[0] != 'n');
        }
    }
    assert(!starts_with_ci(t, seq!['t', 'r', 'u', 'e'])) by {
        assert(ascii_lower(t[0]) != ascii_lower('t'));
    }
    assert(!starts_with_ci(t, seq!['f', 'a', 'l', 's', 'e'])) by {
        assert(ascii_lower(t[0]) != ascii_lower('f'));
    }
    assert(spec_string(t) == Ok::<(Seq<char>, int), Failure>((s, t.len() as int)));
}

proof fn lemma_base64_run_of_payload(text: Seq<char>, rest: Seq<char>)
    requires
        forall|j: int| 0 <= j < text.len() ==> is_base64url_char(#[trigger] text[j]),
        rest.len() > 0,
        !is_base64url_char(rest[0]),
    ensures
        base64_run(text + rest) == text.len(),
    decreases text.len(),
{
    if text.len() == 0 {
        assert(text + rest =~= rest);
    } else {
        lemma_base64_run_of_payload(text.skip(1), rest);
        assert((text + rest).skip(1) =~= text.skip(1) + rest);
    }
}

/// `binary'…'` around any base64url text reads back as the bytes that the text decodes to,
/// and fails as out of range when it decodes to none.
pub proof fn law_binary_literal(text: Seq<char>)
    requires
        forall|j: int| 0 <= j < text.len() ==> is_base64url_char(#[trigger] text[j]),
    ensures
        ({
            let t = seq!['b', 'i', 'n', 'a', 'r', 'y', '\''] + text + seq!['\''];
            match base64url_decoded(text) {
                Some(bytes) => spec_literal(t) == Ok::<(LiteralView, int), Failure>(
                    (LiteralView::Binary(bytes), t.len() as int),
                ),
                None => spec_literal(t) == Err::<(LiteralView, int), Failure>(Failure::Invalid),
            }
        }),
{
    let k = seq!['b', 'i', 'n', 'a', 'r', 'y', '\''];
    let t = k + text + seq!['\''];
    assert(starts_with_ci(t, k)) by {
        assert forall|j: int| 0 <= j < 7 implies ascii_lower(#[trigger] t[j]) == ascii_lower(k[j]) by {
            assert(t[j] == k[j]);
        }
    }
    assert(t.skip(7) =~= text + seq!['\'']);
    lemma_base64_run_of_payload(text, seq!['\'']);
    assert(t.subrange(7, 7 + text.len() as int) =~= text);
    assert(t[7 + text.len() as int] == '\'');
    assert(spec_null(t) is Err) by {
        assert(t.take(4)[0] != 'n');
    }
    assert(!starts_with_ci(t, duration_keyword())) by {
        assert(ascii_lower(t[0]) != ascii_lower(duration_keyword()[0]));
    }
    assert(!starts_with_ci(t, seq!['t', 'r', 'u', 'e'])) by {
        assert(ascii_lower(t[0]) != ascii_lower('t'));
    }
    assert(!starts_with_ci(t, seq!['f', 'a', 'l', 's', 'e'])) by {
        assert(ascii_lower(t[0]) != ascii_lower('f'));
    }
    assert(!guid_shape(t) && !crate::literal::guid_shape_upto(t, 14)) by {
        assert(!crate::scan::is_hex_char(t[1]));
    }
    assert(crate::scan::digit_run(t) == 0);
    assert(!(t.take(3) == seq!['N', 'a', 'N'])) by {
        assert(t.take(3)[0] != 'N');
    }
    assert(!(t.take(3) == seq!['I', 'N', 'F'])) by {
        assert(t.take(3)[0] != 'I');
    }
    assert(!(t.take(4) == seq!['-', 'I', 'N', 'F'])) by {
        assert(t.take(4)[0] != '-');
    }
}

/// Every GUID reads back as written, whatever the case of its hex digits.
pub proof fn law_guid_round_trip(g: Seq<char>)
    requires
        guid_shape(g),
        g.len() == 36,
    ensures
        spec_literal(g) == Ok::<(LiteralView, int), Failure>((LiteralView::GUID(g), 36)),
{
    assert(crate::scan::is_hex_char(g[0]));
    assert(crate::scan::is_hex_char(g[1]));
    assert(crate::scan::is_hex_char(g[2]));
    assert(crate::scan::is_hex_char(g[4]));
    assert(spec_null(g) is Err) by {
        assert(g.take(4)[0] == g[0]);
    }
    assert(!starts_with_ci(g, duration_keyword())) by {
        assert(ascii_lower(g[1]) != ascii_lower(duration_keyword()[1]));
    }
    assert(!starts_with_ci(g, seq!['t', 'r', 'u', 'e'])) by {
        assert(ascii_lower(g[0]) != ascii_lower('t'));
    }
    assert(!starts_with_ci(g, seq!['f', 'a', 'l', 's', 'e'])) by {
        assert(ascii_lower(g[2]) != ascii_lower('l'));
    }
    assert(spec_year(g) is Err || g[4] != '-');
    assert(spec_date(g) is Err && spec_date(g) != Err::<(crate::ast::Date, int), Failure>(Failure::Invalid));
    assert(spec_datetime(g) == Err::<(crate::ast::DateTimeOffset, int), Failure>(Failure::NoMatch));
    assert(spec_time(g) == Err::<(crate::ast::Time, int), Failure>(Failure::NoMatch));
    assert(g.take(36) =~= g);
}

pub open spec fn digit_char(d: int) -> char {
    seq!['0', '1', '2', '3', '4', '5', '6', '7', '8', '9'][d]
}

/// The decimal digits of `n`, most significant first, without leading zeros.
pub open spec fn decimal(n: nat) -> Seq<char>
    decreases n,
{
    if n < 10 {
        seq![digit_char(n as int)]
    } else {
        decimal(n / 10).push(digit_char((n % 10) as int))
    }
}

/// The text of an integer: its decimal digits, after `-` when it is negative.
pub open spec fn render_integer(v: i64) -> Seq<char> {
    if v < 0 {
        seq!['-'] + decimal((-v) as nat)
    } else {
        decimal(v as nat)
    }
}

proof fn lemma_digit_char(d: int)
    requires
        0 <= d < 10,
    ensures
        is_digit_char(digit_char(d)),
        digit_value(digit_char(d)) == d,
{
    let ds = seq!['0', '1', '2', '3', '4', '5', '6', '7', '8', '9'];
    if d == 0 {
        assert(ds[0] == '0');
    } else if d == 1 {
        assert(ds[1] == '1');
    } else if d == 2 {
        assert(ds[2] == '2');
    } else if d == 3 {
        assert(ds[3] == '3');
    } else if d == 4 {
        assert(ds[4] == '4');
    } else if d == 5 {
        assert(ds[5] == '5');
    } else if d == 6 {
        assert(ds[6] == '6');
    } else if d == 7 {
        assert(ds[7] == '7');
    } else if d == 8 {
        assert(ds[8] == '8');
    } else {
        assert(ds[9] == '9');
    }
}

proof fn lemma_decimal(n: nat)
    ensures
        decimal(n).len() >= 1,
        forall|j: int| 0 <= j < decimal(n).len() ==> is_digit_char(#[trigger] decimal(n)[j]),
        digits_value(decimal(n)) == n,
    decreases n,
{
    if n < 10 {
        lemma_digit_char(n as int);
        let d = decimal(n);
        assert(d.drop_last() =~= Seq::<char>::empty());
        assert(digits_value(Seq::<char>::empty()) == 0);
        assert(d.last() == digit_char(n as int));
        assert(digits_value(d) == digits_value(d.drop_last()) * 10 + digit_value(d.last()));
    } else {
        lemma_decimal(n / 10);
        lemma_digit_char((n % 10) as int);
        let d = decimal(n);
        assert(d.drop_last() =~= decimal(n / 10));
        vstd::arithmetic::div_mod::lemma_fundamental_div_mod(n as int, 10);
        assert(d.last() == digit_char((n % 10) as int));
        assert(digits_value(d) == digits_value(d.drop_last()) * 10 + digit_value(d.last()));
        assert(digits_value(d) == (n / 10) as int * 10 + (n % 10) as int);
        assert forall|j: int| 0 <= j < d.len() implies is_digit_char(#[trigger] d[j]) by {
            if j < d.len() - 1 {
                assert(d[j] == decimal(n / 10)[j]);
            }
        }
    }
}

proof fn lemma_digit_run_all(t: Seq<char>)
    requires
        forall|j: int| 0 <= j < t.len() ==> is_digit_char(#[trigger] t[j]),
    ensures
        digit_run(t) == t.len(),
    decreases t.len(),
{
    if t.len() > 0 {
        assert forall|j: int| 0 <= j < t.skip(1).len() implies is_digit_char(#[trigger] t.skip(1)[j]) by {
            assert(t.skip(1)[j] == t[j + 1]);
        }
        lemma_digit_run_all(t.skip(1));
    }
}

/// Every `i64` reads back from its decimal text.
#[verifier::rlimit(60)]
pub proof fn law_integer_round_trip(v: i64)
    ensures
        spec_literal(render_integer(v)) == Ok::<(LiteralView, int), Failure>(
            (LiteralView::Integer(v), render_integer(v).len() as int),
        ),
{
    let t = render_integer(v);
    let a: int = if v < 0 {
        1
    } else {
        0
    };
    let m: nat = if v < 0 {
        (-v) as nat
    } else {
        v as nat
    };
    lemma_decimal(m);
    assert(t.skip(a) =~= decimal(m));
    assert(t.subrange(a, t.len() as int) =~= decimal(m));
    assert forall|j: int| a <= j < t.len() implies is_digit_char(#[trigger] t[j]) by {
        assert(t[j] == decimal(m)[j - a]);
    }
    assert(is_digit_char(t[0]) || t[0] == '-');
    lemma_digit_run_all(t.skip(a));
    assert(crate::literal::sign_len(t) == a);
    assert(spec_null(t) is Err) by {
        if t.len() >= 4 {
            assert(t.take(4)[0] == t[0]);
        }
    }
    assert(!starts_with_ci(t, duration_keyword())) by {
        if t.len() >= 8 {
            assert(ascii_lower(t[0]) != ascii_lower(duration_keyword()[0]));
        }
    }
    assert(!starts_with_ci(t, seq!['t', 'r', 'u', 'e'])) by {
        if t.len() >= 4 {
            assert(ascii_lower(t[0]) != ascii_lower('t'));
        }
    }
    assert(!starts_with_ci(t, seq!['f', 'a', 'l', 's', 'e'])) by {
        if t.len() >= 5 {
            assert(ascii_lower(t[0]) != ascii_lower('f'));
        }
    }
    assert(spec_date(t) == Err::<(crate::ast::Date, int), Failure>(Failure::NoMatch)) by {
        if spec_year(t) is Ok {
            if a + 4 < t.len() {
                assert(is_digit_char(t[a + 4]));
            }
        }
    }
    assert(spec_time(t) == Err::<(crate::ast::Time, int), Failure>(Failure::NoMatch)) by {
        if t.len() > 2 {
            assert(is_digit_char(t[2]));
        }
    }
    assert(!guid_shape(t) && !crate::literal::guid_shape_upto(t, 14)) by {
        if t.len() >= 14 {
            assert(is_digit_char(t[8]));
        }
    }
    assert(float_text_len(t) is None);
    assert(spec_float(t) == Err::<(crate::ast::FloatView, int), Failure>(Failure::NoMatch)) by {
        if t.len() >= 3 {
            assert(t.take(3)[0] == t[0]);
        }
        if t.len() >= 4 {
            assert(t.take(4)[1] == t[1]);
            assert(is_digit_char(t[1]));
        }
    }
    assert(spec_integer(t) == Ok::<(i64, int), Failure>((v, t.len() as int)));
}

/// Two decimal digits of `n` (0 to 99), with a leading zero.
pub open spec fn two_digits(n: int) -> Seq<char> {
    seq![digit_char(n / 10), digit_char(n % 10)]
}

/// Four decimal digits of `n` (0 to 9999), with leading zeros.
pub open spec fn four_digits(n: int) -> Seq<char> {
    two_digits(n / 100) + two_digits(n % 100)
}

/// The text of a date: `yyyy-mm-dd`, after `-` for a negative year.
pub open spec fn render_date(d: Date) -> Seq<char> {
    let y = d.year as int;
    (if y < 0 {
        seq!['-']
    } else {
        Seq::<char>::empty()
    }) + four_digits(if y < 0 {
        -y
    } else {
        y
    }) + seq!['-'] + two_digits(d.month as int) + seq!['-'] + two_digits(d.day as int)
}

proof fn lemma_digits_value_concat(a: Seq<char>, b: Seq<char>)
    ensures
        digits_value(a + b) == digits_value(a) * pow10(b.len()) + digits_value(b),
    decreases b.len(),
{
    if b.len() == 0 {
        assert(a + b =~= a);
    } else {
        lemma_digits_value_concat(a, b.drop_last());
        assert((a + b).drop_last() =~= a + b.drop_last());
        assert((a + b).last() == b.last());
        let x = digits_value(a);
        let p = pow10(b.drop_last().len());
        let y = digits_value(b.drop_last());
        assert((x * p + y) * 10 == x * (10 * p) + y * 10) by (nonlinear_arith);
    }
}

proof fn lemma_two_digits(n: int)
    requires
        0 <= n < 100,
    ensures
        two_digits(n).len() == 2,
        is_digit_char(two_digits(n)[0]) && is_digit_char(two_digits(n)[1]),
        digits_value(two_digits(n)) == n,
{
    lemma_digit_char(n / 10);
    lemma_digit_char(n % 10);
    let t = two_digits(n);
    let first = t.drop_last();
    assert(first.drop_last() =~= Seq::<char>::empty());
    assert(digits_value(Seq::<char>::empty()) == 0);
    assert(first.last() == digit_char(n / 10));
    assert(digits_value(first) == digits_value(first.drop_last()) * 10 + digit_value(first.last()));
    assert(digits_value(first) == n / 10);
    assert(digits_value(t) == digits_value(first) * 10 + digit_value(t.last()));
    vstd::arithmetic::div_mod::lemma_fundamental_div_mod(n, 10);
}

proof fn lemma_four_digits(n: int)
    requires
        0 <= n < 10000,
    ensures
        four_digits(n).len() == 4,
        forall|j: int| 0 <= j < 4 ==> is_digit_char(#[trigger] four_digits(n)[j]),
        digits_value(four_digits(n)) == n,
{
    lemma_two_digits(n / 100);
    lemma_two_digits(n % 100);
    lemma_digits_value_concat(two_digits(n / 100), two_digits(n % 100));
    assert(pow10(2) == 100) by {
        reveal_with_fuel(pow10, 3);
    }
    vstd::arithmetic::div_mod::lemma_fundamental_div_mod(n, 100);
    let f = four_digits(n);
    assert forall|j: int| 0 <= j < 4 implies is_digit_char(#[trigger] f[j]) by {
        if j < 2 {
            assert(f[j] == two_digits(n / 100)[j]);
        } else {
            assert(f[j] == two_digits(n % 100)[j - 2]);
        }
    }
}

/// A date's text, whatever follows it, reads back as that date.
#[verifier::rlimit(60)]
proof fn lemma_date_prefix(d: Date, rest: Seq<char>)
    requires
        -9999 <= d.year <= 9999,
        1 <= d.month <= 12,
        1 <= d.day <= days_in_month(d.year as int, d.month as int),
    ensures
        spec_date(render_date(d) + rest) == Ok::<(Date, int), Failure>((d, render_date(d).len() as int)),
        is_digit_char(render_date(d)[0]) || render_date(d)[0] == '-',
{
    let r = render_date(d);
    let t = r + rest;
    let y = d.year as int;
    let a: int = if y < 0 {
        1
    } else {
        0
    };
    let ay = if y < 0 {
        -y
    } else {
        y
    };
    lemma_four_digits(ay);
    lemma_two_digits(d.month as int);
    lemma_two_digits(d.day as int);
    let yd = four_digits(ay);
    let md = two_digits(d.month as int);
    let dd = two_digits(d.day as int);
    assert(r.len() == a + 10);
    assert(t.skip(a).take(4) =~= yd);
    assert(t.subrange(a, a + 4) =~= yd);
    assert(t[a + 4] == '-');
    assert(t.skip(a + 5).take(2) =~= md);
    assert(t[a + 7] == '-');
    assert(t.skip(a + 8).take(2) =~= dd);
    assert(crate::scan::starts_with_digits(t.skip(a), 4)) by {
        assert forall|j: int| 0 <= j < 4 implies is_digit_char(#[trigger] t.skip(a)[j]) by {
            assert(t.skip(a)[j] == yd[j]);
        }
    }
    assert(crate::scan::starts_with_digits(t.skip(a + 5), 2)) by {
        assert forall|j: int| 0 <= j < 2 implies is_digit_char(#[trigger] t.skip(a + 5)[j]) by {
            assert(t.skip(a + 5)[j] == md[j]);
        }
    }
    assert(crate::scan::starts_with_digits(t.skip(a + 8), 2)) by {
        assert forall|j: int| 0 <= j < 2 implies is_digit_char(#[trigger] t.skip(a + 8)[j]) by {
            assert(t.skip(a + 8)[j] == dd[j]);
        }
    }
    assert(t[0] == '-' <==> a == 1) by {
        if a == 0 {
            assert(t[0] == yd[0]);
        }
    }
    assert(r[0] == t[0]);
    assert(a == 0 ==> r[0] == yd[0]);
    assert(spec_year(t) == Ok::<(i32, int), Failure>((d.year, a + 4)));
    assert(spec_month(t.skip(a + 5)) == Ok::<(u8, int), Failure>((d.month, 2)));
    assert(spec_day(t.skip(a + 8)) == Ok::<(u8, int), Failure>((d.day, 2)));
}

/// Every date of the calendar with a year in -9999..=9999 reads back from its text.
pub proof fn law_date_round_trip(d: Date)
    requires
        -9999 <= d.year <= 9999,
        1 <= d.month <= 12,
        1 <= d.day <= days_in_month(d.year as int, d.month as int),
    ensures
        spec_literal(render_date(d)) == Ok::<(LiteralView, int), Failure>(
            (LiteralView::Date(d), render_date(d).len() as int),
        ),
{
    let t = render_date(d);
    lemma_date_prefix(d, Seq::<char>::empty());
    assert(t + Seq::<char>::empty() =~= t);
    assert(spec_null(t) is Err) by {
        assert(t.take(4)[0] == t[0]);
    }
    assert(!starts_with_ci(t, duration_keyword())) by {
        assert(ascii_lower(t[0]) != ascii_lower(duration_keyword()[0]));
    }
    assert(!starts_with_ci(t, seq!['t', 'r', 'u', 'e'])) by {
        assert(ascii_lower(t[0]) != ascii_lower('t'));
    }
    assert(!starts_with_ci(t, seq!['f', 'a', 'l', 's', 'e'])) by {
        assert(ascii_lower(t[0]) != ascii_lower('f'));
    }
    assert(spec_datetime(t) == Err::<(crate::ast::DateTimeOffset, int), Failure>(Failure::NoMatch));
}

/// The last `w` decimal digits of `n`, with leading zeros.
pub open spec fn fixed_digits(n: int, w: nat) -> Seq<char>
    decreases w,
{
    if w == 0 {
        Seq::<char>::empty()
    } else {
        fixed_digits(n / 10, (w - 1) as nat).push(digit_char(n % 10))
    }
}

proof fn lemma_fixed_digits(n: int, w: nat)
    requires
        0 <= n < pow10(w),
    ensures
        fixed_digits(n, w).len() == w,
        forall|j: int| 0 <= j < w ==> is_digit_char(#[trigger] fixed_digits(n, w)[j]),
        digits_value(fixed_digits(n, w)) == n,
    decreases w,
{
    if w > 0 {
        let p = pow10((w - 1) as nat);
        assert(n / 10 < p) by (nonlinear_arith)
            requires 0 <= n < 10 * p;
        assert(n / 10 >= 0) by (nonlinear_arith)
            requires 0 <= n;
        lemma_fixed_digits(n / 10, (w - 1) as nat);
        lemma_digit_char(n % 10);
        let f = fixed_digits(n, w);
        assert(f.drop_last() =~= fixed_digits(n / 10, (w - 1) as nat));
        vstd::arithmetic::div_mod::lemma_fundamental_div_mod(n, 10);
        assert(digits_value(f) == digits_value(f.drop_last()) * 10 + digit_value(f.last()));
        assert forall|j: int| 0 <= j < w implies is_digit_char(#[trigger] f[j]) by {
            if j < w - 1 {
                assert(f[j] == fixed_digits(n / 10, (w - 1) as nat)[j]);
            }
        }
    }
}

/// Read digit by digit, a fraction's first `k` digits are the number they write.
proof fn lemma_fraction_prefix(d: Seq<char>, k: nat)
    requires
        k <= d.len(),
    ensures
        fraction_prefix_value(d, k) == digits_value(d.take(k as int)),
    decreases k,
{
    if k > 0 {
        lemma_fraction_prefix(d, (k - 1) as nat);
        assert(d.take(k as int).drop_last() =~= d.take(k - 1));
        assert(padded_digit(d, k - 1) == digit_value(d.take(k as int).last()));
    }
}

/// The text of a time of day: `hh:mm:ss.fffffffff`.
pub open spec fn render_time(x: Time) -> Seq<char> {
    two_digits(x.hour as int) + seq![':'] + two_digits(x.minute as int) + seq![':'] + two_digits(x.second as int)
        + seq!['.'] + fixed_digits(x.nanosecond as int, 9)
}

proof fn lemma_digit_run_of_prefix(text: Seq<char>, rest: Seq<char>)
    requires
        forall|j: int| 0 <= j < text.len() ==> is_digit_char(#[trigger] text[j]),
        rest.len() == 0 || !is_digit_char(rest[0]),
    ensures
        digit_run(text + rest) == text.len(),
    decreases text.len(),
{
    if text.len() == 0 {
        assert(text + rest =~= rest);
    } else {
        lemma_digit_run_of_prefix(text.skip(1), rest);
        assert((text + rest).skip(1) =~= text.skip(1) + rest);
    }
}

/// A time's text, followed by anything but a digit, reads back as that time.
#[verifier::rlimit(80)]
proof fn lemma_time_prefix(x: Time, rest: Seq<char>)
    requires
        x.hour <= 24,
        x.minute <= 59,
        x.second <= 59,
        x.nanosecond < 1_000_000_000,
        rest.len() == 0 || !is_digit_char(rest[0]),
    ensures
        spec_time(render_time(x) + rest) == Ok::<(Time, int), Failure>((x, 18)),
        render_time(x).len() == 18,
        is_digit_char(render_time(x)[0]) && render_time(x)[2] == ':',
{
    let r = render_time(x);
    let t = r + rest;
    lemma_two_digits(x.hour as int);
    lemma_two_digits(x.minute as int);
    lemma_two_digits(x.second as int);
    assert(pow10(9) == 1_000_000_000) by {
        reveal_with_fuel(pow10, 10);
    }
    lemma_fixed_digits(x.nanosecond as int, 9);
    let hd = two_digits(x.hour as int);
    let md = two_digits(x.minute as int);
    let sd = two_digits(x.second as int);
    let fd = fixed_digits(x.nanosecond as int, 9);
    assert(r.len() == 18);
    assert(t.take(2) =~= hd);
    assert(t[2] == ':');
    assert(t.skip(3).take(2) =~= md);
    assert(t[5] == ':');
    let ts = t.skip(6);
    assert(ts.take(2) =~= sd);
    assert(ts[2] == '.');
    assert(ts.skip(3) =~= fd + rest);
    assert(crate::scan::starts_with_digits(t, 2)) by {
        assert(t[0] == hd[0] && t[1] == hd[1]);
    }
    assert(crate::scan::starts_with_digits(t.skip(3), 2)) by {
        assert(t.skip(3)[0] == md[0] && t.skip(3)[1] == md[1]);
    }
    assert(crate::scan::starts_with_digits(ts, 2)) by {
        assert(ts[0] == sd[0] && ts[1] == sd[1]);
    }
    lemma_digit_run_of_prefix(fd, rest);
    assert((fd + rest).take(9) =~= fd);
    assert(fd.take(9) =~= fd);
    lemma_fraction_prefix(fd, 9);
    assert(spec_fractional_seconds(ts.skip(3)) == Ok::<(u32, int), Failure>((x.nanosecond, 9)));
    assert(spec_second(ts) == Ok::<((u8, u32), int), Failure>(((x.second, x.nanosecond), 12)));
    assert(spec_hour(t) == Ok::<(u8, int), Failure>((x.hour, 2)));
    assert(spec_minute(t.skip(3)) == Ok::<(u8, int), Failure>((x.minute, 2)));
    assert(r[0] == t[0] && r[2] == t[2]);
}

/// Every time of day (hour up to 24) reads back from its text with nine fraction digits.
pub proof fn law_time_round_trip(x: Time)
    requires
        x.hour <= 24,
        x.minute <= 59,
        x.second <= 59,
        x.nanosecond < 1_000_000_000,
    ensures
        spec_literal(render_time(x)) == Ok::<(LiteralView, int), Failure>(
            (LiteralView::Time(x), render_time(x).len() as int),
        ),
{
    let t = render_time(x);
    lemma_time_prefix(x, Seq::<char>::empty());
    assert(t + Seq::<char>::empty() =~= t);
    assert(spec_null(t) is Err) by {
        assert(t.take(4)[0] == t[0]);
    }
    assert(!starts_with_ci(t, duration_keyword())) by {
        assert(ascii_lower(t[0]) != ascii_lower(duration_keyword()[0]));
    }
    assert(!starts_with_ci(t, seq!['t', 'r', 'u', 'e'])) by {
        assert(ascii_lower(t[0]) != ascii_lower('t'));
    }
    assert(!starts_with_ci(t, seq!['f', 'a', 'l', 's', 'e'])) by {
        assert(ascii_lower(t[0]) != ascii_lower('f'));
    }
    assert(!crate::scan::starts_with_digits(t, 4)) by {
        assert(!is_digit_char(t[2]));
    }
    assert(spec_date(t) == Err::<(Date, int), Failure>(Failure::NoMatch));
    assert(spec_datetime(t) == Err::<(crate::ast::DateTimeOffset, int), Failure>(Failure::NoMatch));
}

/// The text of an offset from UTC in minutes: `Z` for none, else a sign and `hh:mm`.
pub open spec fn render_offset(o: int) -> Seq<char> {
    let a = if o < 0 {
        -o
    } else {
        o
    };
    if o == 0 {
        seq!['Z']
    } else {
        seq![if o < 0 {
            '-'
        } else {
            '+'
        }] + two_digits(a / 60) + seq![':'] + two_digits(a % 60)
    }
}

/// The text of a date-time with its offset.
pub open spec fn render_datetime(x: crate::ast::DateTimeOffset) -> Seq<char> {
    render_date(x.date) + seq!['T'] + render_time(x.time) + render_offset(x.offset_minutes as int)
}

/// Every date-time whose offset lies within ±24:59 reads back from its text.
#[verifier::rlimit(80)]
pub proof fn law_datetime_round_trip(x: crate::ast::DateTimeOffset)
    requires
        -9999 <= x.date.year <= 9999,
        1 <= x.date.month <= 12,
        1 <= x.date.day <= days_in_month(x.date.year as int, x.date.month as int),
        x.time.hour <= 24,
        x.time.minute <= 59,
        x.time.second <= 59,
        x.time.nanosecond < 1_000_000_000,
        -(24 * 60 + 59) <= x.offset_minutes <= 24 * 60 + 59,
    ensures
        spec_literal(render_datetime(x)) == Ok::<(LiteralView, int), Failure>(
            (LiteralView::DateTimeOffset(x), render_datetime(x).len() as int),
        ),
{
    let rd = render_date(x.date);
    let rt = render_time(x.time);
    let ro = render_offset(x.offset_minutes as int);
    let t = render_datetime(x);
    let n = rd.len() as int;
    assert(t =~= rd + (seq!['T'] + rt + ro));
    lemma_date_prefix(x.date, seq!['T'] + rt + ro);
    assert(t[n] == 'T');
    assert(t.skip(n + 1) =~= rt + ro);
    assert(ro.len() > 0 && !is_digit_char(ro[0]));
    lemma_time_prefix(x.time, ro);
    assert(t.skip(n + 1 + 18) =~= ro);
    let o = x.offset_minutes as int;
    if o != 0 {
        let a = if o < 0 {
            -o
        } else {
            o
        };
        assert(a / 60 <= 24) by (nonlinear_arith)
            requires 0 < a <= 24 * 60 + 59;
        assert(a % 60 < 60) by (nonlinear_arith)
            requires 0 < a;
        lemma_two_digits(a / 60);
        lemma_two_digits(a % 60);
        vstd::arithmetic::div_mod::lemma_fundamental_div_mod(a, 60);
        let hd = two_digits(a / 60);
        let md = two_digits(a % 60);
        assert(ro.skip(1).take(2) =~= hd);
        assert(ro[3] == ':');
        assert(ro.skip(4).take(2) =~= md);
        assert(crate::scan::starts_with_digits(ro.skip(1), 2)) by {
            assert(ro.skip(1)[0] == hd[0] && ro.skip(1)[1] == hd[1]);
        }
        assert(crate::scan::starts_with_digits(ro.skip(4), 2)) by {
            assert(ro.skip(4)[0] == md[0] && ro.skip(4)[1] == md[1]);
        }
        assert(spec_hour(ro.skip(1)) == Ok::<(u8, int), Failure>(((a / 60) as u8, 2)));
        assert(spec_minute(ro.skip(4)) == Ok::<(u8, int), Failure>(((a % 60) as u8, 2)));
        assert(crate::temporal::spec_tzoffset(ro) == Ok::<(i16, int), Failure>((x.offset_minutes, 6)));
    } else {
        assert(crate::temporal::spec_tzoffset(ro) == Ok::<(i16, int), Failure>((x.offset_minutes, 1)));
    }
    assert(spec_datetime(t) == Ok::<(crate::ast::DateTimeOffset, int), Failure>((x, t.len() as int)));
    assert(t[0] == rd[0]);
    assert(spec_null(t) is Err) by {
        assert(t.take(4)[0] == t[0]);
    }
    assert(!starts_with_ci(t, duration_keyword())) by {
        assert(ascii_lower(t[0]) != ascii_lower(duration_keyword()[0]));
    }
    assert(!starts_with_ci(t, seq!['t', 'r', 'u', 'e'])) by {
        assert(ascii_lower(t[0]) != ascii_lower('t'));
    }
    assert(!starts_with_ci(t, seq!['f', 'a', 'l', 's', 'e'])) by {
        assert(ascii_lower(t[0]) != ascii_lower('f'));
    }
}

/// The text of a special float value; decimal floats are kept as their own text.
pub open spec fn render_special_float(f: crate::ast::FloatView) -> Seq<char> {
    match f {
        crate::ast::FloatView::NaN => seq!['N', 'a', 'N'],
        crate::ast::FloatView::Infinity => seq!['I', 'N', 'F'],
        crate::ast::FloatView::NegInfinity => seq!['-', 'I', 'N', 'F'],
        crate::ast::FloatView::Decimal(text) => text,
    }
}

/// `NaN`, `INF` and `-INF` read back as the special float values they name.
pub proof fn law_special_float_round_trip(f: crate::ast::FloatView)
    requires
        !(f is Decimal),
    ensures
        spec_literal(render_special_float(f)) == Ok::<(LiteralView, int), Failure>(
            (LiteralView::Float(f), render_special_float(f).len() as int),
        ),
{
    let t = render_special_float(f);
    assert(t.len() >= 3);
    assert(!crate::scan::is_digit_char(t[0]));
    assert(!crate::scan::is_digit_char(t[1]));
    assert(spec_null(t) is Err) by {
        if t.len() >= 4 {
            assert(t.take(4)[0] == t[0]);
        }
    }
    assert(!starts_with_ci(t, duration_keyword())) by {
        assert(ascii_lower(t[0]) != ascii_lower(duration_keyword()[0]));
    }
    assert(!starts_with_ci(t, seq!['t', 'r', 'u', 'e'])) by {
        assert(ascii_lower(t[0]) != ascii_lower('t'));
    }
    assert(!starts_with_ci(t, seq!['f', 'a', 'l', 's', 'e'])) by {
        assert(ascii_lower(t[0]) != ascii_lower('f'));
    }
    assert(t.take(t.len() as int) =~= t);
    assert(crate::scan::digit_run(t) == 0);
    assert(crate::scan::digit_run(t.skip(1)) == 0);
    match f {
        crate::ast::FloatView::NaN => {},
        crate::ast::FloatView::Infinity => {
            assert(t.take(3)[0] != 'N');
        },
        crate::ast::FloatView::NegInfinity => {
            assert(t.take(3)[0] != 'N');
            assert(t.take(3)[0] != 'I');
        },
        crate::ast::FloatView::Decimal(_) => {},
    }
}

/// The text of a duration: `duration'`, `-` when it is negative, then `PT`, its whole
/// seconds, `.`, nine digits of nanoseconds, `S` and the closing quote.
pub open spec fn render_duration(d: crate::ast::Duration) -> Seq<char> {
    let neg = d.seconds < 0 || d.nanoseconds < 0;
    let s = if d.seconds < 0 {
        -d.seconds
    } else {
        d.seconds as int
    };
    let ns = if d.nanoseconds < 0 {
        -d.nanoseconds
    } else {
        d.nanoseconds as int
    };
    duration_keyword() + seq!['\''] + (if neg {
        seq!['-']
    } else {
        Seq::<char>::empty()
    }) + seq!['P', 'T'] + decimal(s as nat) + seq!['.'] + fixed_digits(ns, 9) + seq!['S', '\'']
}

/// The time part `<digits>.<nine digits>S'` is laid out as seconds with a fraction.
#[verifier::rlimit(60)]
proof fn lemma_seconds_time_layout(b: Seq<char>, r0: int, dec: Seq<char>, frac: Seq<char>)
    requires
        0 <= r0 <= b.len(),
        b.skip(r0) == dec + (seq!['.'] + frac + seq!['S', '\'']),
        dec.len() >= 1,
        forall|j: int| 0 <= j < dec.len() ==> is_digit_char(#[trigger] dec[j]),
        frac.len() == 9,
        forall|j: int| 0 <= j < frac.len() ==> is_digit_char(#[trigger] frac[j]),
    ensures
        crate::temporal::time_layout(b, r0) == (crate::temporal::TimeLayout {
            hd: 0,
            r1: r0,
            md: 0,
            r2: r0,
            sd: dec.len() as int,
            fd: 9,
            e: r0 + dec.len() + 11,
        }),
{
    reveal(crate::temporal::time_layout);
    reveal(crate::temporal::unit_digits);
    reveal(crate::temporal::seconds_digits);
    let tail = b.skip(r0);
    let n = dec.len() as int;
    lemma_digit_run_of_prefix(dec, seq!['.'] + frac + seq!['S', '\'']);
    assert(tail[n] == '.');
    assert(tail.skip(n + 1) =~= frac + seq!['S', '\'']);
    lemma_digit_run_of_prefix(frac, seq!['S', '\'']);
    assert(tail[n + 10] == 'S');
}

/// The text `[-]PT<digits>.<nine digits>S'` of a duration's body is laid out as seconds
/// with a fraction.
#[verifier::rlimit(60)]
proof fn lemma_seconds_duration_layout(sg: Seq<char>, dec: Seq<char>, frac: Seq<char>)
    requires
        sg == Seq::<char>::empty() || sg == seq!['-'],
        dec.len() >= 1,
        forall|j: int| 0 <= j < dec.len() ==> is_digit_char(#[trigger] dec[j]),
        frac.len() == 9,
        forall|j: int| 0 <= j < frac.len() ==> is_digit_char(#[trigger] frac[j]),
    ensures
        ({
            let b = sg + seq!['P', 'T'] + dec + seq!['.'] + frac + seq!['S', '\''];
            let a = sg.len() as int;
            let n = dec.len() as int;
            crate::temporal::duration_layout(b) == Some(
                crate::temporal::DurationLayout {
                    negative: sg.len() == 1,
                    days: (a + 1, 0),
                    hours: (a + 2, 0),
                    minutes: (a + 2, 0),
                    seconds: (a + 2, n),
                    fraction: (a + 2 + n + 1, 9),
                    end: a + 2 + n + 11,
                },
            )
        }),
{
    reveal(crate::temporal::duration_layout);
    reveal(crate::temporal::unit_digits);
    let b = sg + seq!['P', 'T'] + dec + seq!['.'] + frac + seq!['S', '\''];
    let a = sg.len() as int;
    let n = dec.len() as int;
    assert(crate::literal::sign_len(b) == a);
    assert(b[a] == 'P');
    assert(b[a + 1] == 'T');
    assert(digit_run(b.skip(a + 1)) == 0);
    assert(b.skip(a + 2) =~= dec + (seq!['.'] + frac + seq!['S', '\'']));
    lemma_seconds_time_layout(b, a + 2, dec, frac);
    assert(b[a + 2 + n + 11] == '\'');
    assert(sg.len() == 1 ==> b[0] == '-');
}

/// Every well-formed duration whose whole seconds are above `i64::MIN` reads back from its text.
#[verifier::rlimit(100)]
pub proof fn law_duration_round_trip(d: crate::ast::Duration)
    requires
        d.wf(),
        d.seconds > i64::MIN,
    ensures
        spec_literal(render_duration(d)) == Ok::<(LiteralView, int), Failure>(
            (LiteralView::Duration(d), render_duration(d).len() as int),
        ),
{
    let neg = d.seconds < 0 || d.nanoseconds < 0;
    let sv: int = if d.seconds < 0 {
        -d.seconds
    } else {
        d.seconds as int
    };
    let ns: int = if d.nanoseconds < 0 {
        -d.nanoseconds
    } else {
        d.nanoseconds as int
    };
    let dec = decimal(sv as nat);
    lemma_decimal(sv as nat);
    assert(pow10(9) == 1_000_000_000) by {
        reveal_with_fuel(pow10, 10);
    }
    lemma_fixed_digits(ns, 9);
    let frac = fixed_digits(ns, 9);
    let sg = if neg {
        seq!['-']
    } else {
        Seq::<char>::empty()
    };
    let b = sg + seq!['P', 'T'] + dec + seq!['.'] + frac + seq!['S', '\''];
    let t = render_duration(d);
    let a = sg.len() as int;
    let n = dec.len() as int;
    assert(t =~= duration_keyword() + seq!['\''] + b);
    assert(starts_with_ci(t, duration_keyword())) by {
        assert forall|j: int| 0 <= j < 8 implies ascii_lower(#[trigger] t[j]) == ascii_lower(duration_keyword()[j]) by {
            assert(t[j] == duration_keyword()[j]);
        }
    }
    assert(t[8] == '\'');
    assert(t.skip(9) =~= b);
    lemma_seconds_duration_layout(sg, dec, frac);
    assert(b.subrange(a + 2, a + 2 + n) =~= dec);
    assert(b.subrange(a + 2 + n + 1, a + 2 + n + 10) =~= frac);
    assert(frac.take(9) =~= frac);
    lemma_fraction_prefix(frac, 9);
    assert(t.take(4)[0] == 'd');
    assert(spec_duration(t) == Ok::<(crate::ast::Duration, int), Failure>((d, t.len() as int)));
}

/// The text of a decimal float: whole digits, `.`, fraction digits, after `-` when negative.
pub open spec fn render_decimal(negative: bool, whole: nat, fraction: nat) -> Seq<char> {
    (if negative {
        seq!['-']
    } else {
        Seq::<char>::empty()
    }) + decimal(whole) + seq!['.'] + decimal(fraction)
}

/// Every decimal text `[-]<digits>.<digits>` reads back as a float kept as that text.
#[verifier::rlimit(100)]
pub proof fn law_decimal_float_round_trip(negative: bool, whole: nat, fraction: nat)
    ensures
        spec_literal(render_decimal(negative, whole, fraction)) == Ok::<(LiteralView, int), Failure>(
            (
                LiteralView::Float(crate::ast::FloatView::Decimal(render_decimal(negative, whole, fraction))),
                render_decimal(negative, whole, fraction).len() as int,
            ),
        ),
{
    let t = render_decimal(negative, whole, fraction);
    let sg = if negative {
        seq!['-']
    } else {
        Seq::<char>::empty()
    };
    let a = sg.len() as int;
    let w = decimal(whole);
    let f = decimal(fraction);
    lemma_decimal(whole);
    lemma_decimal(fraction);
    let n = w.len() as int;
    assert(t =~= sg + (w + (seq!['.'] + f)));
    assert(t.skip(a) =~= w + (seq!['.'] + f));
    lemma_digit_run_of_prefix(w, seq!['.'] + f);
    assert(t[a + n] == '.');
    assert(t.skip(a + n + 1) =~= f + Seq::<char>::empty());
    lemma_digit_run_of_prefix(f, Seq::<char>::empty());
    assert(crate::literal::sign_len(t) == a);
    assert(float_text_len(t) == Some(t.len() as int));
    assert(t.take(t.len() as int) =~= t);
    assert forall|j: int| 1 <= j < t.len() implies #[trigger] t[j] != '-' && t[j] != ':' by {
        if j < a + n {
            assert(t[j] == w[j - a]);
        } else if j > a + n {
            assert(t[j] == f[j - a - n - 1]);
        }
    }
    assert(is_digit_char(t[0]) || t[0] == '-') by {
        if a == 0 {
            assert(t[0] == w[0]);
        }
    }
    assert(spec_null(t) is Err) by {
        if t.len() >= 4 {
            assert(t.take(4)[0] == t[0]);
        }
    }
    assert(!starts_with_ci(t, duration_keyword())) by {
        if t.len() >= 8 {
            assert(ascii_lower(t[0]) != ascii_lower(duration_keyword()[0]));
        }
    }
    assert(!starts_with_ci(t, seq!['t', 'r', 'u', 'e'])) by {
        if t.len() >= 4 {
            assert(ascii_lower(t[0]) != ascii_lower('t'));
        }
    }
    assert(!starts_with_ci(t, seq!['f', 'a', 'l', 's', 'e'])) by {
        if t.len() >= 5 {
            assert(ascii_lower(t[0]) != ascii_lower('f'));
        }
    }
    assert(spec_date(t) == Err::<(Date, int), Failure>(Failure::NoMatch)) by {
        if spec_year(t) is Ok && a + 4 < t.len() {
            assert(t[a + 4] != '-');
        }
    }
    assert(spec_time(t) == Err::<(Time, int), Failure>(Failure::NoMatch)) by {
        if t.len() > 2 {
            assert(t[2] != ':');
        }
    }
    assert(!guid_shape(t) && !crate::literal::guid_shape_upto(t, 14)) by {
        if t.len() >= 14 {
            if a == 1 {
                assert(!crate::scan::is_hex_char(t[0]));
            } else {
                assert(t[8] != '-');
            }
        }
    }
}

} // verus!
