//! Parsers for dates, times of day, date-times with offsets, and durations.

use vstd::prelude::*;
use crate::ast::{agrees, reports, Date, DateTimeOffset, Duration, Failure, IResult, Time};
use crate::literal::finish;
use crate::scan::{
    ascii_lower, chars_of, digits_upto, digits_value, is_digit, is_digit_char, lemma_digits_value_bound,
    lemma_skip_skip, lower, pow10, starts_with_digits,
};

verus! {

broadcast use lemma_skip_skip;

/// Exactly `n` digits whose value lies in `min..=max`.
pub open spec fn spec_n_digits_between(t: Seq<char>, n: int, min: u8, max: u8) -> Result<(u8, int), Failure> {
    if starts_with_digits(t, n) {
        let v = digits_value(t.take(n));
        if min <= v <= max {
            Ok((v as u8, n))
        } else {
            Err(Failure::Invalid)
        }
    } else {
        Err(Failure::NoMatch)
    }
}

/// An optional `-` and exactly four digits.
pub open spec fn spec_year(t: Seq<char>) -> Result<(i32, int), Failure> {
    let a: int = if t.len() > 0 && t[0] == '-' {
        1
    } else {
        0
    };
    if starts_with_digits(t.skip(a), 4) {
        let v = digits_value(t.subrange(a, a + 4));
        Ok((if a == 1 {
            -v
        } else {
            v
        } as i32, a + 4))
    } else {
        Err(Failure::NoMatch)
    }
}

pub open spec fn spec_month(t: Seq<char>) -> Result<(u8, int), Failure> {
    spec_n_digits_between(t, 2, 1, 12)
}

pub open spec fn spec_day(t: Seq<char>) -> Result<(u8, int), Failure> {
    spec_n_digits_between(t, 2, 1, 31)
}

pub open spec fn spec_hour(t: Seq<char>) -> Result<(u8, int), Failure> {
    spec_n_digits_between(t, 2, 0, 24)
}

pub open spec fn spec_minute(t: Seq<char>) -> Result<(u8, int), Failure> {
    spec_n_digits_between(t, 2, 0, 59)
}

pub open spec fn is_leap_year(y: int) -> bool {
    (y % 4 == 0 && y % 100 != 0) || y % 400 == 0
}

/// The number of days of month `m` (1 to 12) of year `y`, in the proleptic Gregorian calendar.
pub open spec fn days_in_month(y: int, m: int) -> int {
    if m == 2 {
        if is_leap_year(y) {
            29
        } else {
            28
        }
    } else if m == 4 || m == 6 || m == 9 || m == 11 {
        30
    } else {
        31
    }
}

/// Relies on time::Date::from_calendar_date (the month given through time::Month::try_from):
/// with time's default features (no `large-dates`), a date exists exactly when the year lies
/// in -9999..=9999 and the day among the days of that month in the proleptic Gregorian calendar.
#[verifier::external_body]
fn calendar_date_exists(year: i32, month: u8, day: u8) -> (r: bool)
    requires
        1 <= month <= 12,
    ensures
        r == (-9999 <= year <= 9999 && 1 <= day <= days_in_month(year as int, month as int)),
{
    match time::Month::try_from(month) {
        Ok(m) => time::Date::from_calendar_date(year, m, day).is_ok(),
        Err(_) => false,
    }
}

/// `year-month-day`, which must name a day of the calendar.
pub open spec fn spec_date(t: Seq<char>) -> Result<(Date, int), Failure> {
    match spec_year(t) {
        Err(f) => Err(f),
        Ok((y, a)) => if !(a < t.len() && t[a] == '-') {
            Err(Failure::NoMatch)
        } else {
            match spec_month(t.skip(a + 1)) {
                Err(f) => Err(f),
                Ok((m, _)) => if !(a + 3 < t.len() && t[a + 3] == '-') {
                    Err(Failure::NoMatch)
                } else {
                    match spec_day(t.skip(a + 4)) {
                        Err(f) => Err(f),
                        Ok((d, _)) => if 1 <= d <= days_in_month(y as int, m as int) {
                            Ok((Date { year: y, month: m, day: d }, a + 6))
                        } else {
                            Err(Failure::Invalid)
                        },
                    }
                },
            }
        },
    }
}

/// The digit of a fraction at position `k`, zero past its end.
pub open spec fn padded_digit(d: Seq<char>, k: int) -> int {
    if 0 <= k < d.len() {
        (d[k] as u32) - ('0' as u32)
    } else {
        0
    }
}

/// The first `k` digits of the fraction `d`, right-padded with zeros, as a number.
pub open spec fn fraction_prefix_value(d: Seq<char>, k: nat) -> int
    decreases k,
{
    if k == 0 {
        0
    } else {
        fraction_prefix_value(d, (k - 1) as nat) * 10 + padded_digit(d, k - 1)
    }
}

/// A decimal fraction's digits in nanoseconds: padded to nine digits, further digits dropped.
pub open spec fn fraction_nanos(d: Seq<char>) -> int {
    fraction_prefix_value(d, 9)
}

/// One to twelve digits after a decimal point, in nanoseconds.
pub open spec fn spec_fractional_seconds(t: Seq<char>) -> Result<(u32, int), Failure> {
    let k = crate::scan::digit_run(t);
    let k = if k > 12 {
        12
    } else {
        k
    };
    if k == 0 {
        Err(Failure::NoMatch)
    } else {
        Ok((fraction_nanos(t.take(k)) as u32, k))
    }
}

/// Two digits of seconds (0 to 59), optionally followed by `.` and a fraction.
pub open spec fn spec_second(t: Seq<char>) -> Result<((u8, u32), int), Failure> {
    match spec_n_digits_between(t, 2, 0, 59) {
        Err(f) => Err(f),
        Ok((sec, _)) => if t.len() > 2 && t[2] == '.' {
            match spec_fractional_seconds(t.skip(3)) {
                Ok((f, k)) => Ok(((sec, f), 3 + k)),
                Err(_) => Ok(((sec, 0u32), 2)),
            }
        } else {
            Ok(((sec, 0u32), 2))
        },
    }
}

/// `hour:minute`, optionally followed by `:second`.
pub open spec fn spec_time(t: Seq<char>) -> Result<(Time, int), Failure> {
    if spec_hour(t) == Err::<(u8, int), Failure>(Failure::NoMatch) || !(t.len() > 2 && t[2] == ':') {
        Err(Failure::NoMatch)
    } else {
        match spec_hour(t) {
            Err(f) => Err(f),
            Ok((h, _)) => match spec_minute(t.skip(3)) {
                Err(f) => Err(f),
                Ok((m, _)) => if t.len() > 5 && t[5] == ':' {
                    match spec_second(t.skip(6)) {
                        Ok(((sec, nano), k)) => Ok((Time { hour: h, minute: m, second: sec, nanosecond: nano }, 6 + k)),
                        Err(Failure::NoMatch) => Ok((Time { hour: h, minute: m, second: 0, nanosecond: 0 }, 5)),
                        Err(Failure::Invalid) => Err(Failure::Invalid),
                    }
                } else {
                    Ok((Time { hour: h, minute: m, second: 0, nanosecond: 0 }, 5))
                },
            },
        }
    }
}

/// `Z` (any case) for UTC, or a sign, two-digit hours, `:` and two-digit minutes; in minutes.
pub open spec fn spec_tzoffset(t: Seq<char>) -> Result<(i16, int), Failure> {
    if t.len() > 0 && ascii_lower(t[0]) == 'z' {
        Ok((0i16, 1))
    } else if t.len() > 0 && (t[0] == '+' || t[0] == '-') {
        match spec_hour(t.skip(1)) {
            Err(f) => Err(f),
            Ok((h, _)) => if !(t.len() > 3 && t[3] == ':') {
                Err(Failure::NoMatch)
            } else {
                match spec_minute(t.skip(4)) {
                    Err(f) => Err(f),
                    Ok((m, _)) => {
                        let v = h * 60 + m;
                        Ok((if t[0] == '-' {
                            -v
                        } else {
                            v
                        } as i16, 6))
                    },
                }
            },
        }
    } else {
        Err(Failure::NoMatch)
    }
}

/// A date, `T` (any case), a time and an optional offset, UTC when it is left out.
pub open spec fn spec_datetime(t: Seq<char>) -> Result<(DateTimeOffset, int), Failure> {
    match spec_date(t) {
        Err(f) => Err(f),
        Ok((d, a)) => if !(a < t.len() && ascii_lower(t[a]) == 't') {
            Err(Failure::NoMatch)
        } else {
            match spec_time(t.skip(a + 1)) {
                Err(f) => Err(f),
                Ok((tm, b)) => match spec_tzoffset(t.skip(a + 1 + b)) {
                    Ok((o, c)) => Ok((DateTimeOffset { date: d, time: tm, offset_minutes: o }, a + 1 + b + c)),
                    Err(Failure::NoMatch) => Ok((DateTimeOffset { date: d, time: tm, offset_minutes: 0 }, a + 1 + b)),
                    Err(Failure::Invalid) => Err(Failure::Invalid),
                },
            }
        },
    }
}

} // verus!

verus! {

/// Whether `s[i..]` starts with `n` digits.
fn digits_follow(s: &Vec<char>, i: usize, n: usize) -> (r: bool)
    requires
        i <= s@.len(),
    ensures
        r == starts_with_digits(s@.skip(i as int), n as int),
{
    let len = s.len();
    if n > len - i {
        return false;
    }
    let mut j: usize = 0;
    while j < n
        invariant
            len == s@.len(),
            i + n <= len,
            j <= n,
            forall|m: int| 0 <= m < j ==> is_digit_char(#[trigger] s@.skip(i as int)[m]),
        decreases n - j,
    {
        if !is_digit(s[i + j]) {
            assert(!is_digit_char(s@.skip(i as int)[j as int]));
            return false;
        }
        j = j + 1;
    }
    true
}

pub fn n_digits_between_at(s: &Vec<char>, i: usize, n: usize, min: u8, max: u8) -> (r: Result<(u8, usize), Failure>)
    requires
        i <= s@.len(),
    ensures
        agrees(r, spec_n_digits_between(s@.skip(i as int), n as int, min, max)),
        r matches Ok((_, k)) ==> i + k <= s@.len(),
{
    let len = s.len();
    if !digits_follow(s, i, n) {
        return Err(Failure::NoMatch);
    }
    proof {
        assert(s@.skip(i as int).take(n as int) =~= s@.subrange(i as int, i + n));
        assert forall|k: int| i <= k < i + n implies is_digit_char(#[trigger] s@[k]) by {
            assert(s@[k] == s@.skip(i as int)[k - i]);
        }
    }
    match digits_upto(s, i, i + n, max as u64) {
        Some(v) => {
            if v < min as u64 {
                Err(Failure::Invalid)
            } else {
                Ok((v as u8, n))
            }
        },
        None => Err(Failure::Invalid),
    }
}

#[verifier::rlimit(40)]
pub fn year_at(s: &Vec<char>, i: usize) -> (r: Result<(i32, usize), Failure>)
    requires
        i <= s@.len(),
    ensures
        agrees(r, spec_year(s@.skip(i as int))),
        r matches Ok((y, k)) ==> i + k <= s@.len() && -9999 <= y <= 9999,
{
    let ghost t = s@.skip(i as int);
    let len = s.len();
    let a: usize = if i < len && s[i] == '-' {
        1
    } else {
        0
    };
    if !digits_follow(s, i + a, 4) {
        return Err(Failure::NoMatch);
    }
    proof {
        let d = s@.subrange(i + a, i + a + 4);
        assert(t.subrange(a as int, a + 4) =~= d);
        assert forall|k: int| 0 <= k < d.len() implies is_digit_char(#[trigger] d[k]) by {
            assert(d[k] == s@.skip(i + a)[k]);
        }
        lemma_digits_value_bound(d);
        assert(pow10(4) == 10000) by {
            reveal_with_fuel(pow10, 5);
        }
        assert forall|k: int| i + a <= k < i + a + 4 implies is_digit_char(#[trigger] s@[k]) by {
            assert(s@[k] == d[k - i - a]);
        }
    }
    match digits_upto(s, i + a, i + a + 4, 9999) {
        Some(v) => {
            let y: i32 = if a == 1 {
                -(v as i32)
            } else {
                v as i32
            };
            Ok((y, a + 4))
        },
        None => Err(Failure::NoMatch),
    }
}

#[verifier::rlimit(40)]
pub fn date_at(s: &Vec<char>, i: usize) -> (r: Result<(Date, usize), Failure>)
    requires
        i <= s@.len(),
    ensures
        agrees(r, spec_date(s@.skip(i as int))),
        r matches Ok((_, k)) ==> i + k <= s@.len(),
{
    let ghost t = s@.skip(i as int);
    let len = s.len();
    let (y, a) = match year_at(s, i) {
        Ok(p) => p,
        Err(f) => return Err(f),
    };
    if !(i + a < len && s[i + a] == '-') {
        return Err(Failure::NoMatch);
    }
    let (m, _) = match n_digits_between_at(s, i + a + 1, 2, 1, 12) {
        Ok(p) => p,
        Err(f) => return Err(f),
    };
    if !(i + a + 3 < len && s[i + a + 3] == '-') {
        return Err(Failure::NoMatch);
    }
    let (d, _) = match n_digits_between_at(s, i + a + 4, 2, 1, 31) {
        Ok(p) => p,
        Err(f) => return Err(f),
    };
    if calendar_date_exists(y, m, d) {
        Ok((Date { year: y, month: m, day: d }, a + 6))
    } else {
        Err(Failure::Invalid)
    }
}

/// The first nine digits of the fraction `s[i..i + k]`, right-padded with zeros.
fn fraction_nanos_at(s: &Vec<char>, i: usize, k: usize) -> (r: u32)
    requires
        i + k <= s@.len(),
        forall|m: int| i <= m < i + k ==> is_digit_char(#[trigger] s@[m]),
    ensures
        r as int == fraction_nanos(s@.subrange(i as int, i + k)),
        r < 1_000_000_000,
{
    let ghost d = s@.subrange(i as int, i + k);
    let len = s.len();
    let mut acc: u64 = 0;
    let mut j: usize = 0;
    while j < 9
        invariant
            len == s@.len(),
            i + k <= s@.len(),
            d == s@.subrange(i as int, i + k),
            forall|m: int| i <= m < i + k ==> is_digit_char(#[trigger] s@[m]),
            j <= 9,
            acc as int == fraction_prefix_value(d, j as nat),
            0 <= acc < pow10(j as nat),
        decreases 9 - j,
    {
        let digit: u64 = if j < k {
            assert(is_digit_char(s@[i + j]));
            (s[i + j] as u32 - '0' as u32) as u64
        } else {
            0
        };
        assert(digit as int == padded_digit(d, j as int));
        assert(acc * 10 + digit < 10 * pow10(j as nat)) by (nonlinear_arith)
            requires acc < pow10(j as nat), digit <= 9;
        proof {
            assert(pow10(9) == 1_000_000_000) by {
                reveal_with_fuel(pow10, 10);
            }
            crate::scan::lemma_pow10_monotone((j + 1) as nat, 9);
        }
        acc = acc * 10 + digit;
        j = j + 1;
    }
    assert(pow10(9) == 1_000_000_000) by {
        reveal_with_fuel(pow10, 10);
    }
    acc as u32
}

pub fn fractional_seconds_at(s: &Vec<char>, i: usize) -> (r: Result<(u32, usize), Failure>)
    requires
        i <= s@.len(),
    ensures
        agrees(r, spec_fractional_seconds(s@.skip(i as int))),
        r matches Ok((_, k)) ==> i + k <= s@.len(),
{
    let run = crate::scan::digit_run_at(s, i);
    let k = if run > 12 {
        12
    } else {
        run
    };
    if k == 0 {
        return Err(Failure::NoMatch);
    }
    proof {
        crate::scan::lemma_digit_run_bounds(s@.skip(i as int));
        assert(s@.skip(i as int).take(k as int) =~= s@.subrange(i as int, i + k));
        assert forall|m: int| i <= m < i + k implies is_digit_char(#[trigger] s@[m]) by {
            assert(s@[m] == s@.skip(i as int)[m - i]);
        }
    }
    let nanos = fraction_nanos_at(s, i, k);
    Ok((nanos, k))
}

#[verifier::rlimit(40)]
pub fn second_at(s: &Vec<char>, i: usize) -> (r: Result<((u8, u32), usize), Failure>)
    requires
        i <= s@.len(),
    ensures
        agrees(r, spec_second(s@.skip(i as int))),
        r matches Ok((_, k)) ==> i + k <= s@.len(),
{
    let len = s.len();
    let (sec, _) = match n_digits_between_at(s, i, 2, 0, 59) {
        Ok(p) => p,
        Err(f) => return Err(f),
    };
    if i + 2 < len && s[i + 2] == '.' {
        match fractional_seconds_at(s, i + 3) {
            Ok((f, k)) => Ok(((sec, f), 3 + k)),
            Err(_) => Ok(((sec, 0), 2)),
        }
    } else {
        Ok(((sec, 0), 2))
    }
}

#[verifier::rlimit(40)]
pub fn time_at(s: &Vec<char>, i: usize) -> (r: Result<(Time, usize), Failure>)
    requires
        i <= s@.len(),
    ensures
        agrees(r, spec_time(s@.skip(i as int))),
        r matches Ok((_, k)) ==> i + k <= s@.len(),
{
    let len = s.len();
    let hour = n_digits_between_at(s, i, 2, 0, 24);
    if matches!(hour, Err(Failure::NoMatch)) || !(i + 2 < len && s[i + 2] == ':') {
        return Err(Failure::NoMatch);
    }
    let (h, _) = match hour {
        Ok(p) => p,
        Err(f) => return Err(f),
    };
    let (m, _) = match n_digits_between_at(s, i + 3, 2, 0, 59) {
        Ok(p) => p,
        Err(f) => return Err(f),
    };
    if i + 5 < len && s[i + 5] == ':' {
        match second_at(s, i + 6) {
            Ok(((sec, nano), k)) => Ok((Time { hour: h, minute: m, second: sec, nanosecond: nano }, 6 + k)),
            Err(Failure::NoMatch) => Ok((Time { hour: h, minute: m, second: 0, nanosecond: 0 }, 5)),
            Err(Failure::Invalid) => Err(Failure::Invalid),
        }
    } else {
        Ok((Time { hour: h, minute: m, second: 0, nanosecond: 0 }, 5))
    }
}

#[verifier::rlimit(40)]
pub fn tzoffset_at(s: &Vec<char>, i: usize) -> (r: Result<(i16, usize), Failure>)
    requires
        i <= s@.len(),
    ensures
        agrees(r, spec_tzoffset(s@.skip(i as int))),
        r matches Ok((_, k)) ==> i + k <= s@.len(),
{
    let len = s.len();
    if i < len && lower(s[i]) == 'z' {
        return Ok((0, 1));
    }
    if !(i < len && (s[i] == '+' || s[i] == '-')) {
        return Err(Failure::NoMatch);
    }
    let (h, _) = match n_digits_between_at(s, i + 1, 2, 0, 24) {
        Ok(p) => p,
        Err(f) => return Err(f),
    };
    if !(i + 3 < len && s[i + 3] == ':') {
        return Err(Failure::NoMatch);
    }
    let (m, _) = match n_digits_between_at(s, i + 4, 2, 0, 59) {
        Ok(p) => p,
        Err(f) => return Err(f),
    };
    let v: i16 = (h as i16) * 60 + (m as i16);
    if s[i] == '-' {
        Ok((-v, 6))
    } else {
        Ok((v, 6))
    }
}

#[verifier::rlimit(40)]
pub fn datetime_at(s: &Vec<char>, i: usize) -> (r: Result<(DateTimeOffset, usize), Failure>)
    requires
        i <= s@.len(),
    ensures
        agrees(r, spec_datetime(s@.skip(i as int))),
        r matches Ok((_, k)) ==> i + k <= s@.len(),
{
    let len = s.len();
    let (d, a) = match date_at(s, i) {
        Ok(p) => p,
        Err(f) => return Err(f),
    };
    if !(i + a < len && lower(s[i + a]) == 't') {
        return Err(Failure::NoMatch);
    }
    let (tm, b) = match time_at(s, i + a + 1) {
        Ok(p) => p,
        Err(f) => return Err(f),
    };
    match tzoffset_at(s, i + a + 1 + b) {
        Ok((o, c)) => Ok((DateTimeOffset { date: d, time: tm, offset_minutes: o }, a + 1 + b + c)),
        Err(Failure::NoMatch) => Ok((DateTimeOffset { date: d, time: tm, offset_minutes: 0 }, a + 1 + b)),
        Err(Failure::Invalid) => Err(Failure::Invalid),
    }
}

} // verus!

verus! {

/// The number of digits at the start of `t` when they are followed by the unit letter `u`
/// (in any case); zero when that component is absent.
#[verifier::opaque]
pub open spec fn unit_digits(t: Seq<char>, u: char) -> int {
    let d = crate::scan::digit_run(t);
    if d > 0 && d < t.len() && ascii_lower(t[d]) == u {
        d
    } else {
        0
    }
}

/// The whole and fraction digit counts of a seconds component `<n>[.<frac>]S`; `(0, 0)` when absent.
#[verifier::opaque]
pub open spec fn seconds_digits(t: Seq<char>) -> (int, int) {
    let a = crate::scan::digit_run(t);
    let f = crate::scan::digit_run(t.skip(a + 1));
    if a == 0 {
        (0, 0)
    } else if a < t.len() && t[a] == '.' && f > 0 {
        if a + 1 + f < t.len() && ascii_lower(t[a + 1 + f]) == 's' {
            (a, f)
        } else {
            (0, 0)
        }
    } else if a < t.len() && ascii_lower(t[a]) == 's' {
        (a, 0)
    } else {
        (0, 0)
    }
}

/// The components of a duration's text, each zero when absent.
pub ghost struct DurationParts {
    pub negative: bool,
    pub days: int,
    pub hours: int,
    pub minutes: int,
    pub seconds: int,
    pub nanos: int,
    /// Characters consumed, closing quote included.
    pub len: int,
}

/// Where the components of a duration's text lie, relative to its start: the start and
/// digit count of each (count 0 when absent), and the position of the closing quote.
pub ghost struct DurationLayout {
    pub negative: bool,
    pub days: (int, int),
    pub hours: (int, int),
    pub minutes: (int, int),
    pub seconds: (int, int),
    pub fraction: (int, int),
    pub end: int,
}

/// Where the components of a duration's time part lie, from `r0` just after its `T`:
/// the digit counts of hours, minutes, whole and fractional seconds, where minutes and
/// seconds start, and where the time part ends.
pub ghost struct TimeLayout {
    pub hd: int,
    pub r1: int,
    pub md: int,
    pub r2: int,
    pub sd: int,
    pub fd: int,
    pub e: int,
}

#[verifier::opaque]
pub open spec fn time_layout(t: Seq<char>, r0: int) -> TimeLayout {
    let hd = unit_digits(t.skip(r0), 'h');
    let r1 = if hd > 0 {
        r0 + hd + 1
    } else {
        r0
    };
    let md = unit_digits(t.skip(r1), 'm');
    let r2 = if md > 0 {
        r1 + md + 1
    } else {
        r1
    };
    let sf = seconds_digits(t.skip(r2));
    let e = if sf.0 == 0 {
        r2
    } else if sf.1 > 0 {
        r2 + sf.0 + sf.1 + 2
    } else {
        r2 + sf.0 + 1
    };
    TimeLayout { hd, r1, md, r2, sd: sf.0, fd: sf.1, e }
}

/// The layout of the text of a duration after its opening quote: an optional sign, `P`,
/// optional days, an optional time part (`T`, then optional hours, minutes, seconds),
/// and the closing quote.
#[verifier::opaque]
pub open spec fn duration_layout(t: Seq<char>) -> Option<DurationLayout> {
    let a = crate::literal::sign_len(t);
    let p = a + 1;
    let dd = unit_digits(t.skip(p), 'd');
    let q = if dd > 0 {
        p + dd + 1
    } else {
        p
    };
    let has_t = q < t.len() && ascii_lower(t[q]) == 't';
    let r0 = q + 1;
    let tl = if has_t {
        time_layout(t, r0)
    } else {
        TimeLayout { hd: 0, r1: q, md: 0, r2: q, sd: 0, fd: 0, e: q }
    };
    if !(a < t.len() && ascii_lower(t[a]) == 'p') {
        None
    } else if tl.e < t.len() && t[tl.e] == '\'' {
        Some(
            DurationLayout {
                negative: a == 1 && t[0] == '-',
                days: (p, dd),
                hours: (r0, tl.hd),
                minutes: (tl.r1, tl.md),
                seconds: (tl.r2, tl.sd),
                fraction: if tl.fd > 0 {
                    (tl.r2 + tl.sd + 1, tl.fd)
                } else {
                    (tl.r2, 0)
                },
                end: tl.e,
            },
        )
    } else {
        None
    }
}

pub open spec fn span_value(t: Seq<char>, sp: (int, int)) -> int {
    if sp.1 > 0 {
        digits_value(t.subrange(sp.0, sp.0 + sp.1))
    } else {
        0
    }
}

/// The components of the duration text `t` whose layout is `l`.
pub open spec fn duration_parts(t: Seq<char>, l: DurationLayout) -> DurationParts {
    DurationParts {
        negative: l.negative,
        days: span_value(t, l.days),
        hours: span_value(t, l.hours),
        minutes: span_value(t, l.minutes),
        seconds: span_value(t, l.seconds),
        nanos: if l.fraction.1 > 0 {
            fraction_nanos(t.subrange(l.fraction.0, l.fraction.0 + l.fraction.1))
        } else {
            0
        },
        len: l.end + 1,
    }
}

/// The components of the text of a duration after its opening quote.
pub open spec fn spec_duration_body(t: Seq<char>) -> Option<DurationParts> {
    match duration_layout(t) {
        Some(l) => Some(duration_parts(t, l)),
        None => None,
    }
}

/// The whole seconds of a duration's components, before its sign.
pub open spec fn total_seconds(p: DurationParts) -> int {
    p.days * 86400 + p.hours * 3600 + p.minutes * 60 + p.seconds
}

pub open spec fn duration_keyword() -> Seq<char> {
    seq!['d', 'u', 'r', 'a', 't', 'i', 'o', 'n']
}

/// A duration in quotes, with or without the `duration` keyword (any case) before them:
/// the sum of its components, negated for a leading `-`. Its whole seconds must fit in an `i64`.
pub open spec fn spec_duration(t: Seq<char>) -> Result<(Duration, int), Failure> {
    let k: int = if crate::scan::starts_with_ci(t, duration_keyword()) {
        8
    } else {
        0
    };
    if !(k < t.len() && t[k] == '\'') {
        Err(Failure::NoMatch)
    } else {
        match spec_duration_body(t.skip(k + 1)) {
            None => Err(Failure::NoMatch),
            Some(p) => {
                let total = total_seconds(p);
                if total <= i64::MAX {
                    Ok((
                        Duration {
                            seconds: (if p.negative {
                                -total
                            } else {
                                total
                            }) as i64,
                            nanoseconds: (if p.negative {
                                -p.nanos
                            } else {
                                p.nanos
                            }) as i32,
                        },
                        k + 1 + p.len,
                    ))
                } else {
                    Err(Failure::Invalid)
                }
            },
        }
    }
}

} // verus!

verus! {

fn unit_digits_at(s: &Vec<char>, i: usize, u: char) -> (r: usize)
    requires
        i <= s@.len(),
    ensures
        r as int == unit_digits(s@.skip(i as int), u),
        r > 0 ==> i + r < s@.len(),
        r <= crate::scan::digit_run(s@.skip(i as int)),
{
    reveal(unit_digits);
    let len = s.len();
    let d = crate::scan::digit_run_at(s, i);
    if d > 0 && i + d < len && lower(s[i + d]) == u {
        d
    } else {
        0
    }
}

fn seconds_digits_at(s: &Vec<char>, i: usize) -> (r: (usize, usize))
    requires
        i <= s@.len(),
    ensures
        (r.0 as int, r.1 as int) == seconds_digits(s@.skip(i as int)),
        r.0 <= crate::scan::digit_run(s@.skip(i as int)),
        r.0 > 0 && r.1 == 0 ==> i + r.0 < s@.len(),
        r.0 > 0 && r.1 > 0 ==> i + r.0 + 1 + r.1 < s@.len() && r.1 <= crate::scan::digit_run(
            s@.skip(i + r.0 + 1),
        ),
        r.0 == 0 ==> r.1 == 0,
{
    reveal(seconds_digits);
    let len = s.len();
    let a = crate::scan::digit_run_at(s, i);
    if a == 0 {
        return (0, 0);
    }
    if i + a < len && s[i + a] == '.' {
        let f = crate::scan::digit_run_at(s, i + a + 1);
        if f > 0 {
            if i + a + 1 + f < len && lower(s[i + a + 1 + f]) == 's' {
                return (a, f);
            } else {
                return (0, 0);
            }
        }
    }
    if i + a < len && lower(s[i + a]) == 's' {
        (a, 0)
    } else {
        (0, 0)
    }
}

/// The value of the `n` digits at `s[from..]`, when it is at most `i64::MAX`; 0 for no digits.
fn component_value(s: &Vec<char>, from: usize, n: usize) -> (r: Option<u64>)
    requires
        n > 0 ==> from <= s@.len() && n <= crate::scan::digit_run(s@.skip(from as int)),
    ensures
        n == 0 ==> r == Some(0u64),
        n > 0 ==> (r is Some <==> digits_value(s@.subrange(from as int, from + n)) <= i64::MAX),
        n > 0 ==> digits_value(s@.subrange(from as int, from + n)) >= 0,
        r matches Some(v) ==> v <= i64::MAX && (n > 0 ==> v as int == digits_value(
            s@.subrange(from as int, from + n),
        )),
{
    if n == 0 {
        return Some(0);
    }
    let len = s.len();
    proof {
        crate::scan::lemma_run_is_digits(s@, from as int, n as int);
        crate::scan::lemma_digits_value_nonneg(s@.subrange(from as int, from + n));
    }
    digits_upto(s, from, from + n, 9223372036854775807)
}

/// Where the components of a duration's text lie: the start and digit count of each,
/// and the position of the closing quote.
struct DurationSpans {
    negative: bool,
    days: (usize, usize),
    hours: (usize, usize),
    minutes: (usize, usize),
    seconds: (usize, usize),
    fraction: (usize, usize),
    end: usize,
}

/// Where the components of a duration's time part lie (see `TimeLayout`).
struct TimeSpans {
    hd: usize,
    r1: usize,
    md: usize,
    r2: usize,
    sd: usize,
    fd: usize,
    e: usize,
}

spec fn time_spans_view(x: TimeSpans) -> TimeLayout {
    TimeLayout {
        hd: x.hd as int,
        r1: x.r1 as int,
        md: x.md as int,
        r2: x.r2 as int,
        sd: x.sd as int,
        fd: x.fd as int,
        e: x.e as int,
    }
}

#[verifier::rlimit(40)]
fn time_layout_at(u: &Vec<char>, r0: usize) -> (r: TimeSpans)
    requires
        r0 <= u@.len(),
    ensures
        time_spans_view(r) == time_layout(u@, r0 as int),
        r.e <= u@.len(),
        r0 <= r.r1 <= r.r2 <= r.e,
        r.hd > 0 ==> r0 + r.hd < u@.len() && r.hd <= crate::scan::digit_run(u@.skip(r0 as int)),
        r.md > 0 ==> r.r1 + r.md < u@.len() && r.md <= crate::scan::digit_run(u@.skip(r.r1 as int)),
        r.sd > 0 ==> r.sd <= crate::scan::digit_run(u@.skip(r.r2 as int)),
        r.fd > 0 ==> r.sd > 0 && r.r2 + r.sd + 1 + r.fd < u@.len() && r.fd <= crate::scan::digit_run(
            u@.skip(r.r2 + r.sd + 1),
        ),
        r.sd == 0 ==> r.fd == 0,
{
    reveal(time_layout);
    let len = u.len();
    let hd = unit_digits_at(u, r0, 'h');
    let r1 = if hd > 0 {
        r0 + hd + 1
    } else {
        r0
    };
    let md = unit_digits_at(u, r1, 'm');
    let r2 = if md > 0 {
        r1 + md + 1
    } else {
        r1
    };
    let sf = seconds_digits_at(u, r2);
    let e = if sf.0 == 0 {
        r2
    } else if sf.1 > 0 {
        r2 + sf.0 + sf.1 + 2
    } else {
        r2 + sf.0 + 1
    };
    TimeSpans { hd, r1, md, r2, sd: sf.0, fd: sf.1, e }
}

spec fn span_view(sp: (usize, usize)) -> (int, int) {
    (sp.0 as int, sp.1 as int)
}

spec fn layout_view(d: DurationSpans) -> DurationLayout {
    DurationLayout {
        negative: d.negative,
        days: span_view(d.days),
        hours: span_view(d.hours),
        minutes: span_view(d.minutes),
        seconds: span_view(d.seconds),
        fraction: span_view(d.fraction),
        end: d.end as int,
    }
}

spec fn span_ok(s: Seq<char>, sp: (usize, usize)) -> bool {
    sp.1 > 0 ==> sp.0 < s.len() && sp.1 <= crate::scan::digit_run(s.skip(sp.0 as int))
}

/// The layout of the duration text `u` (which follows the opening quote).
fn duration_body_at(u: &Vec<char>) -> (r: Option<DurationSpans>)
    ensures
        r is None ==> duration_layout(u@) is None,
        r matches Some(d) ==> {
            &&& duration_layout(u@) == Some(layout_view(d))
            &&& d.end < u@.len()
            &&& span_ok(u@, d.days) && span_ok(u@, d.hours) && span_ok(u@, d.minutes)
            &&& span_ok(u@, d.seconds) && span_ok(u@, d.fraction)
        },
{
    reveal(duration_layout);
    let len = u.len();
    let a = crate::literal::sign_len_at(u, 0);
    assert(u@.skip(0) =~= u@);
    if !(a < len && lower(u[a]) == 'p') {
        return None;
    }
    let p = a + 1;
    let dd = unit_digits_at(u, p, 'd');
    let q = if dd > 0 {
        p + dd + 1
    } else {
        p
    };
    let has_t = q < len && lower(u[q]) == 't';
    let tl = if has_t {
        time_layout_at(u, q + 1)
    } else {
        TimeSpans { hd: 0, r1: q, md: 0, r2: q, sd: 0, fd: 0, e: q }
    };
    if !(tl.e < len && u[tl.e] == '\'') {
        return None;
    }
    Some(DurationSpans {
        negative: a == 1 && u[0] == '-',
        days: (p, dd),
        hours: (q + 1, tl.hd),
        minutes: (tl.r1, tl.md),
        seconds: (tl.r2, tl.sd),
        fraction: if tl.fd > 0 {
            (tl.r2 + tl.sd + 1, tl.fd)
        } else {
            (tl.r2, 0)
        },
        end: tl.e,
    })
}

/// A copy of `s[from..]`.
fn suffix_of(s: &Vec<char>, from: usize) -> (r: Vec<char>)
    requires
        from <= s@.len(),
    ensures
        r@ == s@.skip(from as int),
{
    let mut out: Vec<char> = Vec::new();
    let mut k: usize = from;
    while k < s.len()
        invariant
            from <= k <= s@.len(),
            out@ == s@.subrange(from as int, k as int),
        decreases s@.len() - k,
    {
        out.push(s[k]);
        k = k + 1;
        assert(out@ =~= s@.subrange(from as int, k as int));
    }
    assert(out@ =~= s@.skip(from as int));
    out
}

#[verifier::rlimit(80)]
pub fn duration_at(s: &Vec<char>, i: usize) -> (r: Result<(Duration, usize), Failure>)
    requires
        i <= s@.len(),
    ensures
        agrees(r, spec_duration(s@.skip(i as int))),
        r matches Ok((d, k)) ==> i + k <= s@.len() && d.wf(),
{
    let ghost t = s@.skip(i as int);
    let len = s.len();
    let kw = vec!['d', 'u', 'r', 'a', 't', 'i', 'o', 'n'];
    let k: usize = if crate::scan::starts_with_ci_at(s, i, &kw) {
        8
    } else {
        0
    };
    if !(i + k < len && s[i + k] == '\'') {
        return Err(Failure::NoMatch);
    }
    let b = i + k + 1;
    assert(t.skip(k + 1) == s@.skip(b as int));
    let u = suffix_of(s, b);
    let d = match duration_body_at(&u) {
        Some(d) => d,
        None => return Err(Failure::NoMatch),
    };
    let ghost parts = duration_parts(u@, layout_view(d));
    let days = component_value(&u, d.days.0, d.days.1);
    let hours = component_value(&u, d.hours.0, d.hours.1);
    let minutes = component_value(&u, d.minutes.0, d.minutes.1);
    let secs = component_value(&u, d.seconds.0, d.seconds.1);
    let (dv, hv, mv, sv) = match (days, hours, minutes, secs) {
        (Some(dv), Some(hv), Some(mv), Some(sv)) => (dv, hv, mv, sv),
        _ => {
            assert(total_seconds(parts) > i64::MAX);
            return Err(Failure::Invalid);
        },
    };
    let total: u128 = (dv as u128) * 86400 + (hv as u128) * 3600 + (mv as u128) * 60 + (sv as u128);
    assert(total as int == total_seconds(parts));
    if total > 9223372036854775807 {
        return Err(Failure::Invalid);
    }
    let nanos: u32 = if d.fraction.1 > 0 {
        proof {
            crate::scan::lemma_run_is_digits(u@, d.fraction.0 as int, d.fraction.1 as int);
        }
        fraction_nanos_at(&u, d.fraction.0, d.fraction.1)
    } else {
        0
    };
    let dur = if d.negative {
        Duration { seconds: -(total as i64), nanoseconds: -(nanos as i32) }
    } else {
        Duration { seconds: total as i64, nanoseconds: nanos as i32 }
    };
    Ok((dur, k + 1 + d.end + 1))
}

pub fn parse_year(inp: &str) -> (r: IResult<'_, i32>)
    ensures
        reports(inp@, r, spec_year(inp@)),
{
    let s = chars_of(inp);
    assert(s@.skip(0) =~= s@);
    let step = year_at(&s, 0);
    finish(inp, &s, step, Ghost(spec_year(inp@)))
}

pub fn n_digits_between(inp: &str, n_digits: usize, min: u8, max: u8) -> (r: IResult<'_, u8>)
    ensures
        reports(inp@, r, spec_n_digits_between(inp@, n_digits as int, min, max)),
{
    let s = chars_of(inp);
    assert(s@.skip(0) =~= s@);
    let step = n_digits_between_at(&s, 0, n_digits, min, max);
    finish(inp, &s, step, Ghost(spec_n_digits_between(inp@, n_digits as int, min, max)))
}

pub fn parse_month(inp: &str) -> (r: IResult<'_, u8>)
    ensures
        reports(inp@, r, spec_month(inp@)),
{
    n_digits_between(inp, 2, 1, 12)
}

pub fn parse_day(inp: &str) -> (r: IResult<'_, u8>)
    ensures
        reports(inp@, r, spec_day(inp@)),
{
    n_digits_between(inp, 2, 1, 31)
}

pub fn parse_hour(inp: &str) -> (r: IResult<'_, u8>)
    ensures
        reports(inp@, r, spec_hour(inp@)),
{
    n_digits_between(inp, 2, 0, 24)
}

pub fn parse_minute(inp: &str) -> (r: IResult<'_, u8>)
    ensures
        reports(inp@, r, spec_minute(inp@)),
{
    n_digits_between(inp, 2, 0, 59)
}

pub fn parse_date(inp: &str) -> (r: IResult<'_, Date>)
    ensures
        reports(inp@, r, spec_date(inp@)),
{
    let s = chars_of(inp);
    assert(s@.skip(0) =~= s@);
    let step = date_at(&s, 0);
    finish(inp, &s, step, Ghost(spec_date(inp@)))
}

pub fn parse_fractional_seconds(inp: &str) -> (r: IResult<'_, u32>)
    ensures
        reports(inp@, r, spec_fractional_seconds(inp@)),
{
    let s = chars_of(inp);
    assert(s@.skip(0) =~= s@);
    let step = fractional_seconds_at(&s, 0);
    finish(inp, &s, step, Ghost(spec_fractional_seconds(inp@)))
}

pub fn parse_second(inp: &str) -> (r: IResult<'_, (u8, u32)>)
    ensures
        reports(inp@, r, spec_second(inp@)),
{
    let s = chars_of(inp);
    assert(s@.skip(0) =~= s@);
    let step = second_at(&s, 0);
    finish(inp, &s, step, Ghost(spec_second(inp@)))
}

pub fn parse_time(inp: &str) -> (r: IResult<'_, Time>)
    ensures
        reports(inp@, r, spec_time(inp@)),
{
    let s = chars_of(inp);
    assert(s@.skip(0) =~= s@);
    let step = time_at(&s, 0);
    finish(inp, &s, step, Ghost(spec_time(inp@)))
}

pub fn parse_tzoffset(inp: &str) -> (r: IResult<'_, i16>)
    ensures
        reports(inp@, r, spec_tzoffset(inp@)),
{
    let s = chars_of(inp);
    assert(s@.skip(0) =~= s@);
    let step = tzoffset_at(&s, 0);
    finish(inp, &s, step, Ghost(spec_tzoffset(inp@)))
}

pub fn parse_datetime(inp: &str) -> (r: IResult<'_, DateTimeOffset>)
    ensures
        reports(inp@, r, spec_datetime(inp@)),
{
    let s = chars_of(inp);
    assert(s@.skip(0) =~= s@);
    let step = datetime_at(&s, 0);
    finish(inp, &s, step, Ghost(spec_datetime(inp@)))
}

pub fn parse_duration(inp: &str) -> (r: IResult<'_, Duration>)
    ensures
        reports(inp@, r, spec_duration(inp@)),
        r matches Ok((_, d)) ==> d.wf(),
{
    let s = chars_of(inp);
    assert(s@.skip(0) =~= s@);
    let step = duration_at(&s, 0);
    finish(inp, &s, step, Ghost(spec_duration(inp@)))
}

} // verus!
