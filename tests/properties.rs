use base64::Engine;
use odata_literal::expr::parse_token;
use odata_literal::literal::{parse_binary, parse_literal, parse_string};
use odata_literal::scan::keyword_ignore_ascii_case;
use odata_literal::name::{_is_odata_id, _is_odata_id_leading, parse_identifier, parse_optionally_qualified};
use odata_literal::temporal::{
    n_digits_between, parse_date, parse_day, parse_duration, parse_fractional_seconds, parse_hour, parse_minute,
    parse_month, parse_second, parse_time, parse_tzoffset, parse_year,
};
use odata_literal::{CommonExpr, Date, Duration, ErrorKind, FloatLiteral, Literal, Name, ParseError, Time};

fn whole(inp: &str) -> Literal {
    match parse_token(inp) {
        Ok(CommonExpr::Literal(l)) => l,
        other => panic!("{inp}: {other:?}"),
    }
}

fn error_kind(inp: &str) -> ErrorKind {
    match parse_token(inp) {
        Err(e) => e.kind,
        Ok(v) => panic!("{inp}: parsed as {v:?}"),
    }
}

#[test]
fn quoted_strings_unescape_doubled_quotes() {
    assert_eq!(whole("'g''day sir'"), Literal::String("g'day sir".to_string()));
    assert_eq!(whole("''"), Literal::String(String::new()));
    assert_eq!(parse_string("'a''''b' rest"), Ok((" rest", "a''b".to_string())));
    assert_eq!(parse_string("'open").unwrap_err().kind, ErrorKind::Syntax);
}

#[test]
fn integers_at_the_edge_of_i64() {
    assert_eq!(whole("9223372036854775807"), Literal::Integer(i64::MAX));
    assert_eq!(whole("-9223372036854775808"), Literal::Integer(i64::MIN));
    assert_eq!(error_kind("9223372036854775808"), ErrorKind::Domain);
    assert_eq!(error_kind("-9223372036854775809"), ErrorKind::Domain);
}

#[test]
fn integers_and_floats_stay_apart() {
    assert_eq!(whole("123"), Literal::Integer(123));
    assert_eq!(whole("123.0"), Literal::Float(FloatLiteral::Decimal("123.0".to_string())));
    assert_eq!(whole("1e5"), Literal::Float(FloatLiteral::Decimal("1e5".to_string())));
    assert_eq!(whole("1."), Literal::Float(FloatLiteral::Decimal("1.".to_string())));
}

#[test]
fn leap_days_follow_the_calendar() {
    assert_eq!(error_kind("2023-02-29"), ErrorKind::Domain);
    assert_eq!(whole("2024-02-29"), Literal::Date(Date { year: 2024, month: 2, day: 29 }));
    assert_eq!(error_kind("1900-02-29"), ErrorKind::Domain);
    assert_eq!(whole("2000-02-29"), Literal::Date(Date { year: 2000, month: 2, day: 29 }));
    assert_eq!(error_kind("2023-04-31"), ErrorKind::Domain);
    assert_eq!(error_kind("2023-13-01"), ErrorKind::Domain);
    assert_eq!(error_kind("2023-00-01"), ErrorKind::Domain);
}

#[test]
fn negative_years() {
    assert_eq!(whole("-0001-01-01"), Literal::Date(Date { year: -1, month: 1, day: 1 }));
    assert_eq!(parse_year("-0001"), Ok(("", -1)));
    assert_eq!(parse_year("2023-"), Ok(("-", 2023)));
}

#[test]
fn durations_with_and_without_keyword() {
    let day = Literal::Duration(Duration { seconds: 86400, nanoseconds: 0 });
    assert_eq!(whole("duration'P1D'"), day);
    assert_eq!(whole("'P1D'"), day);
    assert_eq!(whole("DURATION'p1d'"), day);
    assert_eq!(whole("duration'-P1D'"), Literal::Duration(Duration { seconds: -86400, nanoseconds: 0 }));
    assert_eq!(whole("duration'PT1.2S'"), Literal::Duration(Duration { seconds: 1, nanoseconds: 200_000_000 }));
    assert_eq!(
        whole("duration'-PT1.5S'"),
        Literal::Duration(Duration { seconds: -1, nanoseconds: -500_000_000 })
    );
    assert_eq!(whole("'P'"), Literal::Duration(Duration { seconds: 0, nanoseconds: 0 }));
    assert_eq!(error_kind("duration'P999999999999999999999D'"), ErrorKind::Domain);
    assert_eq!(parse_duration("'P1X'").unwrap_err().kind, ErrorKind::Syntax);
    assert_eq!(whole("'P1X'"), Literal::String("P1X".to_string()));
}

#[test]
fn binary_padding_is_optional() {
    for data in [&b""[..], b"a", b"ab", b"abc", b"\xff\xfe\xfd\xfc"] {
        let padded = base64::engine::general_purpose::URL_SAFE.encode(data);
        let bare = base64::engine::general_purpose::URL_SAFE_NO_PAD.encode(data);
        assert_eq!(whole(&format!("binary'{padded}'")), Literal::Binary(data.to_vec()));
        assert_eq!(whole(&format!("binary'{bare}'")), Literal::Binary(data.to_vec()));
    }
}

#[test]
fn binary_decodes_through_base64() {
    assert_eq!(parse_binary("BINARY'SGk'"), Ok(("", b"Hi".to_vec())));
    assert_eq!(parse_binary("binary'A'").unwrap_err().kind, ErrorKind::Domain);
    assert_eq!(error_kind("binary'A'"), ErrorKind::Domain);
}

#[test]
fn dotted_names() {
    match parse_token("a.b.c") {
        Ok(CommonExpr::Name(n)) => {
            assert_eq!(n, Name::Qualified(vec!["a".to_string(), "b".to_string(), "c".to_string()]))
        }
        other => panic!("{other:?}"),
    }
    assert_eq!(parse_token("a"), Ok(CommonExpr::Name(Name::Identifier("a".to_string()))));
    assert_eq!(parse_optionally_qualified("a.b."), Ok((".", vec!["a".to_string(), "b".to_string()])));
    assert_eq!(parse_identifier("x1_y.z"), Ok((".z", "x1_y".to_string())));
    assert_eq!(parse_identifier("1x").unwrap_err().kind, ErrorKind::Syntax);
    assert_eq!(parse_identifier("été"), Ok(("", "été".to_string())));
}

#[test]
fn identifier_character_classes() {
    assert!(_is_odata_id_leading('a'));
    assert!(_is_odata_id_leading('_'));
    assert!(_is_odata_id_leading('é'));
    assert!(!_is_odata_id_leading('1'));
    assert!(_is_odata_id('1'));
    assert!(!_is_odata_id('.'));
    assert!(!_is_odata_id('-'));
}

#[test]
fn fraction_digits_are_truncated() {
    assert_eq!(
        whole("01:02:03.000000001234"),
        Literal::Time(Time { hour: 1, minute: 2, second: 3, nanosecond: 1 })
    );
    assert_eq!(
        whole("01:02:03.999999999999"),
        Literal::Time(Time { hour: 1, minute: 2, second: 3, nanosecond: 999_999_999 })
    );
    assert_eq!(parse_fractional_seconds("5"), Ok(("", 500_000_000)));
    assert_eq!(parse_fractional_seconds("1234567890123"), Ok(("3", 123_456_789)));
}

#[test]
fn time_components() {
    assert_eq!(whole("24:00"), Literal::Time(Time { hour: 24, minute: 0, second: 0, nanosecond: 0 }));
    assert_eq!(error_kind("25:00"), ErrorKind::Domain);
    assert_eq!(error_kind("12:60"), ErrorKind::Domain);
    assert_eq!(error_kind("12:30:60"), ErrorKind::Domain);
    assert_eq!(parse_hour("24"), Ok(("", 24)));
    assert_eq!(parse_minute("59"), Ok(("", 59)));
    assert_eq!(parse_month("12"), Ok(("", 12)));
    assert_eq!(parse_day("31"), Ok(("", 31)));
    assert_eq!(parse_day("32").unwrap_err().kind, ErrorKind::Domain);
    assert_eq!(parse_day("3").unwrap_err().kind, ErrorKind::Syntax);
    assert_eq!(n_digits_between("0071", 3, 5, 9), Ok(("1", 7)));
    assert_eq!(parse_second("07.25x"), Ok(("x", (7, 250_000_000))));
    assert_eq!(parse_second("07."), Ok((".", (7, 0))));
    assert_eq!(parse_time("10:20:30"), Ok(("", Time { hour: 10, minute: 20, second: 30, nanosecond: 0 })));
    assert_eq!(parse_date("2023-01-02x"), Ok(("x", Date { year: 2023, month: 1, day: 2 })));
}

#[test]
fn offsets() {
    assert_eq!(parse_tzoffset("z"), Ok(("", 0)));
    assert_eq!(parse_tzoffset("-02:30"), Ok(("", -150)));
    assert_eq!(parse_tzoffset("+24:59"), Ok(("", 1499)));
    assert_eq!(parse_tzoffset("+01:60").unwrap_err().kind, ErrorKind::Domain);
    match whole("2023-01-01t10:00-02:30") {
        Literal::DateTimeOffset(d) => assert_eq!(d.offset_minutes, -150),
        other => panic!("{other:?}"),
    }
}

#[test]
fn error_kinds_and_offsets() {
    assert_eq!(parse_token(""), Err(ParseError { kind: ErrorKind::Syntax, offset: 0 }));
    assert_eq!(parse_token("@"), Err(ParseError { kind: ErrorKind::Syntax, offset: 0 }));
    assert_eq!(parse_token("123abc"), Err(ParseError { kind: ErrorKind::TrailingInput, offset: 3 }));
    assert_eq!(parse_token("nullable"), Err(ParseError { kind: ErrorKind::TrailingInput, offset: 4 }));
    assert_eq!(parse_literal("42 rest"), Ok((" rest", Literal::Integer(42))));
}

#[test]
fn special_floats_are_case_sensitive() {
    assert_eq!(whole("NaN"), Literal::Float(FloatLiteral::NaN));
    assert_eq!(whole("-INF"), Literal::Float(FloatLiteral::NegInfinity));
    assert!(parse_token("nan").is_ok());
    assert_eq!(parse_token("nan"), Ok(CommonExpr::Name(Name::Identifier("nan".to_string()))));
    assert_eq!(error_kind("+INF"), ErrorKind::Syntax);
}

#[test]
fn canonical_texts_read_back() {
    assert_eq!(whole("null"), Literal::Null);
    assert_eq!(whole("false"), Literal::Boolean(false));
    assert_eq!(whole("-42"), Literal::Integer(-42));
    assert_eq!(whole("'it''s'"), Literal::String("it's".to_string()));
    assert_eq!(whole("-12.5"), Literal::Float(FloatLiteral::Decimal("-12.5".to_string())));
    assert_eq!(whole("INF"), Literal::Float(FloatLiteral::Infinity));
    assert_eq!(whole("-0044-03-01"), Literal::Date(Date { year: -44, month: 3, day: 1 }));
    assert_eq!(
        whole("23:59:58.000000007"),
        Literal::Time(Time { hour: 23, minute: 59, second: 58, nanosecond: 7 })
    );
    match whole("2023-06-15T12:34:56.000000007-05:30") {
        Literal::DateTimeOffset(d) => {
            assert_eq!(d.date, Date { year: 2023, month: 6, day: 15 });
            assert_eq!(d.time, Time { hour: 12, minute: 34, second: 56, nanosecond: 7 });
            assert_eq!(d.offset_minutes, -330);
        }
        other => panic!("{other:?}"),
    }
    assert_eq!(
        whole("duration'-PT3.000000500S'"),
        Literal::Duration(Duration { seconds: -3, nanoseconds: -500 })
    );
    assert_eq!(
        whole("duration'PT9223372036854775807.999999999S'"),
        Literal::Duration(Duration { seconds: i64::MAX, nanoseconds: 999_999_999 })
    );
    assert_eq!(whole("AbCdEf01-2345-6789-abcd-ef0123456789"), Literal::GUID("AbCdEf01-2345-6789-abcd-ef0123456789".to_string()));
}

#[test]
fn keyword_matches_whole_identifiers_only() {
    assert_eq!(keyword_ignore_ascii_case("DURATION'P1D'", "duration"), Ok(("'P1D'", ())));
    assert_eq!(keyword_ignore_ascii_case("durations", "duration").unwrap_err().kind, ErrorKind::Syntax);
    assert_eq!(keyword_ignore_ascii_case("1duration", "duration").unwrap_err().kind, ErrorKind::Syntax);
}

#[test]
fn quoted_duration_text_is_a_duration_not_a_string() {
    assert_eq!(whole("'PT1H'"), Literal::Duration(Duration { seconds: 3600, nanoseconds: 0 }));
    assert_eq!(whole("'PT1H x'"), Literal::String("PT1H x".to_string()));
}

#[test]
fn entry_point_rejects_leftover_input() {
    assert_eq!(
        odata_literal::expr::parse("1 x"),
        Err(ParseError { kind: ErrorKind::TrailingInput, offset: 1 })
    );
    assert_eq!(odata_literal::expr::parse("2023-02-29").unwrap_err().kind, ErrorKind::Domain);
    assert_eq!(
        odata_literal::expr::parse("a.b"),
        Ok(("", CommonExpr::Name(Name::Qualified(vec!["a".to_string(), "b".to_string()]))))
    );
    assert_eq!(odata_literal::expr::parse("@").unwrap_err().kind, ErrorKind::Syntax);
}

#[test]
fn malformed_guid_grouping_is_a_domain_error() {
    assert_eq!(error_kind("d13efbec-aa20-47f4-8756-c38852488b6"), ErrorKind::Domain);
    assert_eq!(error_kind("d13efbec-aa20-47f4x8756-c38852488b6e"), ErrorKind::Domain);
    assert_eq!(error_kind("d13efbec-aa2"), ErrorKind::TrailingInput);
    assert_eq!(whole("1234567e-5"), Literal::Float(FloatLiteral::Decimal("1234567e-5".to_string())));
}
