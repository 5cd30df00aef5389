use base64::Engine;
use odata_literal::expr;
use odata_literal::literal;
use odata_literal::name;
use odata_literal::{Date, DateTimeOffset, Duration, FloatLiteral, Literal, Name, ParseError, Time};

fn assert_parsed_to<T: std::fmt::Debug + PartialEq>(result: Result<(&str, T), ParseError>, exp: T) {
    assert!(result.is_ok(), "{:?}", result);
    match result {
        Ok((rest, node)) => {
            assert!(rest.is_empty(), "Unparsed input: {rest}");
            assert_eq!(node, exp);
        }
        _ => panic!("Shouldn't occur"),
    }
}

fn float_value(f: &FloatLiteral) -> f64 {
    match f {
        FloatLiteral::Decimal(text) => text.parse::<f64>().unwrap(),
        FloatLiteral::NaN => f64::NAN,
        FloatLiteral::Infinity => f64::INFINITY,
        FloatLiteral::NegInfinity => f64::NEG_INFINITY,
    }
}

fn assert_float(inp: &str, exp: f64) {
    match literal::parse_literal(inp) {
        Ok(("", Literal::Float(f))) => assert_eq!(float_value(&f), exp),
        other => panic!("{inp}: {other:?}"),
    }
}

fn date(year: i32, month: u8, day: u8) -> Date {
    Date { year, month, day }
}

fn time(hour: u8, minute: u8, second: u8, nanosecond: u32) -> Time {
    Time { hour, minute, second, nanosecond }
}

fn check_null() {
    assert_parsed_to(literal::parse_literal("null"), Literal::Null);
}

fn check_boolean() {
    assert_parsed_to(literal::parse_literal("true"), Literal::Boolean(true));
    assert_parsed_to(literal::parse_literal("True"), Literal::Boolean(true));
    assert_parsed_to(literal::parse_literal("false"), Literal::Boolean(false));
    assert_parsed_to(literal::parse_literal("False"), Literal::Boolean(false));
}

fn check_integer() {
    assert_parsed_to(literal::parse_literal("0"), Literal::Integer(0));
    assert_parsed_to(literal::parse_literal("123456789"), Literal::Integer(123456789));
    assert_parsed_to(literal::parse_literal("+123456789"), Literal::Integer(123456789));
    assert_parsed_to(literal::parse_literal("-123456789"), Literal::Integer(-123456789));
}

fn check_float() {
    assert_float("0.1", 0.1);
    assert_float("-0.1", -0.1);
    assert_float("1e10", 1e10);
    assert_float("-1e10", -1e10);
    assert_float("1e-10", 1e-10);
    assert_float("1E-10", 1e-10);
    assert_float("123.456e10", 123.456e10);
    assert_parsed_to(literal::parse_literal("INF"), Literal::Float(FloatLiteral::Infinity));
    assert_parsed_to(literal::parse_literal("-INF"), Literal::Float(FloatLiteral::NegInfinity));
    assert_float("INF", f64::INFINITY);
    assert_float("-INF", f64::NEG_INFINITY);

    // NaN never tests equal:
    match literal::parse_literal("NaN") {
        Ok(("", Literal::Float(nan))) => assert!(float_value(&nan).is_nan()),
        _ => assert!(false),
    };
}

fn check_string() {
    assert_parsed_to(literal::parse_literal("'hello world'"), Literal::String("hello world".to_string()));
    assert_parsed_to(literal::parse_literal("''"), Literal::String("".to_string()));
    assert_parsed_to(literal::parse_literal("'g''day sir'"), Literal::String("g'day sir".to_string()));
}

#[test]
fn parser_parse_null() {
    check_null();
}

#[test]
fn parser_parse_boolean() {
    check_boolean();
}

#[test]
fn parser_parse_integer() {
    check_integer();
}

#[test]
fn parser_parse_float() {
    check_float();
}

#[test]
fn parser_parse_string() {
    check_string();
}

#[test]
fn literal_parse_null() {
    check_null();
}

#[test]
fn literal_parse_boolean() {
    check_boolean();
}

#[test]
fn literal_parse_integer() {
    check_integer();
}

#[test]
fn literal_parse_float() {
    check_float();
}

#[test]
fn literal_parse_string() {
    check_string();
}

#[test]
fn identifier_parse_identifier() {
    assert_parsed_to(name::parse_name("variable"), Name::Identifier("variable".to_string()));
}

#[test]
fn name_parse_identifier() {
    assert_parsed_to(name::parse_name("variable"), Name::Identifier("variable".to_string()));
    assert_parsed_to(name::parse_name("_var123"), Name::Identifier("_var123".to_string()));
}

#[test]
fn parse_qualified() {
    assert_parsed_to(
        name::parse_name("my.var"),
        Name::Qualified(vec!["my".to_string(), "var".to_string()]),
    );
}

#[test]
fn parse_guid() {
    let guid = "d13efbec-aa20-47f4-8756-c38852488b6e";
    assert_parsed_to(literal::parse_literal(&guid), Literal::GUID(guid.to_string()));
    assert_parsed_to(
        literal::parse_literal(&guid.to_ascii_uppercase()),
        Literal::GUID(guid.to_ascii_uppercase()),
    );
}

#[test]
fn parse_date() {
    assert_parsed_to(literal::parse_literal("2023-01-01"), Literal::Date(date(2023, 1, 1)));
    assert_parsed_to(literal::parse_literal("-0001-01-01"), Literal::Date(date(-1, 1, 1)));
}

#[test]
fn parse_time() {
    assert_parsed_to(literal::parse_literal("01:02"), Literal::Time(time(1, 2, 0, 0)));
    assert_parsed_to(literal::parse_literal("01:02:03"), Literal::Time(time(1, 2, 3, 0)));
    assert_parsed_to(literal::parse_literal("01:02:03.1"), Literal::Time(time(1, 2, 3, 100_000_000)));
    assert_parsed_to(literal::parse_literal("01:02:03.000000001"), Literal::Time(time(1, 2, 3, 1)));
    assert_parsed_to(literal::parse_literal("01:02:03.000000001234"), Literal::Time(time(1, 2, 3, 1)));
}

#[test]
fn parse_datetime() {
    let jan1 = date(2023, 1, 1);
    assert_parsed_to(
        literal::parse_literal("2023-01-01T00:00"),
        Literal::DateTimeOffset(DateTimeOffset { date: jan1, time: time(0, 0, 0, 0), offset_minutes: 0 }),
    );
    assert_parsed_to(
        literal::parse_literal("2023-01-01T00:00:01.1"),
        Literal::DateTimeOffset(DateTimeOffset { date: jan1, time: time(0, 0, 1, 100_000_000), offset_minutes: 0 }),
    );
    assert_parsed_to(
        literal::parse_literal("2023-01-01T00:00Z"),
        Literal::DateTimeOffset(DateTimeOffset { date: jan1, time: time(0, 0, 0, 0), offset_minutes: 0 }),
    );
    assert_parsed_to(
        literal::parse_literal("2023-01-01T00:00+02:00"),
        Literal::DateTimeOffset(DateTimeOffset { date: jan1, time: time(0, 0, 0, 0), offset_minutes: 120 }),
    );
}

fn seconds(seconds: i64, nanoseconds: i32) -> Literal {
    Literal::Duration(Duration { seconds, nanoseconds })
}

#[test]
fn parse_duration() {
    assert_parsed_to(literal::parse_literal("duration'P1D'"), seconds(86400, 0));
    assert_parsed_to(literal::parse_literal("duration'PT1H'"), seconds(3600, 0));
    assert_parsed_to(literal::parse_literal("duration'PT1M'"), seconds(60, 0));
    assert_parsed_to(literal::parse_literal("duration'PT1S'"), seconds(1, 0));
    assert_parsed_to(literal::parse_literal("duration'PT1.2S'"), seconds(1, 200_000_000));
    assert_parsed_to(
        literal::parse_literal("duration'P1DT2H3M4.5S'"),
        seconds(86400 + 2 * 3600 + 3 * 60 + 4, 500_000_000),
    );
    assert_parsed_to(literal::parse_literal("duration'-P1D'"), seconds(-86400, 0));
    assert_parsed_to(literal::parse_literal("'P1D'"), seconds(86400, 0));
    assert_parsed_to(literal::parse_literal("'-P1D'"), seconds(-86400, 0));
}

#[test]
fn parse_binary() {
    let data = b"Definitely not a virus";

    let data_padded = base64::engine::general_purpose::URL_SAFE.encode(data);
    assert_parsed_to(
        literal::parse_literal(&format!("binary'{data_padded}'")),
        Literal::Binary(data.to_vec()),
    );

    let data_not_padded = base64::engine::general_purpose::URL_SAFE_NO_PAD.encode(data);
    assert_parsed_to(
        literal::parse_literal(&format!("binary'{data_not_padded}'")),
        Literal::Binary(data.to_vec()),
    );
}

#[test]
fn token_entry_point_accepts_whole_tokens() {
    assert_eq!(expr::parse_token("42"), Ok(odata_literal::CommonExpr::Literal(Literal::Integer(42))));
    assert_eq!(
        expr::parse_token("a"),
        Ok(odata_literal::CommonExpr::Name(Name::Identifier("a".to_string())))
    );
}
