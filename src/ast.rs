//! The values that parsing produces, their mathematical views, and parse errors.

use vstd::prelude::*;

verus! {

/// A calendar date; the year may be negative.
#[derive(Debug, Clone, Copy, PartialEq, Eq, Structural)]
pub struct Date {
    pub year: i32,
    pub month: u8,
    pub day: u8,
}

/// A time of day at nanosecond resolution; the hour runs from 0 to 24.
#[derive(Debug, Clone, Copy, PartialEq, Eq, Structural)]
pub struct Time {
    pub hour: u8,
    pub minute: u8,
    pub second: u8,
    pub nanosecond: u32,
}

/// A date and a time at a signed offset from UTC, in minutes.
#[derive(Debug, Clone, Copy, PartialEq, Eq, Structural)]
pub struct DateTimeOffset {
    pub date: Date,
    pub time: Time,
    pub offset_minutes: i16,
}

/// A signed span of time: whole seconds plus nanoseconds of the same sign.
#[derive(Debug, Clone, Copy, PartialEq, Eq, Structural)]
pub struct Duration {
    pub seconds: i64,
    pub nanoseconds: i32,
}

impl Duration {
    /// Seconds and nanoseconds agree in sign and the nanoseconds stay under one second.
    pub open spec fn wf(self) -> bool {
        &&& -1_000_000_000 < self.nanoseconds < 1_000_000_000
        &&& self.seconds > 0 ==> self.nanoseconds >= 0
        &&& self.seconds < 0 ==> self.nanoseconds <= 0
    }
}

/// A floating-point literal, kept as written: the decimal text, or one of the special tokens.
#[derive(Debug, Clone, PartialEq)]
pub enum FloatLiteral {
    Decimal(String),
    NaN,
    Infinity,
    NegInfinity,
}

pub ghost enum FloatView {
    Decimal(Seq<char>),
    NaN,
    Infinity,
    NegInfinity,
}

impl View for FloatLiteral {
    type V = FloatView;

    open spec fn view(&self) -> FloatView {
        match self {
            FloatLiteral::Decimal(s) => FloatView::Decimal(s@),
            FloatLiteral::NaN => FloatView::NaN,
            FloatLiteral::Infinity => FloatView::Infinity,
            FloatLiteral::NegInfinity => FloatView::NegInfinity,
        }
    }
}

/// A primitive literal.
#[derive(Debug, Clone, PartialEq)]
pub enum Literal {
    Null,
    Boolean(bool),
    Date(Date),
    DateTimeOffset(DateTimeOffset),
    Time(Time),
    /// decimal, double, single
    Float(FloatLiteral),
    GUID(String),
    /// sbyte, byte, int16, int32, int64
    Integer(i64),
    String(String),
    Duration(Duration),
    Binary(Vec<u8>),
}

pub ghost enum LiteralView {
    Null,
    Boolean(bool),
    Date(Date),
    DateTimeOffset(DateTimeOffset),
    Time(Time),
    Float(FloatView),
    GUID(Seq<char>),
    Integer(i64),
    String(Seq<char>),
    Duration(Duration),
    Binary(Seq<u8>),
}

impl View for Literal {
    type V = LiteralView;

    open spec fn view(&self) -> LiteralView {
        match self {
            Literal::Null => LiteralView::Null,
            Literal::Boolean(b) => LiteralView::Boolean(*b),
            Literal::Date(d) => LiteralView::Date(*d),
            Literal::DateTimeOffset(d) => LiteralView::DateTimeOffset(*d),
            Literal::Time(t) => LiteralView::Time(*t),
            Literal::Float(f) => LiteralView::Float(f@),
            Literal::GUID(g) => LiteralView::GUID(g@),
            Literal::Integer(i) => LiteralView::Integer(*i),
            Literal::String(s) => LiteralView::String(s@),
            Literal::Duration(d) => LiteralView::Duration(*d),
            Literal::Binary(b) => LiteralView::Binary(b@),
        }
    }
}

/// An identifier, or a dotted path of two or more identifiers.
#[derive(Debug, Clone, PartialEq)]
pub enum Name {
    Identifier(String),
    Qualified(Vec<String>),
}

pub ghost enum NameView {
    Identifier(Seq<char>),
    Qualified(Seq<Seq<char>>),
}

impl View for Name {
    type V = NameView;

    open spec fn view(&self) -> NameView {
        match self {
            Name::Identifier(s) => NameView::Identifier(s@),
            Name::Qualified(v) => NameView::Qualified(v@.map_values(|p: String| p@)),
        }
    }
}

#[derive(Debug, Clone, PartialEq)]
pub enum CommonExpr {
    Literal(Literal),
    Name(Name),
}

pub ghost enum CommonExprView {
    Literal(LiteralView),
    Name(NameView),
}

impl View for CommonExpr {
    type V = CommonExprView;

    open spec fn view(&self) -> CommonExprView {
        match self {
            CommonExpr::Literal(l) => CommonExprView::Literal(l@),
            CommonExpr::Name(n) => CommonExprView::Name(n@),
        }
    }
}

/// Why a parse failed.
#[derive(Debug, Clone, Copy, PartialEq, Eq, Structural)]
pub enum ErrorKind {
    /// The input matches none of the alternatives.
    Syntax,
    /// A prefix matched, but characters are left over.
    TrailingInput,
    /// The input is well formed but its value is out of range.
    Domain,
}

/// A parse error: its kind and the character offset it refers to.
#[derive(Debug, Clone, Copy, PartialEq, Eq, Structural)]
pub struct ParseError {
    pub kind: ErrorKind,
    pub offset: usize,
}

/// How a single parser step fails: the input does not have its shape, or
/// it has the shape but an out-of-range value.
#[derive(Debug, Clone, Copy, PartialEq, Eq, Structural)]
pub enum Failure {
    NoMatch,
    Invalid,
}

/// The result of a parser on a remaining input: the value and the rest of the input.
pub type IResult<'a, T> = Result<(&'a str, T), ParseError>;

/// The error that a top-level parser reports for a failure of a step.
pub open spec fn error_of(f: Failure) -> ParseError {
    match f {
        Failure::NoMatch => ParseError { kind: ErrorKind::Syntax, offset: 0 },
        Failure::Invalid => ParseError { kind: ErrorKind::Domain, offset: 0 },
    }
}

/// `r` is what a parser reports on input `inp` whose meaning is `sp`
/// (the value and the number of characters consumed, or the failure).
pub open spec fn reports<T: View>(
    inp: Seq<char>,
    r: Result<(&str, T), ParseError>,
    sp: Result<(T::V, int), Failure>,
) -> bool {
    match sp {
        Ok((v, n)) => r matches Ok((rest, x)) && x@ == v && rest@ == inp.skip(n),
        Err(f) => r == Err::<(&str, T), ParseError>(error_of(f)),
    }
}

/// An internal step result `r` agrees with its meaning `sp`.
pub open spec fn agrees<T: View>(r: Result<(T, usize), Failure>, sp: Result<(T::V, int), Failure>) -> bool {
    match r {
        Ok((x, n)) => sp == Ok::<(T::V, int), Failure>((x@, n as int)),
        Err(f) => sp == Err::<(T::V, int), Failure>(f),
    }
}

impl View for Date {
    type V = Date;

    open spec fn view(&self) -> Date {
        *self
    }
}

impl View for Time {
    type V = Time;

    open spec fn view(&self) -> Time {
        *self
    }
}

impl View for DateTimeOffset {
    type V = DateTimeOffset;

    open spec fn view(&self) -> DateTimeOffset {
        *self
    }
}

impl View for Duration {
    type V = Duration;

    open spec fn view(&self) -> Duration {
        *self
    }
}

} // verus!
