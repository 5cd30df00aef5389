//! Parsing of OData primitive literals and (qualified) names into typed values.

pub mod ast;
pub mod expr;
pub mod laws;
pub mod literal;
pub mod name;
pub mod scan;
pub mod temporal;

pub use ast::{CommonExpr, Date, DateTimeOffset, Duration, ErrorKind, FloatLiteral, Literal, Name, ParseError, Time};
