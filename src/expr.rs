//! The token parser: a literal or a name, and the entry point that wants the whole input.

use vstd::prelude::*;
use crate::ast::{
    agrees, error_of, CommonExpr, CommonExprView, ErrorKind, Failure, IResult, ParseError,
};
use crate::literal::{literal_at, spec_literal};
use crate::name::{name_at, spec_name};
use crate::scan::chars_of;

verus! {

/// A literal, or else a name.
pub open spec fn spec_expr(t: Seq<char>) -> Result<(CommonExprView, int), Failure> {
    match spec_literal(t) {
        Ok((l, n)) => Ok((CommonExprView::Literal(l), n)),
        Err(Failure::Invalid) => Err(Failure::Invalid),
        Err(Failure::NoMatch) => match spec_name(t) {
            Ok((nm, n)) => Ok((CommonExprView::Name(nm), n)),
            Err(f) => Err(f),
        },
    }
}

/// A whole token: what `spec_expr` finds, which must take up all of `t`.
pub open spec fn spec_token(t: Seq<char>) -> Result<CommonExprView, ParseError> {
    match spec_expr(t) {
        Ok((e, n)) => if n == t.len() {
            Ok(e)
        } else {
            Err(ParseError { kind: ErrorKind::TrailingInput, offset: n as usize })
        },
        Err(f) => Err(error_of(f)),
    }
}

pub fn expr_at(s: &Vec<char>, i: usize) -> (r: Result<(CommonExpr, usize), Failure>)
    requires
        i <= s@.len(),
    ensures
        agrees(r, spec_expr(s@.skip(i as int))),
        r matches Ok((_, n)) ==> i + n <= s@.len(),
{
    match literal_at(s, i) {
        Ok((l, n)) => Ok((CommonExpr::Literal(l), n)),
        Err(Failure::Invalid) => Err(Failure::Invalid),
        Err(Failure::NoMatch) => match name_at(s, i) {
            Ok((nm, n)) => Ok((CommonExpr::Name(nm), n)),
            Err(f) => Err(f),
        },
    }
}

/// Parses `odata_query` as one literal or name; characters left over are a trailing-input
/// error, so on success nothing remains.
pub fn parse(odata_query: &str) -> (r: IResult<'_, CommonExpr>)
    ensures
        r matches Ok((rest, e)) ==> rest@.len() == 0 && spec_token(odata_query@) == Ok::<CommonExprView, ParseError>(e@),
        r matches Err(x) ==> spec_token(odata_query@) == Err::<CommonExprView, ParseError>(x),
{
    let s = chars_of(odata_query);
    assert(s@.skip(0) =~= s@);
    match expr_at(&s, 0) {
        Ok((e, n)) => if n == s.len() {
            let rest = odata_query.substring_char(n, n);
            Ok((rest, e))
        } else {
            Err(ParseError { kind: ErrorKind::TrailingInput, offset: n })
        },
        Err(Failure::NoMatch) => Err(ParseError { kind: ErrorKind::Syntax, offset: 0 }),
        Err(Failure::Invalid) => Err(ParseError { kind: ErrorKind::Domain, offset: 0 }),
    }
}

/// Parses a whole token as a literal or a name; characters left over are an error.
pub fn parse_token(token: &str) -> (r: Result<CommonExpr, ParseError>)
    ensures
        match r {
            Ok(e) => spec_token(token@) == Ok::<CommonExprView, ParseError>(e@),
            Err(x) => spec_token(token@) == Err::<CommonExprView, ParseError>(x),
        },
{
    let s = chars_of(token);
    assert(s@.skip(0) =~= s@);
    match expr_at(&s, 0) {
        Ok((e, n)) => if n == s.len() {
            Ok(e)
        } else {
            Err(ParseError { kind: ErrorKind::TrailingInput, offset: n })
        },
        Err(Failure::NoMatch) => Err(ParseError { kind: ErrorKind::Syntax, offset: 0 }),
        Err(Failure::Invalid) => Err(ParseError { kind: ErrorKind::Domain, offset: 0 }),
    }
}

} // verus!
