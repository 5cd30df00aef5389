//! Parsers for identifiers and dot-separated qualified names.

use vstd::prelude::*;
use crate::ast::{agrees, reports, Failure, IResult, Name, NameView};
use crate::literal::finish;
use crate::scan::{chars_of, lemma_skip_skip, string_of_range};

verus! {

broadcast use lemma_skip_skip;

/// What `char::is_alphabetic` says of `c` (the Unicode `Alphabetic` property).
pub uninterp spec fn alphabetic(c: char) -> bool;

/// What `char::is_alphanumeric` says of `c` (Unicode `Alphabetic` or `Numeric`).
pub uninterp spec fn alphanumeric(c: char) -> bool;

/// Relies on char::is_alphabetic, whose answer depends on the character alone.
#[verifier::external_body]
fn char_is_alphabetic(c: char) -> (r: bool)
    ensures
        r == alphabetic(c),
{
    c.is_alphabetic()
}

/// Relies on char::is_alphanumeric, whose answer depends on the character alone and which
/// is documented as `is_alphabetic() || is_numeric()`, so it holds of every alphabetic character.
#[verifier::external_body]
fn char_is_alphanumeric(c: char) -> (r: bool)
    ensures
        r == alphanumeric(c),
        alphabetic(c) ==> r,
{
    c.is_alphanumeric()
}

pub open spec fn id_leading(c: char) -> bool {
    alphabetic(c) || c == '_'
}

pub open spec fn id_char(c: char) -> bool {
    alphanumeric(c) || c == '_'
}

/// Whether `inp` may start an identifier: a letter or `_`.
pub fn _is_odata_id_leading(inp: char) -> (r: bool)
    ensures
        r == id_leading(inp),
{
    char_is_alphabetic(inp) || inp == '_'
}

/// Whether `inp` may continue an identifier: a letter, a digit or `_`.
pub fn _is_odata_id(inp: char) -> (r: bool)
    ensures
        r == id_char(inp),
        id_leading(inp) ==> r,
{
    char_is_alphanumeric(inp) || inp == '_'
}

/// Length of the longest prefix of `t` made of identifier characters.
pub open spec fn id_run(t: Seq<char>) -> int
    decreases t.len(),
{
    if t.len() > 0 && id_char(t[0]) {
        1 + id_run(t.skip(1))
    } else {
        0
    }
}

/// Length of the identifier at the start of `t`: one leading character, then any number
/// of identifier characters; 0 when there is none.
pub open spec fn identifier_len(t: Seq<char>) -> int {
    if t.len() > 0 && id_leading(t[0]) {
        1 + id_run(t.skip(1))
    } else {
        0
    }
}

pub open spec fn spec_identifier(t: Seq<char>) -> Result<(Seq<char>, int), Failure> {
    let n = identifier_len(t);
    if n > 0 {
        Ok((t.take(n), n))
    } else {
        Err(Failure::NoMatch)
    }
}

/// The further segments of a dotted name from position `i` of `t`, each `.` and an
/// identifier, appended to `acc`; with the position after the last of them.
pub open spec fn segments_from(t: Seq<char>, i: int, acc: Seq<Seq<char>>) -> (Seq<Seq<char>>, int)
    decreases t.len() - i,
{
    let n = identifier_len(t.skip(i + 1));
    if 0 <= i < t.len() && t[i] == '.' && n > 0 && i + 1 + n <= t.len() {
        segments_from(t, i + 1 + n, acc.push(t.subrange(i + 1, i + 1 + n)))
    } else {
        (acc, i)
    }
}

/// One or more identifiers separated by `.`, taken greedily.
pub open spec fn spec_optionally_qualified(t: Seq<char>) -> Result<(Seq<Seq<char>>, int), Failure> {
    let n = identifier_len(t);
    if n > 0 {
        let (segs, e) = segments_from(t, n, seq![t.take(n)]);
        Ok((segs, e))
    } else {
        Err(Failure::NoMatch)
    }
}

/// A name: an identifier when there is one segment, a qualified name otherwise.
pub open spec fn spec_name(t: Seq<char>) -> Result<(NameView, int), Failure> {
    match spec_optionally_qualified(t) {
        Ok((segs, e)) => Ok((
            if segs.len() == 1 {
                NameView::Identifier(segs[0])
            } else {
                NameView::Qualified(segs)
            },
            e,
        )),
        Err(f) => Err(f),
    }
}

/// The length of the identifier at `s[i..]`.
fn identifier_len_at(s: &Vec<char>, i: usize) -> (n: usize)
    requires
        i <= s@.len(),
    ensures
        n as int == identifier_len(s@.skip(i as int)),
        i + n <= s@.len(),
{
    let len = s.len();
    if !(i < len && _is_odata_id_leading(s[i])) {
        return 0;
    }
    let mut j: usize = i + 1;
    while j < len && _is_odata_id(s[j])
        invariant
            len == s@.len(),
            i < j <= len,
            id_run(s@.skip(i + 1)) == (j - i - 1) + id_run(s@.skip(j as int)),
        decreases len - j,
    {
        assert(s@.skip(j as int).skip(1) == s@.skip(j + 1));
        j = j + 1;
    }
    assert(s@.skip(i as int).skip(1) == s@.skip(i + 1));
    j - i
}

pub fn identifier_at(s: &Vec<char>, i: usize) -> (r: Result<(String, usize), Failure>)
    requires
        i <= s@.len(),
    ensures
        agrees(r, spec_identifier(s@.skip(i as int))),
        r matches Ok((_, n)) ==> i + n <= s@.len(),
{
    let len = s.len();
    let n = identifier_len_at(s, i);
    if n == 0 {
        return Err(Failure::NoMatch);
    }
    let text = string_of_range(s, i, i + n);
    assert(text@ =~= s@.skip(i as int).take(n as int));
    Ok((text, n))
}

pub open spec fn views_of(v: Seq<String>) -> Seq<Seq<char>> {
    v.map_values(|p: String| p@)
}

#[verifier::rlimit(40)]
pub fn optionally_qualified_at(s: &Vec<char>, i: usize) -> (r: Result<(Vec<String>, usize), Failure>)
    requires
        i <= s@.len(),
    ensures
        match r {
            Ok((v, n)) => spec_optionally_qualified(s@.skip(i as int)) == Ok::<(Seq<Seq<char>>, int), Failure>(
                (views_of(v@), n as int),
            ) && i + n <= s@.len(),
            Err(f) => spec_optionally_qualified(s@.skip(i as int)) == Err::<(Seq<Seq<char>>, int), Failure>(f),
        },
{
    let ghost t = s@.skip(i as int);
    let len = s.len();
    let (first, n) = match identifier_at(s, i) {
        Ok(p) => p,
        Err(f) => return Err(f),
    };
    let mut parts: Vec<String> = Vec::new();
    parts.push(first);
    assert(views_of(parts@) =~= seq![t.take(n as int)]);
    let mut k: usize = i + n;
    while k < len && s[k] == '.'
        invariant
            len == s@.len(),
            i < k <= len,
            t == s@.skip(i as int),
            identifier_len(t) == n > 0,
            segments_from(t, n as int, seq![t.take(n as int)]) == segments_from(t, k - i, views_of(parts@)),
        decreases len - k,
    {
        let m = identifier_len_at(s, k + 1);
        assert(t.skip(k - i + 1) == s@.skip(k + 1));
        if m == 0 {
            assert(segments_from(t, k - i, views_of(parts@)) == (views_of(parts@), k - i));
            return Ok((parts, k - i));
        }
        let seg = string_of_range(s, k + 1, k + 1 + m);
        assert(seg@ =~= t.subrange(k - i + 1, k - i + 1 + m));
        let ghost before = parts@;
        parts.push(seg);
        assert(views_of(parts@) =~= views_of(before).push(seg@));
        k = k + 1 + m;
    }
    assert(segments_from(t, k - i, views_of(parts@)) == (views_of(parts@), k - i));
    Ok((parts, k - i))
}

pub fn name_at(s: &Vec<char>, i: usize) -> (r: Result<(Name, usize), Failure>)
    requires
        i <= s@.len(),
    ensures
        agrees(r, spec_name(s@.skip(i as int))),
        r matches Ok((_, n)) ==> i + n <= s@.len(),
{
    let (parts, n) = match optionally_qualified_at(s, i) {
        Ok(p) => p,
        Err(f) => return Err(f),
    };
    if parts.len() == 1 {
        let only = parts[0].clone();
        Ok((Name::Identifier(only), n))
    } else {
        let ghost v = parts@;
        let r = Name::Qualified(parts);
        assert(r@ == NameView::Qualified(views_of(v)));
        Ok((r, n))
    }
}

pub fn parse_identifier(inp: &str) -> (r: IResult<'_, String>)
    ensures
        reports(inp@, r, spec_identifier(inp@)),
{
    let s = chars_of(inp);
    assert(s@.skip(0) =~= s@);
    let step = identifier_at(&s, 0);
    finish(inp, &s, step, Ghost(spec_identifier(inp@)))
}

pub fn parse_optionally_qualified(inp: &str) -> (r: IResult<'_, Vec<String>>)
    ensures
        match r {
            Ok((rest, v)) => spec_optionally_qualified(inp@) matches Ok((segs, n)) && segs == views_of(v@)
                && rest@ == inp@.skip(n),
            Err(e) => spec_optionally_qualified(inp@) matches Err(f) && e == crate::ast::error_of(f),
        },
{
    let s = chars_of(inp);
    assert(s@.skip(0) =~= s@);
    match optionally_qualified_at(&s, 0) {
        Ok((v, n)) => {
            let rest = inp.substring_char(n, s.len());
            assert(rest@ =~= inp@.skip(n as int));
            Ok((rest, v))
        },
        Err(Failure::NoMatch) => Err(crate::ast::ParseError { kind: crate::ast::ErrorKind::Syntax, offset: 0 }),
        Err(Failure::Invalid) => Err(crate::ast::ParseError { kind: crate::ast::ErrorKind::Domain, offset: 0 }),
    }
}

pub fn parse_name(inp: &str) -> (r: IResult<'_, Name>)
    ensures
        reports(inp@, r, spec_name(inp@)),
{
    let s = chars_of(inp);
    assert(s@.skip(0) =~= s@);
    let step = name_at(&s, 0);
    finish(inp, &s, step, Ghost(spec_name(inp@)))
}

} // verus!
