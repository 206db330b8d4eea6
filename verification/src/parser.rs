//! The parser: recursive descent over a string slice, one function per
//! production, each proved to read what the grammar says.

use crate::ast::{
    AppExpr, Expr, FnExpr, FreeExpr, IfExpr, LetExpr, PrimType, QValExpr, Qual, SplitExpr, TypeExpr,
    ValExpr,
};
use crate::grammar::{
    app_tail, block, expr, fn_tail, free_tail, gap, if_tail, keyword, lead, lemma_expr_stays,
    lemma_lead_shrinks, lemma_token_lengths, let_tail, pair_tail, qual, qval_tail, split_tail,
    stop_at, symbol, tail_of, trim, ty, val, word, ParseErrorKind, Parsed, Stop,
};
use crate::lex::{
    alpha1, lemma_letters_bound, lemma_spaces_bound, multispace0, multispace1, one_char, tag,
};
use vstd::prelude::*;

verus! {

/// A syntax error: the input that was left when reading stopped, and the
/// kind of the error.
#[derive(Debug, PartialEq, Eq)]
pub struct ParseError<'a> {
    pub rest: &'a str,
    pub kind: ParseErrorKind,
}

impl<'a> View for ParseError<'a> {
    type V = Stop;

    open spec fn view(&self) -> Stop {
        Stop { rest: self.rest@, kind: self.kind }
    }
}

/// `res` says what `spec` says, which is what the grammar reads from `i`: the
/// same value in front of the same remainder, or the same stop. A remainder
/// is no longer than `i`.
pub open spec fn reads<'a, T: View>(
    res: Result<(&'a str, T), ParseError<'a>>,
    spec: Parsed<T::V>,
    i: Seq<char>,
) -> bool {
    match res {
        Ok((rest, v)) => spec == Ok::<(Seq<char>, T::V), Stop>((rest@, v@)) && rest@.len()
            <= i.len(),
        Err(e) => spec == Err::<(Seq<char>, T::V), Stop>(e@),
    }
}

/// `res` says what `spec` says, which is what the grammar leaves of `i`: the
/// same remainder, which is no longer than `i`, or the same stop.
pub open spec fn passes<'a>(
    res: Result<&'a str, ParseError<'a>>,
    spec: Result<Seq<char>, Stop>,
    i: Seq<char>,
) -> bool {
    match res {
        Ok(rest) => spec == Ok::<Seq<char>, Stop>(rest@) && rest@.len() <= i.len(),
        Err(e) => spec == Err::<Seq<char>, Stop>(e@),
    }
}

/// What `res` leaves of the input `i`, or the input that is left where it
/// stopped, is `i` behind some of its characters.
pub open spec fn within<'a, T>(res: Result<(&'a str, T), ParseError<'a>>, i: Seq<char>) -> bool {
    match res {
        Ok((rest, _)) => tail_of(rest@, i),
        Err(e) => tail_of(e.rest@, i),
    }
}

/// The error for input `i` at which one token (`choice` false) or one of
/// several (`choice` true) was required.
fn failure<'a>(i: &'a str, choice: bool) -> (e: ParseError<'a>)
    ensures
        e@ == stop_at(i@, choice),
{
    let kind = if i.is_empty() {
        ParseErrorKind::UnexpectedEnd
    } else if choice {
        ParseErrorKind::ExpectedOneOf
    } else {
        ParseErrorKind::ExpectedToken
    };
    ParseError { rest: i, kind }
}

/// Skips optional whitespace.
fn skip_space<'a>(i: &'a str) -> (rest: &'a str)
    ensures
        rest@ == trim(i@),
        rest@.len() <= i@.len(),
{
    proof {
        lemma_spaces_bound(i@);
    }
    match multispace0(i) {
        Some((rest, _)) => rest,
        None => i,
    }
}

/// Skips whitespace, of which there must be some.
fn skip_gap<'a>(i: &'a str) -> (res: Result<&'a str, ParseError<'a>>)
    ensures
        passes(res, gap(i@), i@),
{
    proof {
        lemma_spaces_bound(i@);
    }
    match multispace1(i) {
        Some((rest, _)) => Ok(rest),
        None => Err(failure(i, false)),
    }
}

/// Reads the character `c`.
fn expect_char<'a>(c: char, i: &'a str) -> (res: Result<&'a str, ParseError<'a>>)
    ensures
        passes(res, symbol(i@, c), i@),
        res matches Ok(rest) ==> rest@.len() < i@.len(),
{
    match one_char(c, i) {
        Some((rest, _)) => Ok(rest),
        None => Err(failure(i, false)),
    }
}

/// Reads the keyword `t`: the identifier at the front, which must be `t`.
fn expect_keyword<'a>(t: &str, i: &'a str) -> (res: Result<&'a str, ParseError<'a>>)
    ensures
        passes(res, keyword(i@, t@), i@),
{
    proof {
        lemma_letters_bound(i@);
    }
    match alpha1(i) {
        Some((rest, word)) => {
            if word.eq(t) {
                Ok(rest)
            } else {
                Err(failure(i, false))
            }
        },
        None => Err(failure(i, false)),
    }
}

/// Reads the first token of an expression.
fn first_token<'a>(i: &'a str) -> (res: Result<(&'a str, &'a str), ParseError<'a>>)
    ensures
        match res {
            Ok((rest, tok)) => lead(i@) == Ok::<(Seq<char>, Seq<char>), Stop>((rest@, tok@))
                && rest@.len() < i@.len(),
            Err(e) => lead(i@) == Err::<(Seq<char>, Seq<char>), Stop>(e@),
        },
{
    proof {
        lemma_lead_shrinks(i@);
    }
    if let Some(p) = alpha1(i) {
        return Ok(p);
    }
    if let Some(p) = tag("(", i) {
        return Ok(p);
    }
    Err(failure(i, true))
}

/// Reads an expression from the front of `i`. On success the result holds
/// the input behind the expression, and the expression; on failure the input
/// that was left where reading stopped. Input behind the expression is not
/// looked at.
pub fn parse_expr<'a>(i: &'a str) -> (res: Result<(&'a str, Expr), ParseError<'a>>)
    ensures
        reads(res, expr(i@), i@),
        within(res, i@),
    decreases i@.len(), 0nat,
{
    proof {
        assert(i@.skip(0) =~= i@);
        lemma_expr_stays(i@, i@);
    }
    let i = skip_space(i);
    let (i, val) = first_token(i)?;
    if val.eq("let") {
        parse_let(i)
    } else if val.eq("if") {
        parse_if(i)
    } else if val.eq("split") {
        parse_split(i)
    } else if val.eq("free") {
        parse_free(i)
    } else if val.eq("lin") {
        parse_qval(Qual::Lin, i)
    } else if val.eq("un") {
        parse_qval(Qual::Un, i)
    } else if val.eq("(") {
        parse_app(i)
    } else {
        Ok((i, Expr::Var(val.to_owned())))
    }
}

/// Reads an expression in braces.
fn parse_block<'a>(i: &'a str) -> (res: Result<(&'a str, Expr), ParseError<'a>>)
    ensures
        reads(res, block(i@), i@),
    decreases i@.len(), 1nat,
{
    let i = expect_char('{', i)?;
    let i = skip_space(i);
    let (i, e) = parse_expr(i)?;
    let i = skip_space(i);
    let i = expect_char('}', i)?;
    Ok((i, e))
}

/// Reads an application behind its opening parenthesis.
fn parse_app<'a>(i: &'a str) -> (res: Result<(&'a str, Expr), ParseError<'a>>)
    ensures
        reads(res, app_tail(i@), i@),
    decreases i@.len(), 2nat,
{
    let i = skip_space(i);
    let (i, e1) = parse_expr(i)?;

    let i = skip_gap(i)?;

    let (i, e2) = parse_expr(i)?;

    let i = skip_space(i);
    let i = expect_char(')', i)?;

    Ok((i, Expr::App(AppExpr { expr1: Box::new(e1), expr2: Box::new(e2) })))
}

/// Reads a disposal behind the keyword `free`.
fn parse_free<'a>(i: &'a str) -> (res: Result<(&'a str, Expr), ParseError<'a>>)
    ensures
        reads(res, free_tail(i@), i@),
    decreases i@.len(), 2nat,
{
    let i = skip_gap(i)?;
    let (i, var) = parse_var(i)?;
    let i = skip_space(i);
    let i = expect_char(';', i)?;

    let (i, e) = parse_expr(i)?;
    Ok((i, Expr::Free(FreeExpr { var, expr: Box::new(e) })))
}

/// Reads a pair elimination behind the keyword `split`.
fn parse_split<'a>(i: &'a str) -> (res: Result<(&'a str, Expr), ParseError<'a>>)
    ensures
        reads(res, split_tail(i@), i@),
    decreases i@.len(), 2nat,
{
    let i = skip_space(i);
    let (i, e1) = parse_expr(i)?;

    let i = skip_space(i);
    let i = expect_keyword("as", i)?;
    let i = skip_space(i);

    let (i, v1) = parse_var(i)?;

    let i = skip_space(i);
    let i = expect_char(',', i)?;
    let i = skip_space(i);

    let (i, v2) = parse_var(i)?;
    let i = skip_space(i);

    let (i, e2) = parse_block(i)?;

    Ok((i, Expr::Split(SplitExpr { expr: Box::new(e1), left: v1, right: v2, body: Box::new(e2) })))
}

/// Reads a conditional behind the keyword `if`.
fn parse_if<'a>(i: &'a str) -> (res: Result<(&'a str, Expr), ParseError<'a>>)
    ensures
        reads(res, if_tail(i@), i@),
    decreases i@.len(), 2nat,
{
    let i = skip_space(i);
    let (i, e1) = parse_expr(i)?;
    let i = skip_space(i);

    let (i, e2) = parse_block(i)?;

    let i = skip_space(i);
    let i = expect_keyword("else", i)?;
    let i = skip_space(i);

    let (i, e3) = parse_block(i)?;

    Ok(
        (
            i,
            Expr::If(
                IfExpr { cond_expr: Box::new(e1), then_expr: Box::new(e2), else_expr: Box::new(e3) },
            ),
        ),
    )
}

/// Reads a local binding behind the keyword `let`.
fn parse_let<'a>(i: &'a str) -> (res: Result<(&'a str, Expr), ParseError<'a>>)
    ensures
        reads(res, let_tail(i@), i@),
    decreases i@.len(), 2nat,
{
    let i = skip_space(i);

    let (i, var) = parse_var(i)?;

    let i = skip_space(i);
    let i = expect_char(':', i)?;
    let i = skip_space(i);

    let (i, ty) = parse_type(i)?;

    let i = skip_space(i);
    let i = expect_char('=', i)?;
    let i = skip_space(i);

    let (i, e1) = parse_expr(i)?;
    let i = skip_space(i);

    let (i, e2) = parse_block(i)?;

    Ok((i, Expr::Let(LetExpr { var, ty, expr1: Box::new(e1), expr2: Box::new(e2) })))
}

/// Reads a pair behind its opening bracket.
fn parse_pair<'a>(i: &'a str) -> (res: Result<(&'a str, ValExpr), ParseError<'a>>)
    ensures
        reads(res, pair_tail(i@), i@),
    decreases i@.len(), 2nat,
{
    let i = skip_space(i);

    let (i, v1) = parse_expr(i)?;

    let i = skip_space(i);
    let i = expect_char(',', i)?;
    let i = skip_space(i);

    let (i, v2) = parse_expr(i)?;

    let i = skip_space(i);
    let i = expect_char('>', i)?;

    Ok((i, ValExpr::Pair(Box::new(v1), Box::new(v2))))
}

/// Reads a qualifier.
fn parse_qual<'a>(i: &'a str) -> (res: Result<(&'a str, Qual), ParseError<'a>>)
    ensures
        reads(res, qual(i@), i@),
        res matches Ok((rest, _)) ==> rest@.len() < i@.len(),
{
    proof {
        lemma_letters_bound(i@);
    }
    if let Some((rest, word)) = alpha1(i) {
        if word.eq("lin") {
            return Ok((rest, Qual::Lin));
        }
        if word.eq("un") {
            return Ok((rest, Qual::Un));
        }
    }
    Err(failure(i, true))
}

/// Reads a function literal behind the keyword `fn`.
fn parse_fn<'a>(i: &'a str) -> (res: Result<(&'a str, ValExpr), ParseError<'a>>)
    ensures
        reads(res, fn_tail(i@), i@),
    decreases i@.len(), 2nat,
{
    let i = skip_space(i);
    let (i, var) = parse_var(i)?;

    let i = skip_space(i);
    let i = expect_char(':', i)?;
    let i = skip_space(i);

    let (i, ty) = parse_type(i)?;
    let i = skip_space(i);

    let (i, expr) = parse_block(i)?;

    Ok((i, ValExpr::Fun(FnExpr { var, ty, expr: Box::new(expr) })))
}

/// Reads a value without its qualifier.
fn parse_val<'a>(i: &'a str) -> (res: Result<(&'a str, ValExpr), ParseError<'a>>)
    ensures
        reads(res, val(i@), i@),
    decreases i@.len(), 3nat,
{
    proof {
        lemma_token_lengths();
        lemma_letters_bound(i@);
    }
    if let Some((rest, word)) = alpha1(i) {
        if word.eq("fn") {
            return parse_fn(rest);
        }
        if word.eq("true") {
            return Ok((rest, ValExpr::Bool(true)));
        }
        if word.eq("false") {
            return Ok((rest, ValExpr::Bool(false)));
        }
        return Err(failure(i, true));
    }
    if let Some((i, _)) = tag("<", i) {
        return parse_pair(i);
    }
    Err(failure(i, true))
}

/// Reads a value behind its qualifier `q`.
fn parse_qval<'a>(q: Qual, i: &'a str) -> (res: Result<(&'a str, Expr), ParseError<'a>>)
    ensures
        reads(res, qval_tail(q, i@), i@),
    decreases i@.len(), 4nat,
{
    let i = skip_space(i);
    let (i, v) = parse_val(i)?;

    Ok((i, Expr::QVal(QValExpr { qual: q, val: v })))
}

/// Reads an identifier.
fn parse_var<'a>(i: &'a str) -> (res: Result<(&'a str, String), ParseError<'a>>)
    ensures
        reads(res, word(i@), i@),
{
    proof {
        lemma_letters_bound(i@);
    }
    match alpha1(i) {
        Some((i, v)) => Ok((i, v.to_owned())),
        None => Err(failure(i, false)),
    }
}

/// Reads a type.
fn parse_type<'a>(i: &'a str) -> (res: Result<(&'a str, TypeExpr), ParseError<'a>>)
    ensures
        reads(res, ty(i@), i@),
    decreases i@.len(),
{
    proof {
        lemma_token_lengths();
    }
    let (i, q) = parse_qual(i)?;
    let i = skip_space(i);
    proof {
        lemma_letters_bound(i@);
    }
    if let Some((rest, word)) = alpha1(i) {
        if word.eq("bool") {
            return Ok((rest, TypeExpr { qual: q, prim: PrimType::Bool }));
        }
        return Err(failure(i, true));
    }
    let i = match tag("(", i) {
        Some((i, _)) => i,
        None => {
            return Err(failure(i, true));
        },
    };
    let i = skip_space(i);
    let (i, t1) = parse_type(i)?;
    let i = skip_space(i);

    let (i, star) = if let Some((i, _)) = tag("*", i) {
        (i, true)
    } else if let Some((i, _)) = tag("->", i) {
        (i, false)
    } else {
        return Err(failure(i, true));
    };

    let i = skip_space(i);
    let (i, t2) = parse_type(i)?;
    let i = skip_space(i);

    let i = expect_char(')', i)?;

    Ok(
        (
            i,
            TypeExpr {
                qual: q,
                prim: if star {
                    PrimType::Pair(Box::new(t1), Box::new(t2))
                } else {
                    PrimType::Arrow(Box::new(t1), Box::new(t2))
                },
            },
        ),
    )
}

} // verus!
