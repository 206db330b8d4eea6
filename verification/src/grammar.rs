//! The grammar, as functions from a sequence of characters to what is read
//! from its front and what is left behind it.
//!
//! An identifier is a whole run of letters. A keyword is an identifier: `let`
//! is the keyword, `letter` is a variable. Symbols end an identifier, so
//! whitespace is needed only between two identifiers and between the two
//! parts of an application.

use crate::ast::{qualified, PrimType, Qual, Shape, Term, TypeExpr};
use crate::lex::{lemma_letters_bound, lemma_spaces_bound, letters, spaces};
use vstd::prelude::*;

verus! {

/// The kind of a syntax error.
#[derive(Debug, Clone, Copy, PartialEq, Eq, Structural)]
pub enum ParseErrorKind {
    /// One particular token was required: a keyword, a symbol, an identifier
    /// or whitespace.
    ExpectedToken,
    /// One of several tokens was required.
    ExpectedOneOf,
    /// The input ended where a token was required.
    UnexpectedEnd,
}

/// Where reading stopped, and why.
pub struct Stop {
    pub rest: Seq<char>,
    pub kind: ParseErrorKind,
}

/// What was read, preceded by the input left behind it; or where reading
/// stopped.
pub type Parsed<T> = Result<(Seq<char>, T), Stop>;

/// Reading stops at `s`, where one token (`choice` false) or one of several
/// (`choice` true) was required.
pub open spec fn stop_at(s: Seq<char>, choice: bool) -> Stop {
    Stop {
        rest: s,
        kind: if s.len() == 0 {
            ParseErrorKind::UnexpectedEnd
        } else if choice {
            ParseErrorKind::ExpectedOneOf
        } else {
            ParseErrorKind::ExpectedToken
        },
    }
}

/// `s` without its leading whitespace.
pub open spec fn trim(s: Seq<char>) -> Seq<char> {
    s.skip(spaces(s) as int)
}

/// `s` behind its leading whitespace, of which there must be some.
pub open spec fn gap(s: Seq<char>) -> Result<Seq<char>, Stop> {
    if spaces(s) > 0 {
        Ok(trim(s))
    } else {
        Err(stop_at(s, false))
    }
}

/// The identifier at the front of `s`.
pub open spec fn word(s: Seq<char>) -> Parsed<Seq<char>> {
    if letters(s) > 0 {
        Ok((s.skip(letters(s) as int), s.take(letters(s) as int)))
    } else {
        Err(stop_at(s, false))
    }
}

/// `s` behind the character `c`, with which it must begin.
pub open spec fn symbol(s: Seq<char>, c: char) -> Result<Seq<char>, Stop> {
    if s.len() > 0 && s[0] == c {
        Ok(s.skip(1))
    } else {
        Err(stop_at(s, false))
    }
}

/// `s` behind the keyword `t`, which must be the whole identifier at the
/// front of `s`.
pub open spec fn keyword(s: Seq<char>, t: Seq<char>) -> Result<Seq<char>, Stop> {
    if letters(s) > 0 && s.take(letters(s) as int) == t {
        Ok(s.skip(letters(s) as int))
    } else {
        Err(stop_at(s, false))
    }
}

/// `r` where it is no longer than `s`, else `s`. What is left behind a
/// reading is never longer than what was read from (`lemma_expr_stays`), so
/// this is `r` wherever the grammar applies it; it is there to bound the
/// recursion.
pub open spec fn clip(r: Seq<char>, s: Seq<char>) -> Seq<char> {
    if r.len() <= s.len() {
        r
    } else {
        s
    }
}

/// The lengths of the symbols that are longer than a character may be.
pub proof fn lemma_token_lengths()
    ensures
        "("@.len() == 1,
        "<"@.len() == 1,
        "*"@.len() == 1,
        "->"@.len() == 2,
{
    reveal_strlit("(");
    reveal_strlit("<");
    reveal_strlit("*");
    reveal_strlit("->");
}

/// `QUAL := "lin" | "un"`: the identifier at the front, which must be one of
/// the two.
pub open spec fn qual(s: Seq<char>) -> Parsed<Qual> {
    let w = s.take(letters(s) as int);
    let r = s.skip(letters(s) as int);
    if letters(s) > 0 && w == "lin"@ {
        Ok((r, Qual::Lin))
    } else if letters(s) > 0 && w == "un"@ {
        Ok((r, Qual::Un))
    } else {
        Err(stop_at(s, true))
    }
}

/// `TYPE := QUAL PRIM`, `PRIM := "bool" | "(" TYPE ("*"|"->") TYPE ")"`
pub open spec fn ty(s: Seq<char>) -> Parsed<TypeExpr>
    decreases s.len(),
{
    match qual(s) {
        Err(e) => Err(e),
        Ok((s1, q)) => {
            let s2 = trim(s1);
            if letters(s2) > 0 {
                if s2.take(letters(s2) as int) == "bool"@ {
                    Ok((s2.skip(letters(s2) as int), TypeExpr { qual: q, prim: PrimType::Bool }))
                } else {
                    Err(stop_at(s2, true))
                }
            } else if "("@.is_prefix_of(s2) {
                let s3 = s2.skip("("@.len() as int);
                proof {
                    lemma_token_lengths();
                    lemma_letters_bound(s);
                    lemma_spaces_bound(s1);
                    lemma_spaces_bound(s3);
                }
                match ty(trim(s3)) {
                    Err(e) => Err(e),
                    Ok((s4, t1)) => {
                        let s5 = trim(clip(s4, s3));
                        let op = if "*"@.is_prefix_of(s5) {
                            Ok((s5.skip("*"@.len() as int), true))
                        } else if "->"@.is_prefix_of(s5) {
                            Ok((s5.skip("->"@.len() as int), false))
                        } else {
                            Err(stop_at(s5, true))
                        };
                        match op {
                            Err(e) => Err(e),
                            Ok((s6, star)) => {
                                proof {
                                    lemma_spaces_bound(clip(s4, s3));
                                    lemma_spaces_bound(s6);
                                }
                                match ty(trim(s6)) {
                                    Err(e) => Err(e),
                                    Ok((s7, t2)) => match symbol(trim(s7), ')') {
                                        Err(e) => Err(e),
                                        Ok(s8) => Ok(
                                            (
                                                s8,
                                                TypeExpr {
                                                    qual: q,
                                                    prim: if star {
                                                        PrimType::Pair(Box::new(t1), Box::new(t2))
                                                    } else {
                                                        PrimType::Arrow(Box::new(t1), Box::new(t2))
                                                    },
                                                },
                                            ),
                                        ),
                                    },
                                }
                            },
                        }
                    },
                }
            } else {
                Err(stop_at(s2, true))
            }
        },
    }
}

/// What is left behind a type is shorter than what the type was read from.
pub proof fn lemma_ty_shrinks(s: Seq<char>)
    ensures
        match ty(s) {
            Ok((rest, _)) => rest.len() < s.len(),
            Err(_) => true,
        },
    decreases s.len(),
{
    lemma_token_lengths();
    lemma_letters_bound(s);
    match qual(s) {
        Err(_) => {},
        Ok((s1, q)) => {
            let s2 = trim(s1);
            lemma_spaces_bound(s1);
            lemma_letters_bound(s2);
            if letters(s2) > 0 {
            } else if "("@.is_prefix_of(s2) {
                let s3 = s2.skip("("@.len() as int);
                lemma_spaces_bound(s3);
                lemma_ty_shrinks(trim(s3));
                match ty(trim(s3)) {
                    Err(_) => {},
                    Ok((s4, t1)) => {
                        let s5 = trim(clip(s4, s3));
                        lemma_spaces_bound(clip(s4, s3));
                        if "*"@.is_prefix_of(s5) || "->"@.is_prefix_of(s5) {
                            let s6 = if "*"@.is_prefix_of(s5) {
                                s5.skip("*"@.len() as int)
                            } else {
                                s5.skip("->"@.len() as int)
                            };
                            lemma_spaces_bound(s6);
                            lemma_ty_shrinks(trim(s6));
                            match ty(trim(s6)) {
                                Err(_) => {},
                                Ok((s7, t2)) => {
                                    lemma_spaces_bound(s7);
                                },
                            }
                        }
                    },
                }
            }
        },
    }
}

/// The first token of an expression: the whole identifier at the front, be
/// it a keyword or not, or `(`.
pub open spec fn lead(s: Seq<char>) -> Parsed<Seq<char>> {
    if letters(s) > 0 {
        Ok((s.skip(letters(s) as int), s.take(letters(s) as int)))
    } else if "("@.is_prefix_of(s) {
        Ok((s.skip("("@.len() as int), "("@))
    } else {
        Err(stop_at(s, true))
    }
}

/// What is left behind the first token is shorter than the input.
pub proof fn lemma_lead_shrinks(s: Seq<char>)
    ensures
        match lead(s) {
            Ok((rest, _)) => rest.len() < s.len(),
            Err(_) => true,
        },
{
    lemma_token_lengths();
    lemma_letters_bound(s);
}

/// `EXPR := LET | IF | SPLIT | FREE | QVAL | APP | VAR`, behind optional
/// whitespace. The first token decides: an identifier that is one of the
/// keywords `let`, `if`, `split`, `free`, `lin`, `un` begins the construct of
/// that keyword, any other identifier is a variable.
pub open spec fn expr(s: Seq<char>) -> Parsed<Term>
    decreases s.len(), 0nat,
{
    match lead(trim(s)) {
        Err(e) => Err(e),
        Ok((r, tok)) => {
            proof {
                lemma_spaces_bound(s);
                lemma_lead_shrinks(trim(s));
            }
            if tok == "let"@ {
                let_tail(r)
            } else if tok == "if"@ {
                if_tail(r)
            } else if tok == "split"@ {
                split_tail(r)
            } else if tok == "free"@ {
                free_tail(r)
            } else if tok == "lin"@ {
                qval_tail(Qual::Lin, r)
            } else if tok == "un"@ {
                qval_tail(Qual::Un, r)
            } else if tok == "("@ {
                app_tail(r)
            } else {
                Ok((r, Term::Var(tok)))
            }
        },
    }
}

/// `"{" EXPR "}"`, with optional whitespace inside the braces.
pub open spec fn block(s: Seq<char>) -> Parsed<Term>
    decreases s.len(), 1nat,
{
    match symbol(s, '{') {
        Err(e) => Err(e),
        Ok(s1) => {
            proof {
                lemma_spaces_bound(s1);
            }
            match expr(trim(s1)) {
                Err(e) => Err(e),
                Ok((s2, t)) => match symbol(trim(s2), '}') {
                    Err(e) => Err(e),
                    Ok(s3) => Ok((s3, t)),
                },
            }
        },
    }
}

/// `LET := "let" VAR ":" TYPE "=" EXPR "{" EXPR "}"`, behind the keyword.
pub open spec fn let_tail(s: Seq<char>) -> Parsed<Term>
    decreases s.len(), 2nat,
{
    match word(trim(s)) {
        Err(e) => Err(e),
        Ok((s1, x)) => match symbol(trim(s1), ':') {
            Err(e) => Err(e),
            Ok(s2) => match ty(trim(s2)) {
                Err(e) => Err(e),
                Ok((s3, t)) => match symbol(trim(s3), '=') {
                    Err(e) => Err(e),
                    Ok(s4) => {
                        proof {
                            lemma_spaces_bound(s);
                            lemma_letters_bound(trim(s));
                            lemma_spaces_bound(s1);
                            lemma_spaces_bound(s2);
                            lemma_ty_shrinks(trim(s2));
                            lemma_spaces_bound(s3);
                            lemma_spaces_bound(s4);
                        }
                        match expr(trim(s4)) {
                            Err(e) => Err(e),
                            Ok((s5, e1)) => {
                                proof {
                                    lemma_spaces_bound(clip(s5, s4));
                                }
                                match block(trim(clip(s5, s4))) {
                                    Err(e) => Err(e),
                                    Ok((s6, e2)) => Ok(
                                        (s6, Term::Let(x, t, Box::new(e1), Box::new(e2))),
                                    ),
                                }
                            },
                        }
                    },
                },
            },
        },
    }
}

/// `IF := "if" EXPR "{" EXPR "}" "else" "{" EXPR "}"`, behind the keyword.
pub open spec fn if_tail(s: Seq<char>) -> Parsed<Term>
    decreases s.len(), 2nat,
{
    proof {
        lemma_spaces_bound(s);
    }
    match expr(trim(s)) {
        Err(e) => Err(e),
        Ok((s1, c)) => {
            proof {
                lemma_spaces_bound(clip(s1, s));
            }
            match block(trim(clip(s1, s))) {
                Err(e) => Err(e),
                Ok((s2, a)) => match keyword(trim(clip(s2, s)), "else"@) {
                    Err(e) => Err(e),
                    Ok(s3) => {
                        proof {
                            lemma_spaces_bound(clip(s2, s));
                            lemma_letters_bound(trim(clip(s2, s)));
                            lemma_spaces_bound(s3);
                        }
                        match block(trim(s3)) {
                            Err(e) => Err(e),
                            Ok((s4, b)) => Ok(
                                (s4, Term::If(Box::new(c), Box::new(a), Box::new(b))),
                            ),
                        }
                    },
                },
            }
        },
    }
}

/// `SPLIT := "split" EXPR "as" VAR "," VAR "{" EXPR "}"`, behind the keyword.
pub open spec fn split_tail(s: Seq<char>) -> Parsed<Term>
    decreases s.len(), 2nat,
{
    proof {
        lemma_spaces_bound(s);
    }
    match expr(trim(s)) {
        Err(e) => Err(e),
        Ok((s1, e)) => match keyword(trim(clip(s1, s)), "as"@) {
            Err(e) => Err(e),
            Ok(s2) => match word(trim(s2)) {
                Err(e) => Err(e),
                Ok((s3, l)) => match symbol(trim(s3), ',') {
                    Err(e) => Err(e),
                    Ok(s4) => match word(trim(s4)) {
                        Err(e) => Err(e),
                        Ok((s5, r)) => {
                            proof {
                                lemma_spaces_bound(clip(s1, s));
                                lemma_letters_bound(trim(clip(s1, s)));
                                lemma_spaces_bound(s2);
                                lemma_letters_bound(trim(s2));
                                lemma_spaces_bound(s3);
                                lemma_spaces_bound(s4);
                                lemma_letters_bound(trim(s4));
                                lemma_spaces_bound(s5);
                            }
                            match block(trim(s5)) {
                                Err(e) => Err(e),
                                Ok((s6, body)) => Ok(
                                    (s6, Term::Split(Box::new(e), l, r, Box::new(body))),
                                ),
                            }
                        },
                    },
                },
            },
        },
    }
}

/// `FREE := "free" VAR ";" EXPR`, behind the keyword. Whitespace must follow
/// the keyword.
pub open spec fn free_tail(s: Seq<char>) -> Parsed<Term>
    decreases s.len(), 2nat,
{
    match gap(s) {
        Err(e) => Err(e),
        Ok(s1) => match word(s1) {
            Err(e) => Err(e),
            Ok((s2, x)) => match symbol(trim(s2), ';') {
                Err(e) => Err(e),
                Ok(s3) => {
                    proof {
                        lemma_spaces_bound(s);
                        lemma_letters_bound(s1);
                        lemma_spaces_bound(s2);
                    }
                    match expr(s3) {
                        Err(e) => Err(e),
                        Ok((s4, e)) => Ok((s4, Term::Free(x, Box::new(e)))),
                    }
                },
            },
        },
    }
}

/// `APP := "(" EXPR EXPR ")"`, behind the parenthesis. Whitespace must
/// separate the two expressions.
pub open spec fn app_tail(s: Seq<char>) -> Parsed<Term>
    decreases s.len(), 2nat,
{
    proof {
        lemma_spaces_bound(s);
    }
    match expr(trim(s)) {
        Err(e) => Err(e),
        Ok((s1, f)) => match gap(clip(s1, s)) {
            Err(e) => Err(e),
            Ok(s2) => {
                proof {
                    lemma_spaces_bound(clip(s1, s));
                }
                match expr(s2) {
                    Err(e) => Err(e),
                    Ok((s3, a)) => match symbol(trim(s3), ')') {
                        Err(e) => Err(e),
                        Ok(s4) => Ok((s4, Term::App(Box::new(f), Box::new(a)))),
                    },
                }
            },
        },
    }
}

/// `"<" EXPR "," EXPR ">"`, behind the opening bracket.
pub open spec fn pair_tail(s: Seq<char>) -> Parsed<Shape>
    decreases s.len(), 2nat,
{
    proof {
        lemma_spaces_bound(s);
    }
    match expr(trim(s)) {
        Err(e) => Err(e),
        Ok((s1, a)) => match symbol(trim(clip(s1, s)), ',') {
            Err(e) => Err(e),
            Ok(s2) => {
                proof {
                    lemma_spaces_bound(clip(s1, s));
                    lemma_spaces_bound(s2);
                }
                match expr(trim(s2)) {
                    Err(e) => Err(e),
                    Ok((s3, b)) => match symbol(trim(s3), '>') {
                        Err(e) => Err(e),
                        Ok(s4) => Ok((s4, Shape::Pair(Box::new(a), Box::new(b)))),
                    },
                }
            },
        },
    }
}

/// `FN := "fn" VAR ":" TYPE "{" EXPR "}"`, behind the keyword.
pub open spec fn fn_tail(s: Seq<char>) -> Parsed<Shape>
    decreases s.len(), 2nat,
{
    match word(trim(s)) {
        Err(e) => Err(e),
        Ok((s1, x)) => match symbol(trim(s1), ':') {
            Err(e) => Err(e),
            Ok(s2) => match ty(trim(s2)) {
                Err(e) => Err(e),
                Ok((s3, t)) => {
                    proof {
                        lemma_spaces_bound(s);
                        lemma_letters_bound(trim(s));
                        lemma_spaces_bound(s1);
                        lemma_spaces_bound(s2);
                        lemma_ty_shrinks(trim(s2));
                        lemma_spaces_bound(s3);
                    }
                    match block(trim(s3)) {
                        Err(e) => Err(e),
                        Ok((s4, body)) => Ok((s4, Shape::Fun(x, t, Box::new(body)))),
                    }
                },
            },
        },
    }
}

/// `VAL := "true" | "false" | "<" EXPR "," EXPR ">" | FN`. The identifier at
/// the front must be one of `fn`, `true`, `false`; where there is none, `<`
/// must stand there.
pub open spec fn val(s: Seq<char>) -> Parsed<Shape>
    decreases s.len(), 3nat,
{
    if letters(s) > 0 {
        let w = s.take(letters(s) as int);
        let r = s.skip(letters(s) as int);
        proof {
            lemma_letters_bound(s);
        }
        if w == "fn"@ {
            fn_tail(r)
        } else if w == "true"@ {
            Ok((r, Shape::Bool(true)))
        } else if w == "false"@ {
            Ok((r, Shape::Bool(false)))
        } else {
            Err(stop_at(s, true))
        }
    } else if "<"@.is_prefix_of(s) {
        pair_tail(s.skip("<"@.len() as int))
    } else {
        Err(stop_at(s, true))
    }
}

/// `QVAL := QUAL VAL`, behind the qualifier `q`.
pub open spec fn qval_tail(q: Qual, s: Seq<char>) -> Parsed<Term>
    decreases s.len(), 4nat,
{
    proof {
        lemma_spaces_bound(s);
    }
    match val(trim(s)) {
        Err(e) => Err(e),
        Ok((r, v)) => Ok((r, qualified(q, v))),
    }
}

/// `r` is what is left of `s` behind some of its characters.
pub open spec fn tail_of(r: Seq<char>, s: Seq<char>) -> bool {
    r.len() <= s.len() && r == s.skip(s.len() - r.len())
}

/// What a reading of `s` leaves behind, or where it stops, is a tail of `s`.
pub open spec fn stays<T>(r: Parsed<T>, s: Seq<char>) -> bool {
    match r {
        Ok((rest, _)) => tail_of(rest, s),
        Err(e) => tail_of(e.rest, s),
    }
}

/// A tail of a tail is a tail.
pub proof fn lemma_tail_skip(x: Seq<char>, n: int, s: Seq<char>)
    requires
        tail_of(x, s),
        0 <= n <= x.len(),
    ensures
        tail_of(x.skip(n), s),
{
    assert(x.skip(n) =~= s.skip(s.len() - x.skip(n).len()));
}

/// Trimming a tail leaves a tail.
pub proof fn lemma_trim_stays(x: Seq<char>, s: Seq<char>)
    requires
        tail_of(x, s),
    ensures
        tail_of(trim(x), s),
        trim(x).len() <= x.len(),
{
    lemma_spaces_bound(x);
    lemma_tail_skip(x, spaces(x) as int, s);
}

/// A symbol read from a tail leaves a shorter tail, or stops at the tail.
pub proof fn lemma_symbol_stays(x: Seq<char>, c: char, s: Seq<char>)
    requires
        tail_of(x, s),
    ensures
        match symbol(x, c) {
            Ok(rest) => tail_of(rest, s) && rest.len() < x.len(),
            Err(e) => tail_of(e.rest, s),
        },
{
    if x.len() > 0 {
        lemma_tail_skip(x, 1, s);
    }
}

/// A keyword read from a tail leaves a shorter tail, or stops at the tail.
pub proof fn lemma_keyword_stays(x: Seq<char>, t: Seq<char>, s: Seq<char>)
    requires
        tail_of(x, s),
    ensures
        match keyword(x, t) {
            Ok(rest) => tail_of(rest, s) && rest.len() < x.len(),
            Err(e) => tail_of(e.rest, s),
        },
{
    lemma_letters_bound(x);
    lemma_tail_skip(x, letters(x) as int, s);
}

/// What stands behind a text at the front of a tail is a tail.
pub proof fn lemma_front_stays(x: Seq<char>, t: Seq<char>, s: Seq<char>)
    requires
        tail_of(x, s),
        t.is_prefix_of(x),
    ensures
        tail_of(x.skip(t.len() as int), s),
        x.skip(t.len() as int).len() + t.len() == x.len(),
{
    lemma_tail_skip(x, t.len() as int, s);
}

/// An identifier read from a tail leaves a shorter tail, or stops at the
/// tail.
pub proof fn lemma_word_stays(x: Seq<char>, s: Seq<char>)
    requires
        tail_of(x, s),
    ensures
        stays(word(x), s),
        word(x) matches Ok((rest, _)) ==> rest.len() < x.len(),
{
    lemma_letters_bound(x);
    lemma_tail_skip(x, letters(x) as int, s);
}

/// Whitespace read from a tail leaves a shorter tail, or stops at the tail.
pub proof fn lemma_gap_stays(x: Seq<char>, s: Seq<char>)
    requires
        tail_of(x, s),
    ensures
        match gap(x) {
            Ok(rest) => tail_of(rest, s) && rest.len() < x.len(),
            Err(e) => tail_of(e.rest, s),
        },
{
    lemma_spaces_bound(x);
    lemma_trim_stays(x, s);
}

/// A type read from a tail of `s` leaves a shorter tail of `s`, or stops at
/// a tail of `s`.
pub proof fn lemma_ty_stays(x: Seq<char>, s: Seq<char>)
    requires
        tail_of(x, s),
    ensures
        stays(ty(x), s),
    decreases x.len(),
{
    lemma_token_lengths();
    lemma_ty_shrinks(x);
    lemma_word_stays(x, s);
    match qual(x) {
        Err(_) => {},
        Ok((s1, q)) => {
            let s2 = trim(s1);
            lemma_trim_stays(s1, s);
            lemma_word_stays(s2, s);
            if letters(s2) > 0 {
            } else if "("@.is_prefix_of(s2) {
                lemma_front_stays(s2, "("@, s);
                let s3 = s2.skip("("@.len() as int);
                lemma_trim_stays(s3, s);
                lemma_ty_stays(trim(s3), s);
                lemma_ty_shrinks(trim(s3));
                match ty(trim(s3)) {
                    Err(_) => {},
                    Ok((s4, t1)) => {
                        let s5 = trim(clip(s4, s3));
                        lemma_trim_stays(s4, s);
                        if "*"@.is_prefix_of(s5) {
                            lemma_front_stays(s5, "*"@, s);
                        } else if "->"@.is_prefix_of(s5) {
                            lemma_front_stays(s5, "->"@, s);
                        }
                        if "*"@.is_prefix_of(s5) || "->"@.is_prefix_of(s5) {
                            let s6 = if "*"@.is_prefix_of(s5) {
                                s5.skip("*"@.len() as int)
                            } else {
                                s5.skip("->"@.len() as int)
                            };
                            lemma_trim_stays(s6, s);
                            lemma_ty_stays(trim(s6), s);
                            match ty(trim(s6)) {
                                Err(_) => {},
                                Ok((s7, t2)) => {
                                    lemma_trim_stays(s7, s);
                                    lemma_symbol_stays(trim(s7), ')', s);
                                },
                            }
                        }
                    },
                }
            }
        },
    }
}

/// The first token read from a tail leaves a shorter tail, or reading stops
/// at the tail.
pub proof fn lemma_lead_stays(x: Seq<char>, s: Seq<char>)
    requires
        tail_of(x, s),
    ensures
        stays(lead(x), s),
        lead(x) matches Ok((rest, _)) ==> rest.len() < x.len(),
{
    lemma_lead_shrinks(x);
    lemma_word_stays(x, s);
    if letters(x) == 0 && "("@.is_prefix_of(x) {
        lemma_front_stays(x, "("@, s);
    }
}

/// An expression read from a tail of `s` leaves a tail of `s` that is
/// shorter than the tail it was read from, or stops at a tail of `s`.
pub proof fn lemma_expr_stays(x: Seq<char>, s: Seq<char>)
    requires
        tail_of(x, s),
    ensures
        stays(expr(x), s),
        expr(x) matches Ok((rest, _)) ==> rest.len() < x.len(),
    decreases x.len(), 0nat,
{
    lemma_trim_stays(x, s);
    lemma_lead_stays(trim(x), s);
    match lead(trim(x)) {
        Err(_) => {},
        Ok((r, tok)) => {
            if tok == "let"@ {
                lemma_let_stays(r, s);
            } else if tok == "if"@ {
                lemma_if_stays(r, s);
            } else if tok == "split"@ {
                lemma_split_stays(r, s);
            } else if tok == "free"@ {
                lemma_free_stays(r, s);
            } else if tok == "lin"@ {
                lemma_qval_stays(Qual::Lin, r, s);
            } else if tok == "un"@ {
                lemma_qval_stays(Qual::Un, r, s);
            } else if tok == "("@ {
                lemma_app_stays(r, s);
            } else {
            }
        },
    }
}

/// `lemma_expr_stays` for an expression in braces.
pub proof fn lemma_block_stays(x: Seq<char>, s: Seq<char>)
    requires
        tail_of(x, s),
    ensures
        stays(block(x), s),
        block(x) matches Ok((rest, _)) ==> rest.len() < x.len(),
    decreases x.len(), 1nat,
{
    lemma_symbol_stays(x, '{', s);
    match symbol(x, '{') {
        Err(_) => {},
        Ok(s1) => {
            lemma_trim_stays(s1, s);
            lemma_expr_stays(trim(s1), s);
            match expr(trim(s1)) {
                Err(_) => {},
                Ok((s2, t)) => {
                    lemma_trim_stays(s2, s);
                    lemma_symbol_stays(trim(s2), '}', s);
                },
            }
        },
    }
}

/// `lemma_expr_stays` for what follows `let`.
pub proof fn lemma_let_stays(x: Seq<char>, s: Seq<char>)
    requires
        tail_of(x, s),
    ensures
        stays(let_tail(x), s),
        let_tail(x) matches Ok((rest, _)) ==> rest.len() <= x.len(),
    decreases x.len(), 2nat,
{
    lemma_trim_stays(x, s);
    lemma_word_stays(trim(x), s);
    match word(trim(x)) {
        Err(_) => {},
        Ok((s1, _)) => {
            lemma_trim_stays(s1, s);
            lemma_symbol_stays(trim(s1), ':', s);
            match symbol(trim(s1), ':') {
                Err(_) => {},
                Ok(s2) => {
                    lemma_trim_stays(s2, s);
                    lemma_ty_stays(trim(s2), s);
                    lemma_ty_shrinks(trim(s2));
                    match ty(trim(s2)) {
                        Err(_) => {},
                        Ok((s3, _)) => {
                            lemma_trim_stays(s3, s);
                            lemma_symbol_stays(trim(s3), '=', s);
                            match symbol(trim(s3), '=') {
                                Err(_) => {},
                                Ok(s4) => {
                                    lemma_trim_stays(s4, s);
                                    lemma_expr_stays(trim(s4), s);
                                    match expr(trim(s4)) {
                                        Err(_) => {},
                                        Ok((s5, _)) => {
                                            lemma_trim_stays(s5, s);
                                            lemma_block_stays(trim(s5), s);
                                        },
                                    }
                                },
                            }
                        },
                    }
                },
            }
        },
    }
}

/// `lemma_expr_stays` for what follows `if`.
pub proof fn lemma_if_stays(x: Seq<char>, s: Seq<char>)
    requires
        tail_of(x, s),
    ensures
        stays(if_tail(x), s),
        if_tail(x) matches Ok((rest, _)) ==> rest.len() <= x.len(),
    decreases x.len(), 2nat,
{
    lemma_trim_stays(x, s);
    lemma_expr_stays(trim(x), s);
    match expr(trim(x)) {
        Err(_) => {},
        Ok((s1, _)) => {
            lemma_trim_stays(s1, s);
            lemma_block_stays(trim(s1), s);
            match block(trim(s1)) {
                Err(_) => {},
                Ok((s2, _)) => {
                    lemma_trim_stays(s2, s);
                    lemma_keyword_stays(trim(s2), "else"@, s);
                    match keyword(trim(s2), "else"@) {
                        Err(_) => {},
                        Ok(s3) => {
                            lemma_trim_stays(s3, s);
                            lemma_block_stays(trim(s3), s);
                        },
                    }
                },
            }
        },
    }
}

/// `lemma_expr_stays` for what follows `split`.
pub proof fn lemma_split_stays(x: Seq<char>, s: Seq<char>)
    requires
        tail_of(x, s),
    ensures
        stays(split_tail(x), s),
        split_tail(x) matches Ok((rest, _)) ==> rest.len() <= x.len(),
    decreases x.len(), 2nat,
{
    lemma_trim_stays(x, s);
    lemma_expr_stays(trim(x), s);
    match expr(trim(x)) {
        Err(_) => {},
        Ok((s1, _)) => {
            lemma_trim_stays(s1, s);
            lemma_keyword_stays(trim(s1), "as"@, s);
            match keyword(trim(s1), "as"@) {
                Err(_) => {},
                Ok(s2) => {
                    lemma_trim_stays(s2, s);
                    lemma_word_stays(trim(s2), s);
                    match word(trim(s2)) {
                        Err(_) => {},
                        Ok((s3, _)) => {
                            lemma_trim_stays(s3, s);
                            lemma_symbol_stays(trim(s3), ',', s);
                            match symbol(trim(s3), ',') {
                                Err(_) => {},
                                Ok(s4) => {
                                    lemma_trim_stays(s4, s);
                                    lemma_word_stays(trim(s4), s);
                                    match word(trim(s4)) {
                                        Err(_) => {},
                                        Ok((s5, _)) => {
                                            lemma_trim_stays(s5, s);
                                            lemma_block_stays(trim(s5), s);
                                        },
                                    }
                                },
                            }
                        },
                    }
                },
            }
        },
    }
}

/// `lemma_expr_stays` for what follows `free`.
pub proof fn lemma_free_stays(x: Seq<char>, s: Seq<char>)
    requires
        tail_of(x, s),
    ensures
        stays(free_tail(x), s),
        free_tail(x) matches Ok((rest, _)) ==> rest.len() <= x.len(),
    decreases x.len(), 2nat,
{
    lemma_gap_stays(x, s);
    match gap(x) {
        Err(_) => {},
        Ok(s1) => {
            lemma_word_stays(s1, s);
            match word(s1) {
                Err(_) => {},
                Ok((s2, _)) => {
                    lemma_trim_stays(s2, s);
                    lemma_symbol_stays(trim(s2), ';', s);
                    match symbol(trim(s2), ';') {
                        Err(_) => {},
                        Ok(s3) => {
                            lemma_expr_stays(s3, s);
                        },
                    }
                },
            }
        },
    }
}

/// `lemma_expr_stays` for what follows the parenthesis of an application.
pub proof fn lemma_app_stays(x: Seq<char>, s: Seq<char>)
    requires
        tail_of(x, s),
    ensures
        stays(app_tail(x), s),
        app_tail(x) matches Ok((rest, _)) ==> rest.len() <= x.len(),
    decreases x.len(), 2nat,
{
    lemma_trim_stays(x, s);
    lemma_expr_stays(trim(x), s);
    match expr(trim(x)) {
        Err(_) => {},
        Ok((s1, _)) => {
            lemma_gap_stays(s1, s);
            match gap(s1) {
                Err(_) => {},
                Ok(s2) => {
                    lemma_expr_stays(s2, s);
                    match expr(s2) {
                        Err(_) => {},
                        Ok((s3, _)) => {
                            lemma_trim_stays(s3, s);
                            lemma_symbol_stays(trim(s3), ')', s);
                        },
                    }
                },
            }
        },
    }
}

/// `lemma_expr_stays` for what follows the bracket of a pair.
pub proof fn lemma_pair_stays(x: Seq<char>, s: Seq<char>)
    requires
        tail_of(x, s),
    ensures
        stays(pair_tail(x), s),
        pair_tail(x) matches Ok((rest, _)) ==> rest.len() <= x.len(),
    decreases x.len(), 2nat,
{
    lemma_trim_stays(x, s);
    lemma_expr_stays(trim(x), s);
    match expr(trim(x)) {
        Err(_) => {},
        Ok((s1, _)) => {
            lemma_trim_stays(s1, s);
            lemma_symbol_stays(trim(s1), ',', s);
            match symbol(trim(s1), ',') {
                Err(_) => {},
                Ok(s2) => {
                    lemma_trim_stays(s2, s);
                    lemma_expr_stays(trim(s2), s);
                    match expr(trim(s2)) {
                        Err(_) => {},
                        Ok((s3, _)) => {
                            lemma_trim_stays(s3, s);
                            lemma_symbol_stays(trim(s3), '>', s);
                        },
                    }
                },
            }
        },
    }
}

/// `lemma_expr_stays` for what follows `fn`.
pub proof fn lemma_fn_stays(x: Seq<char>, s: Seq<char>)
    requires
        tail_of(x, s),
    ensures
        stays(fn_tail(x), s),
        fn_tail(x) matches Ok((rest, _)) ==> rest.len() <= x.len(),
    decreases x.len(), 2nat,
{
    lemma_trim_stays(x, s);
    lemma_word_stays(trim(x), s);
    match word(trim(x)) {
        Err(_) => {},
        Ok((s1, _)) => {
            lemma_trim_stays(s1, s);
            lemma_symbol_stays(trim(s1), ':', s);
            match symbol(trim(s1), ':') {
                Err(_) => {},
                Ok(s2) => {
                    lemma_trim_stays(s2, s);
                    lemma_ty_stays(trim(s2), s);
                    lemma_ty_shrinks(trim(s2));
                    match ty(trim(s2)) {
                        Err(_) => {},
                        Ok((s3, _)) => {
                            lemma_trim_stays(s3, s);
                            lemma_block_stays(trim(s3), s);
                        },
                    }
                },
            }
        },
    }
}

/// `lemma_expr_stays` for a value.
pub proof fn lemma_val_stays(x: Seq<char>, s: Seq<char>)
    requires
        tail_of(x, s),
    ensures
        stays(val(x), s),
        val(x) matches Ok((rest, _)) ==> rest.len() <= x.len(),
    decreases x.len(), 3nat,
{
    lemma_token_lengths();
    lemma_word_stays(x, s);
    if letters(x) > 0 {
        if x.take(letters(x) as int) == "fn"@ {
            lemma_fn_stays(x.skip(letters(x) as int), s);
        }
    } else if "<"@.is_prefix_of(x) {
        lemma_front_stays(x, "<"@, s);
        lemma_pair_stays(x.skip("<"@.len() as int), s);
    }
}

/// `lemma_expr_stays` for what follows a qualifier.
pub proof fn lemma_qval_stays(q: Qual, x: Seq<char>, s: Seq<char>)
    requires
        tail_of(x, s),
    ensures
        stays(qval_tail(q, x), s),
        qval_tail(q, x) matches Ok((rest, _)) ==> rest.len() <= x.len(),
    decreases x.len(), 4nat,
{
    lemma_trim_stays(x, s);
    lemma_val_stays(trim(x), s);
}

} // verus!
