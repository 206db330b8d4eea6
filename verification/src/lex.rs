//! The lexical layer: whitespace, identifiers, keywords and symbols.
//!
//! Tokens are recognised by the `nom` crate. Each recogniser that the grammar
//! uses is wrapped once here, with a contract over the characters of the
//! input.

use vstd::prelude::*;

verus! {

/// Space, tab, carriage return and line feed.
pub open spec fn is_space(c: char) -> bool {
    c == ' ' || c == '\t' || c == '\r' || c == '\n'
}

/// The letters `a` to `z` and `A` to `Z`.
pub open spec fn is_letter(c: char) -> bool {
    ('a' <= c && c <= 'z') || ('A' <= c && c <= 'Z')
}

/// Number of whitespace characters at the front of `s`.
pub open spec fn spaces(s: Seq<char>) -> nat
    decreases s.len(),
{
    if s.len() > 0 && is_space(s[0]) {
        1 + spaces(s.skip(1))
    } else {
        0
    }
}

/// Number of letters at the front of `s`.
pub open spec fn letters(s: Seq<char>) -> nat
    decreases s.len(),
{
    if s.len() > 0 && is_letter(s[0]) {
        1 + letters(s.skip(1))
    } else {
        0
    }
}

/// The whitespace at the front of `s` is no longer than `s`.
pub proof fn lemma_spaces_bound(s: Seq<char>)
    ensures
        spaces(s) <= s.len(),
    decreases s.len(),
{
    if s.len() > 0 && is_space(s[0]) {
        lemma_spaces_bound(s.skip(1));
    }
}

/// The letters at the front of `s` are no longer than `s`.
pub proof fn lemma_letters_bound(s: Seq<char>)
    ensures
        letters(s) <= s.len(),
    decreases s.len(),
{
    if s.len() > 0 && is_letter(s[0]) {
        lemma_letters_bound(s.skip(1));
    }
}

/// Equality of string slices is equality of their characters.
pub assume_specification[ <str as PartialEq>::eq ](a: &str, b: &str) -> (r: bool)
    ensures
        r == (a@ == b@),
;

/// `nom::character::complete::multispace0` on a string slice. It never
/// fails: it splits the input behind its leading whitespace and hands back
/// the remainder and the whitespace.
#[verifier::external_body]
pub(crate) fn multispace0<'a>(i: &'a str) -> (r: Option<(&'a str, &'a str)>)
    ensures
        match r {
            Some((rest, tok)) => rest@ == i@.skip(spaces(i@) as int) && tok@ == i@.take(
                spaces(i@) as int,
            ),
            None => false,
        },
{
    match nom::character::complete::multispace0::<&str, (&str, nom::error::ErrorKind)>(i) {
        Ok(p) => Some(p),
        Err(_) => None,
    }
}

/// `nom::character::complete::multispace1` on a string slice. It does what
/// `multispace0` does, but fails where the input does not begin with
/// whitespace.
#[verifier::external_body]
pub(crate) fn multispace1<'a>(i: &'a str) -> (r: Option<(&'a str, &'a str)>)
    ensures
        match r {
            Some((rest, tok)) => spaces(i@) > 0 && rest@ == i@.skip(spaces(i@) as int) && tok@
                == i@.take(spaces(i@) as int),
            None => spaces(i@) == 0,
        },
{
    match nom::character::complete::multispace1::<&str, (&str, nom::error::ErrorKind)>(i) {
        Ok(p) => Some(p),
        Err(_) => None,
    }
}

/// `nom::character::complete::alpha1` on a string slice. It splits the input
/// behind its leading letters and hands back the remainder and the letters;
/// it fails where the input does not begin with a letter.
#[verifier::external_body]
pub(crate) fn alpha1<'a>(i: &'a str) -> (r: Option<(&'a str, &'a str)>)
    ensures
        match r {
            Some((rest, tok)) => letters(i@) > 0 && rest@ == i@.skip(letters(i@) as int) && tok@
                == i@.take(letters(i@) as int),
            None => letters(i@) == 0,
        },
{
    match nom::character::complete::alpha1::<&str, (&str, nom::error::ErrorKind)>(i) {
        Ok(p) => Some(p),
        Err(_) => None,
    }
}

/// `nom::bytes::complete::tag` on string slices. It succeeds exactly where
/// the input begins with `t`, and then hands back the remainder and the part
/// that matched.
#[verifier::external_body]
pub(crate) fn tag<'a>(t: &str, i: &'a str) -> (r: Option<(&'a str, &'a str)>)
    ensures
        match r {
            Some((rest, tok)) => t@.is_prefix_of(i@) && rest@ == i@.skip(t@.len() as int) && tok@
                == t@,
            None => !t@.is_prefix_of(i@),
        },
{
    match nom::bytes::complete::tag::<&str, &str, (&str, nom::error::ErrorKind)>(t)(i) {
        Ok(p) => Some(p),
        Err(_) => None,
    }
}

/// `nom::character::complete::char` on a string slice. It succeeds exactly
/// where the first character of the input is `c`, and then hands back the
/// remainder and that character.
#[verifier::external_body]
pub(crate) fn one_char<'a>(c: char, i: &'a str) -> (r: Option<(&'a str, char)>)
    ensures
        match r {
            Some((rest, found)) => i@.len() > 0 && i@[0] == c && rest@ == i@.skip(1) && found
                == c,
            None => !(i@.len() > 0 && i@[0] == c),
        },
{
    match nom::character::complete::char::<&str, (&str, nom::error::ErrorKind)>(c)(i) {
        Ok(p) => Some(p),
        Err(_) => None,
    }
}

} // verus!
