//! The text of a type, as the grammar reads it.

use crate::ast::{PrimType, Qual, TypeExpr};
use crate::grammar::{qual, symbol, trim, ty, Stop};
use crate::lex::{is_letter, is_space, letters, spaces};
use vstd::prelude::*;
use vstd::string::StringExecFns;

verus! {

/// The text of a qualifier.
pub open spec fn qual_text(q: Qual) -> Seq<char> {
    match q {
        Qual::Lin => "lin"@,
        Qual::Un => "un"@,
    }
}

/// The text of a type: the qualifier, a space, and the shape, which is
/// `bool` or two types in parentheses around `*` or `->`.
pub open spec fn type_text(t: TypeExpr) -> Seq<char>
    decreases t,
{
    qual_text(t.qual) + " "@ + match t.prim {
        PrimType::Bool => "bool"@,
        PrimType::Pair(a, b) => "("@ + type_text(*a) + " * "@ + type_text(*b) + ")"@,
        PrimType::Arrow(a, b) => "("@ + type_text(*a) + " -> "@ + type_text(*b) + ")"@,
    }
}

impl TypeExpr {
    /// The text of this type.
    pub fn render(&self) -> (s: String)
        ensures
            s@ == type_text(*self),
        decreases self,
    {
        let mut s = String::from_str(
            match self.qual {
                Qual::Lin => "lin",
                Qual::Un => "un",
            },
        );
        s.append(" ");
        match &self.prim {
            PrimType::Bool => {
                s.append("bool");
            },
            PrimType::Pair(a, b) => {
                s.append("(");
                s.append(a.render().as_str());
                s.append(" * ");
                s.append(b.render().as_str());
                s.append(")");
                assert(s@ =~= type_text(*self));
            },
            PrimType::Arrow(a, b) => {
                s.append("(");
                s.append(a.render().as_str());
                s.append(" -> ");
                s.append(b.render().as_str());
                s.append(")");
                assert(s@ =~= type_text(*self));
            },
        }
        s
    }
}

/// A text is at the front of itself followed by anything, and behind it
/// stands what followed.
proof fn lemma_front(a: Seq<char>, b: Seq<char>)
    ensures
        a.is_prefix_of(a + b),
        (a + b).skip(a.len() as int) == b,
{
    assert((a + b).subrange(0, a.len() as int) =~= a);
    assert((a + b).skip(a.len() as int) =~= b);
}

/// A text is not at the front of one that begins with another character.
proof fn lemma_not_front(a: Seq<char>, s: Seq<char>)
    requires
        a.len() > 0,
        s.len() > 0,
        a[0] != s[0],
    ensures
        !a.is_prefix_of(s),
{
    if a.len() <= s.len() {
        assert(s.subrange(0, a.len() as int)[0] == s[0]);
    }
}

/// Trimming does nothing to a text that begins with no whitespace, and
/// takes one space from the front of it.
proof fn lemma_trim_space(r: Seq<char>)
    requires
        r.len() > 0,
        !is_space(r[0]),
    ensures
        trim(r) == r,
        trim(" "@ + r) == r,
{
    reveal_strlit(" ");
    assert(spaces(r) == 0);
    assert(r.skip(0) =~= r);
    let s = " "@ + r;
    assert(s[0] == ' ');
    assert(s.skip(1) =~= r);
    assert(spaces(s) == 1);
}

/// The text of a type begins with the first letter of a qualifier.
proof fn lemma_type_text_head(t: TypeExpr)
    ensures
        type_text(t).len() > 0,
        type_text(t)[0] == 'l' || type_text(t)[0] == 'u',
{
    reveal_strlit("lin");
    reveal_strlit("un");
}

/// An identifier followed by something that begins with no letter is the
/// whole run of letters at the front.
proof fn lemma_word_front(w: Seq<char>, r: Seq<char>)
    requires
        w.len() > 0,
        forall|k: int| 0 <= k < w.len() ==> is_letter(#[trigger] w[k]),
        r.len() == 0 || !is_letter(r[0]),
    ensures
        letters(w + r) == w.len(),
        (w + r).take(w.len() as int) == w,
        (w + r).skip(w.len() as int) == r,
    decreases w.len(),
{
    let s = w + r;
    assert(s.take(w.len() as int) =~= w);
    assert(s.skip(w.len() as int) =~= r);
    assert(s[0] == w[0]);
    assert(s.skip(1) =~= w.skip(1) + r);
    if w.len() > 1 {
        assert forall|k: int| 0 <= k < w.skip(1).len() implies is_letter(
            #[trigger] w.skip(1)[k],
        ) by {
            assert(w.skip(1)[k] == w[k + 1]);
        }
        lemma_word_front(w.skip(1), r);
    } else {
        assert(w.skip(1) + r =~= r);
        assert(letters(r) == 0);
    }
}

/// The grammar reads a qualifier back from its text, where no letter follows
/// it.
proof fn lemma_qual_reads_back(q: Qual, r: Seq<char>)
    requires
        r.len() == 0 || !is_letter(r[0]),
    ensures
        qual(qual_text(q) + r) == Ok::<(Seq<char>, Qual), Stop>((r, q)),
{
    reveal_strlit("lin");
    reveal_strlit("un");
    lemma_word_front(qual_text(q), r);
    assert("lin"@ != "un"@) by {
        assert("lin"@.len() != "un"@.len());
    }
}

/// How the grammar reads the opening parenthesis of a shape and what stands
/// behind it, where that begins with a letter of a qualifier.
proof fn lemma_opening(s3: Seq<char>)
    requires
        s3.len() > 0,
        s3[0] == 'l' || s3[0] == 'u',
    ensures
        trim(" "@ + ("("@ + s3)) == "("@ + s3,
        letters("("@ + s3) == 0,
        "("@.is_prefix_of("("@ + s3),
        ("("@ + s3).skip("("@.len() as int) == s3,
        trim(s3) == s3,
{
    reveal_strlit("(");
    let s2 = "("@ + s3;
    assert(s2[0] == '(');
    lemma_trim_space(s2);
    lemma_front("("@, s3);
    lemma_trim_space(s3);
}

/// How the grammar reads the sign between the two types of a shape and what
/// stands behind it, where that begins with a letter of a qualifier.
proof fn lemma_sign(star: bool, y: Seq<char>)
    requires
        y.len() > 0,
        y[0] == 'l' || y[0] == 'u',
    ensures
        ({
            let x = if star {
                " * "@ + y
            } else {
                " -> "@ + y
            };
            let z = trim(x);
            &&& star ==> "*"@.is_prefix_of(z) && trim(z.skip("*"@.len() as int)) == y
            &&& !star ==> !"*"@.is_prefix_of(z) && "->"@.is_prefix_of(z) && trim(
                z.skip("->"@.len() as int),
            ) == y
        }),
{
    reveal_strlit(" ");
    reveal_strlit("*");
    reveal_strlit("->");
    reveal_strlit(" * ");
    reveal_strlit(" -> ");
    let x = if star {
        " * "@ + y
    } else {
        " -> "@ + y
    };
    let sign = if star {
        "*"@
    } else {
        "->"@
    };
    let z = sign + (" "@ + y);
    assert(z[0] == sign[0]);
    assert(x =~= " "@ + z);
    lemma_trim_space(z);
    lemma_front(sign, " "@ + y);
    lemma_trim_space(y);
    if !star {
        lemma_not_front("*"@, z);
    }
}

/// A text behind a space begins with no letter.
proof fn lemma_space_head(r: Seq<char>)
    ensures
        (" "@ + r).len() > 0,
        !is_letter((" "@ + r)[0]),
{
    reveal_strlit(" ");
}

/// A sign between two types begins with no letter.
proof fn lemma_sign_head(star: bool, y: Seq<char>)
    ensures
        ({
            let x = if star {
                " * "@ + y
            } else {
                " -> "@ + y
            };
            x.len() > 0 && !is_letter(x[0])
        }),
{
    reveal_strlit(" * ");
    reveal_strlit(" -> ");
}

/// A closing parenthesis is no letter.
proof fn lemma_closing_head(rest: Seq<char>)
    ensures
        (")"@ + rest).len() > 0,
        !is_letter((")"@ + rest)[0]),
{
    reveal_strlit(")");
}

/// How the grammar reads the closing parenthesis of a shape.
proof fn lemma_closing(rest: Seq<char>)
    ensures
        trim(")"@ + rest) == ")"@ + rest,
        symbol(")"@ + rest, ')') == Ok::<Seq<char>, Stop>(rest),
{
    reveal_strlit(")");
    let last = ")"@ + rest;
    assert(last[0] == ')');
    lemma_trim_space(last);
    assert(last.skip(1) =~= rest);
}

/// The grammar reads `bool` back, where no letter follows it.
proof fn lemma_bool_reads_back(rest: Seq<char>)
    requires
        rest.len() == 0 || !is_letter(rest[0]),
    ensures
        trim(" "@ + ("bool"@ + rest)) == "bool"@ + rest,
        letters("bool"@ + rest) > 0,
        ("bool"@ + rest).take(letters("bool"@ + rest) as int) == "bool"@,
        ("bool"@ + rest).skip(letters("bool"@ + rest) as int) == rest,
{
    reveal_strlit("bool");
    let s2 = "bool"@ + rest;
    assert(s2[0] == 'b');
    lemma_trim_space(s2);
    lemma_word_front("bool"@, rest);
}

/// Joining texts is associative.
proof fn lemma_join(a: Seq<char>, b: Seq<char>, c: Seq<char>)
    ensures
        (a + b) + c == a + (b + c),
{
    assert((a + b) + c =~= a + (b + c));
}

/// The text of a shape of two types, followed by `rest`, in its parts.
proof fn lemma_shape_parts(
    sign: Seq<char>,
    ta: Seq<char>,
    tb: Seq<char>,
    rest: Seq<char>,
)
    ensures
        ("("@ + ta + sign + tb + ")"@) + rest == "("@ + (ta + (sign + (tb + (")"@ + rest)))),
{
    let p = "("@;
    let c = ")"@;
    lemma_join(p + ta + sign + tb, c, rest);
    lemma_join(p + ta + sign, tb, c + rest);
    lemma_join(p + ta, sign, tb + (c + rest));
    lemma_join(p, ta, sign + (tb + (c + rest)));
}

/// The text of a type of two types, followed by `rest`, in its parts.
proof fn lemma_shape_text(q: Qual, star: bool, a: TypeExpr, b: TypeExpr, rest: Seq<char>)
    ensures
        ({
            let t = TypeExpr {
                qual: q,
                prim: if star {
                    PrimType::Pair(Box::new(a), Box::new(b))
                } else {
                    PrimType::Arrow(Box::new(a), Box::new(b))
                },
            };
            let sign = if star {
                " * "@
            } else {
                " -> "@
            };
            type_text(t) + rest == qual_text(q) + (" "@ + ("("@ + (type_text(a) + (sign + (
            type_text(b) + (")"@ + rest))))))
        }),
{
    let ta = type_text(a);
    let tb = type_text(b);
    let sign = if star {
        " * "@
    } else {
        " -> "@
    };
    let shape = "("@ + ta + sign + tb + ")"@;
    if star {
        let t = TypeExpr { qual: q, prim: PrimType::Pair(Box::new(a), Box::new(b)) };
        assert(type_text(t) == qual_text(q) + " "@ + shape);
    } else {
        let t = TypeExpr { qual: q, prim: PrimType::Arrow(Box::new(a), Box::new(b)) };
        assert(type_text(t) == qual_text(q) + " "@ + shape);
    }
    lemma_shape_parts(sign, ta, tb, rest);
    lemma_join(qual_text(q) + " "@, shape, rest);
    lemma_join(qual_text(q), " "@, shape + rest);
}

/// The grammar reads a type back from its text: from the text of `t`
/// followed by `rest`, which begins with no letter, it reads `t` and leaves
/// `rest`.
pub proof fn lemma_type_text_reads_back(t: TypeExpr, rest: Seq<char>)
    requires
        rest.len() == 0 || !is_letter(rest[0]),
    ensures
        ty(type_text(t) + rest) == Ok::<(Seq<char>, TypeExpr), Stop>((rest, t)),
    decreases t, 1nat,
{
    match t.prim {
        PrimType::Bool => {
            lemma_bool_text_reads_back(t.qual, rest);
        },
        PrimType::Pair(a, b) => {
            lemma_shape_text(t.qual, true, *a, *b, rest);
            lemma_pair_text_reads_back(t, t.qual, true, *a, *b, rest);
        },
        PrimType::Arrow(a, b) => {
            lemma_shape_text(t.qual, false, *a, *b, rest);
            lemma_pair_text_reads_back(t, t.qual, false, *a, *b, rest);
        },
    }
}

/// `lemma_type_text_reads_back` for `bool`.
proof fn lemma_bool_text_reads_back(q: Qual, rest: Seq<char>)
    requires
        rest.len() == 0 || !is_letter(rest[0]),
    ensures
        ty(type_text(TypeExpr { qual: q, prim: PrimType::Bool }) + rest) == Ok::<
            (Seq<char>, TypeExpr),
            Stop,
        >((rest, TypeExpr { qual: q, prim: PrimType::Bool })),
{
    let t = TypeExpr { qual: q, prim: PrimType::Bool };
    let s2 = "bool"@ + rest;
    assert(type_text(t) + rest =~= qual_text(q) + (" "@ + s2));
    lemma_space_head(s2);
    lemma_qual_reads_back(q, " "@ + s2);
    lemma_bool_reads_back(rest);
}

/// `lemma_type_text_reads_back` for a type of the two types `a` and `b`,
/// which are parts of `whole`.
proof fn lemma_pair_text_reads_back(
    whole: TypeExpr,
    q: Qual,
    star: bool,
    a: TypeExpr,
    b: TypeExpr,
    rest: Seq<char>,
)
    requires
        decreases_to!(whole => a),
        decreases_to!(whole => b),
        rest.len() == 0 || !is_letter(rest[0]),
    ensures
        ({
            let sign = if star {
                " * "@
            } else {
                " -> "@
            };
            let s = qual_text(q) + (" "@ + ("("@ + (type_text(a) + (sign + (type_text(b) + (")"@
                + rest))))));
            ty(s) == Ok::<(Seq<char>, TypeExpr), Stop>(
                (
                    rest,
                    TypeExpr {
                        qual: q,
                        prim: if star {
                            PrimType::Pair(Box::new(a), Box::new(b))
                        } else {
                            PrimType::Arrow(Box::new(a), Box::new(b))
                        },
                    },
                ),
            )
        }),
    decreases whole, 0nat,
{
    let sign = if star {
        " * "@
    } else {
        " -> "@
    };
    let last = ")"@ + rest;
    let y = type_text(b) + last;
    let x = sign + y;
    let s3 = type_text(a) + x;
    let s2 = "("@ + s3;
    lemma_space_head(s2);
    lemma_qual_reads_back(q, " "@ + s2);
    lemma_type_text_head(a);
    lemma_type_text_head(b);
    lemma_opening(s3);
    lemma_sign_head(star, y);
    lemma_type_text_reads_back(a, x);
    lemma_sign(star, y);
    lemma_closing_head(rest);
    lemma_type_text_reads_back(b, last);
    lemma_closing(rest);
}

} // verus!
