//! The typing rules, as a function from a term and an environment to a
//! verdict and the environment that the derivation leaves behind.

use crate::ast::{PrimType, Qual, Term, TypeExpr};
use crate::scope::{frame_at, leftover, Level, Scopes};
use vstd::prelude::*;

verus! {

/// Why a term has no type.
pub enum Fault {
    /// The variable is not bound, or its linear binding was used already.
    UnboundOrConsumedVariable(Seq<char>),
    /// A scope ended while this linear binding was still available.
    UnusedLinearAtScopeExit(Seq<char>),
    /// An unrestricted pair with a linear component; the component types.
    QualifierMismatchInPair(TypeExpr, TypeExpr),
    /// `free` of a name that is not an available linear binding.
    InvalidFree(Seq<char>),
    /// The condition of an `if` has this type, which is not a `bool`.
    NonBooleanCondition(TypeExpr),
    /// The branches of an `if` differ in their type or in what they consume;
    /// the types of the `then` and of the `else` branch.
    BranchMismatch(TypeExpr, TypeExpr),
    /// `split` of a value of this type, which is not a pair.
    NotAPair(TypeExpr),
    /// Application of a value of this type, which is not a function.
    NotAFunction(TypeExpr),
    /// The parameter type of the function and the type of the argument.
    ArgumentTypeMismatch(TypeExpr, TypeExpr),
    /// The declared type of a `let` and the type of the bound expression.
    LetTypeMismatch(TypeExpr, TypeExpr),
    /// Scopes are nested more deeply than the depth counter can count.
    ScopeDepthOverflow,
}

/// How a derivation ends.
pub enum Verdict {
    /// The term has this type.
    Typed(TypeExpr),
    /// The term violates a rule.
    Rejected(Fault),
    /// A name was looked up that both stacks bind at the same depth. The rules
    /// say nothing about such a lookup.
    Ambiguous,
}

/// The end of a derivation: the verdict and the environment left behind.
pub struct Outcome {
    pub verdict: Verdict,
    pub env: Scopes,
}

/// The type `q bool`.
pub open spec fn bool_type(q: Qual) -> TypeExpr {
    TypeExpr { qual: q, prim: PrimType::Bool }
}

/// The type `q (a * b)`.
pub open spec fn pair_type(q: Qual, a: TypeExpr, b: TypeExpr) -> TypeExpr {
    TypeExpr { qual: q, prim: PrimType::Pair(Box::new(a), Box::new(b)) }
}

/// The type `q (a -> b)`.
pub open spec fn arrow_type(q: Qual, a: TypeExpr, b: TypeExpr) -> TypeExpr {
    TypeExpr { qual: q, prim: PrimType::Arrow(Box::new(a), Box::new(b)) }
}

/// A reference to the variable `x`: an available binding yields its type, and
/// a linear one is consumed by that.
pub open spec fn judge_var(x: Seq<char>, env: Scopes) -> Outcome {
    let hit = env.resolve(x);
    if hit is Ambiguous {
        Outcome { verdict: Verdict::Ambiguous, env }
    } else {
        match env.cell(hit) {
            Some(ty) => Outcome {
                verdict: Verdict::Typed(ty),
                env: if ty.qual == Qual::Lin {
                    env.with_cell(hit, None)
                } else {
                    env
                },
            },
            None => Outcome {
                verdict: Verdict::Rejected(Fault::UnboundOrConsumedVariable(x)),
                env,
            },
        }
    }
}

/// A pair with qualifier `q` of components of types `a` and `b`.
pub open spec fn judge_pair(q: Qual, a: TypeExpr, b: TypeExpr, env: Scopes) -> Outcome {
    if q == Qual::Un && (a.qual == Qual::Lin || b.qual == Qual::Lin) {
        Outcome { verdict: Verdict::Rejected(Fault::QualifierMismatchInPair(a, b)), env }
    } else {
        Outcome { verdict: Verdict::Typed(pair_type(q, a, b)), env }
    }
}

/// The environment in which the body of a function literal with qualifier
/// `q` is typed: an unrestricted function sees no linear binding of its
/// surroundings.
pub open spec fn veiled(q: Qual, env: Scopes) -> Scopes {
    if q == Qual::Un {
        Scopes { lin: Seq::empty(), un: env.un }
    } else {
        env
    }
}

/// The environment after a function literal with qualifier `q`: the linear
/// stack `saved` before an unrestricted function is back in place.
pub open spec fn unveiled(q: Qual, saved: Seq<Level>, env: Scopes) -> Scopes {
    if q == Qual::Un {
        Scopes { lin: saved, un: env.un }
    } else {
        env
    }
}

/// The end of the scope of depth `depth` after its body ended in `body`: the
/// frames of that depth are removed, and a linear binding that is still
/// available in the removed frame rejects the term.
pub open spec fn leave(body: Outcome, depth: usize) -> Outcome {
    match body.verdict {
        Verdict::Typed(ty) => {
            let env = body.env.pop(depth);
            let left = match frame_at(body.env.lin, depth) {
                Some(slots) => leftover(slots),
                None => None,
            };
            match left {
                Some(name) => Outcome {
                    verdict: Verdict::Rejected(Fault::UnusedLinearAtScopeExit(name)),
                    env,
                },
                None => Outcome { verdict: Verdict::Typed(ty), env },
            }
        },
        _ => body,
    }
}

/// The typing rules. `depth` is the depth of the innermost open scope.
pub open spec fn judge(t: Term, env: Scopes, depth: usize) -> Outcome
    decreases t,
{
    match t {
        Term::Var(x) => judge_var(x, env),
        Term::Bool(q, _) => Outcome { verdict: Verdict::Typed(bool_type(q)), env },
        Term::Pair(q, a, b) => {
            let first = judge(*a, env, depth);
            match first.verdict {
                Verdict::Typed(ta) => {
                    let second = judge(*b, first.env, depth);
                    match second.verdict {
                        Verdict::Typed(tb) => judge_pair(q, ta, tb, second.env),
                        _ => second,
                    }
                },
                _ => first,
            }
        },
        Term::Fun(q, x, ty, body) => {
            let inner = veiled(q, env);
            if depth == usize::MAX {
                Outcome { verdict: Verdict::Rejected(Fault::ScopeDepthOverflow), env: inner }
            } else {
                let d = (depth + 1) as usize;
                let end = leave(judge(*body, inner.push(d).insert(x, ty), d), d);
                match end.verdict {
                    Verdict::Typed(tb) => Outcome {
                        verdict: Verdict::Typed(arrow_type(q, ty, tb)),
                        env: unveiled(q, env.lin, end.env),
                    },
                    _ => end,
                }
            }
        },
        Term::App(f, a) => {
            let first = judge(*f, env, depth);
            match first.verdict {
                Verdict::Typed(tf) => match tf.prim {
                    PrimType::Arrow(param, ret) => {
                        let second = judge(*a, first.env, depth);
                        match second.verdict {
                            Verdict::Typed(ta) => if ta == *param {
                                Outcome { verdict: Verdict::Typed(*ret), env: second.env }
                            } else {
                                Outcome {
                                    verdict: Verdict::Rejected(
                                        Fault::ArgumentTypeMismatch(*param, ta),
                                    ),
                                    env: second.env,
                                }
                            },
                            _ => second,
                        }
                    },
                    _ => Outcome {
                        verdict: Verdict::Rejected(Fault::NotAFunction(tf)),
                        env: first.env,
                    },
                },
                _ => first,
            }
        },
        Term::Free(x, rest) => {
            let hit = env.resolve(x);
            if hit is Ambiguous {
                Outcome { verdict: Verdict::Ambiguous, env }
            } else {
                match env.cell(hit) {
                    Some(ty) if ty.qual == Qual::Lin => judge(
                        *rest,
                        env.with_cell(hit, None),
                        depth,
                    ),
                    _ => Outcome { verdict: Verdict::Rejected(Fault::InvalidFree(x)), env },
                }
            }
        },
        Term::If(c, a, b) => {
            let cond = judge(*c, env, depth);
            match cond.verdict {
                Verdict::Typed(tc) => if tc.prim is Bool {
                    let first = judge(*a, cond.env, depth);
                    match first.verdict {
                        Verdict::Typed(ta) => {
                            let second = judge(*b, cond.env, depth);
                            match second.verdict {
                                Verdict::Typed(tb) => if ta == tb && first.env == second.env {
                                    Outcome { verdict: Verdict::Typed(ta), env: first.env }
                                } else {
                                    Outcome {
                                        verdict: Verdict::Rejected(Fault::BranchMismatch(ta, tb)),
                                        env: first.env,
                                    }
                                },
                                other => Outcome { verdict: other, env: first.env },
                            }
                        },
                        _ => first,
                    }
                } else {
                    Outcome {
                        verdict: Verdict::Rejected(Fault::NonBooleanCondition(tc)),
                        env: cond.env,
                    }
                },
                _ => cond,
            }
        },
        Term::Split(s, l, r, body) => {
            let pair = judge(*s, env, depth);
            match pair.verdict {
                Verdict::Typed(tp) => match tp.prim {
                    PrimType::Pair(tl, tr) => if depth == usize::MAX {
                        Outcome {
                            verdict: Verdict::Rejected(Fault::ScopeDepthOverflow),
                            env: pair.env,
                        }
                    } else {
                        let d = (depth + 1) as usize;
                        leave(judge(*body, pair.env.push(d).insert(l, *tl).insert(r, *tr), d), d)
                    },
                    _ => Outcome {
                        verdict: Verdict::Rejected(Fault::NotAPair(tp)),
                        env: pair.env,
                    },
                },
                _ => pair,
            }
        },
        Term::Let(x, ty, e, body) => {
            let first = judge(*e, env, depth);
            match first.verdict {
                Verdict::Typed(te) => if te != ty {
                    Outcome {
                        verdict: Verdict::Rejected(Fault::LetTypeMismatch(ty, te)),
                        env: first.env,
                    }
                } else if depth == usize::MAX {
                    Outcome {
                        verdict: Verdict::Rejected(Fault::ScopeDepthOverflow),
                        env: first.env,
                    }
                } else {
                    let d = (depth + 1) as usize;
                    leave(judge(*body, first.env.push(d).insert(x, ty), d), d)
                },
                _ => first,
            }
        },
    }
}

} // verus!
