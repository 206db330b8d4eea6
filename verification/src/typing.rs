//! Type assignment: one function per kind of expression, each proved to
//! follow the typing rules.

use crate::ast::{
    qualified, AppExpr, Expr, FreeExpr, IfExpr, LetExpr, PrimType, QValExpr, Qual, SplitExpr, Term,
    TypeExpr, ValExpr,
};
use crate::env::{first_unconsumed, lemma_touched_at, TypeEnv};
use crate::laws::law_unrestricted_function_captures_no_linear_binding;
use crate::linearity::{disciplined, lemma_disciplined};
use crate::order::{
    advances, lemma_advances_orderly, lemma_apart_tidy, lemma_enter_two, lemma_insert_opened,
    lemma_judge_advances, lemma_push_opened, lemma_var_advances, orderly, tidy,
};
use crate::rules::{judge, judge_var, leave, veiled, Fault, Outcome, Verdict};
use crate::scope::{
    find, in_range, lemma_resolve_in_range, lemma_with_cell_same, lemma_with_cell_wf, Hit, Scopes,
};
use vstd::prelude::*;

verus! {

/// Why an expression was rejected.
#[derive(Debug, PartialEq, Eq)]
pub enum TypingError {
    /// The variable is not bound, or its linear binding was used already.
    UnboundOrConsumedVariable(String),
    /// A scope ended while this linear binding was still available.
    UnusedLinearAtScopeExit(String),
    /// An unrestricted pair with a linear component; the component types.
    QualifierMismatchInPair(TypeExpr, TypeExpr),
    /// `free` of a name that is not an available linear binding.
    InvalidFree(String),
    /// The condition of an `if` has this type, which is not a `bool`.
    NonBooleanCondition(TypeExpr),
    /// The branches of an `if` differ in their type or in what they consume;
    /// the types of the `then` and of the `else` branch.
    BranchMismatch(TypeExpr, TypeExpr),
    /// `split` of a value of this type, which is not a pair.
    NotAPair(TypeExpr),
    /// Application of a value of this type, which is not a function.
    NotAFunction(TypeExpr),
    /// The parameter type of the function and the type of the argument.
    ArgumentTypeMismatch(TypeExpr, TypeExpr),
    /// The declared type of a `let` and the type of the bound expression.
    LetTypeMismatch(TypeExpr, TypeExpr),
    /// Scopes are nested more deeply than the depth counter can count.
    ScopeDepthOverflow,
}

impl View for TypingError {
    type V = Fault;

    open spec fn view(&self) -> Fault {
        match self {
            TypingError::UnboundOrConsumedVariable(x) => Fault::UnboundOrConsumedVariable(x@),
            TypingError::UnusedLinearAtScopeExit(x) => Fault::UnusedLinearAtScopeExit(x@),
            TypingError::QualifierMismatchInPair(a, b) => Fault::QualifierMismatchInPair(*a, *b),
            TypingError::InvalidFree(x) => Fault::InvalidFree(x@),
            TypingError::NonBooleanCondition(t) => Fault::NonBooleanCondition(*t),
            TypingError::BranchMismatch(a, b) => Fault::BranchMismatch(*a, *b),
            TypingError::NotAPair(t) => Fault::NotAPair(*t),
            TypingError::NotAFunction(t) => Fault::NotAFunction(*t),
            TypingError::ArgumentTypeMismatch(a, b) => Fault::ArgumentTypeMismatch(*a, *b),
            TypingError::LetTypeMismatch(a, b) => Fault::LetTypeMismatch(*a, *b),
            TypingError::ScopeDepthOverflow => Fault::ScopeDepthOverflow,
        }
    }
}

impl Clone for TypingError {
    fn clone(&self) -> (r: Self)
        ensures
            r@ == self@,
    {
        match self {
            TypingError::UnboundOrConsumedVariable(x) => TypingError::UnboundOrConsumedVariable(
                x.clone(),
            ),
            TypingError::UnusedLinearAtScopeExit(x) => TypingError::UnusedLinearAtScopeExit(
                x.clone(),
            ),
            TypingError::QualifierMismatchInPair(a, b) => TypingError::QualifierMismatchInPair(
                a.clone(),
                b.clone(),
            ),
            TypingError::InvalidFree(x) => TypingError::InvalidFree(x.clone()),
            TypingError::NonBooleanCondition(t) => TypingError::NonBooleanCondition(t.clone()),
            TypingError::BranchMismatch(a, b) => TypingError::BranchMismatch(a.clone(), b.clone()),
            TypingError::NotAPair(t) => TypingError::NotAPair(t.clone()),
            TypingError::NotAFunction(t) => TypingError::NotAFunction(t.clone()),
            TypingError::ArgumentTypeMismatch(a, b) => TypingError::ArgumentTypeMismatch(
                a.clone(),
                b.clone(),
            ),
            TypingError::LetTypeMismatch(a, b) => TypingError::LetTypeMismatch(
                a.clone(),
                b.clone(),
            ),
            TypingError::ScopeDepthOverflow => TypingError::ScopeDepthOverflow,
        }
    }
}

/// The term is an unrestricted function literal.
pub open spec fn unrestricted_function(t: Term) -> bool {
    match t {
        Term::Fun(q, _, _, _) => q == Qual::Un,
        _ => false,
    }
}

/// The result says what the verdict of the rules says.
pub open spec fn agrees(res: Result<TypeExpr, TypingError>, verdict: Verdict) -> bool {
    match res {
        Ok(ty) => verdict == Verdict::Typed(ty),
        Err(e) => verdict == Verdict::Rejected(e@),
    }
}

/// Assigns a type to `expr` in the environment `env`, where `depth` is the
/// depth of the innermost open scope, and records in `env` which linear
/// bindings the expression consumes. The result and the environment are
/// those of the typing rules; after a rejection the environment is the one
/// in which the violated rule was found.
///
/// Where the expression is accepted in an orderly environment, and no
/// `split` has given one name to both components of a pair with a linear
/// component, the expression has done nothing to the environment but consume
/// linear bindings, and every scope of the expression has used each of its
/// linear variables exactly once; and where the expression is an
/// unrestricted function literal, it refers to no variable that the
/// environment binds as a linear variable only. An unrestricted pair that is
/// accepted has unrestricted components only. Both branches of a conditional
/// that is accepted have its type and leave the same environment behind.
///
/// The derivation must not look up a name that both stacks bind at one
/// depth. It never does from an environment that is orderly at `depth` for an
/// expression in which no `split` gives one name to both components
/// (`lemma_apart_tidy`, `lemma_judge_advances`), nor for one whose derivation
/// `is_tidy`; `typing_program` tests that itself.
#[verifier::rlimit(50)]
pub fn typing(expr: &Expr, env: &mut TypeEnv, depth: usize) -> (res: Result<
    TypeExpr,
    TypingError,
>)
    requires
        old(env).wf(),
        !(judge(expr@, old(env)@, depth).verdict is Ambiguous),
    ensures
        agrees(res, judge(expr@, old(env)@, depth).verdict),
        final(env)@ == judge(expr@, old(env)@, depth).env,
        final(env).wf(),
        res is Ok && orderly(old(env)@, depth) && tidy(expr@, old(env)@, depth) ==> advances(
            old(env)@,
            final(env)@,
        ) && orderly(final(env)@, depth) && disciplined(expr@, old(env)@, depth),
        res is Ok && orderly(old(env)@, depth) && tidy(expr@, old(env)@, depth)
            && unrestricted_function(expr@) ==> forall|y: Seq<char>|
            find(old(env)@.un, y) is None ==> !(#[trigger] expr@.mentions(y)),
        res matches Ok(t) ==> match expr@ {
            Term::Pair(q, _, _) => q == Qual::Un ==> match t.prim {
                PrimType::Pair(a, b) => a.qual == Qual::Un && b.qual == Qual::Un,
                _ => false,
            },
            Term::If(c, a, b) => {
                let cond = judge(*c, old(env)@, depth);
                let first = judge(*a, cond.env, depth);
                let second = judge(*b, cond.env, depth);
                &&& first.verdict == Verdict::Typed(t)
                &&& second.verdict == Verdict::Typed(t)
                &&& first.env == second.env
                &&& final(env)@ == first.env
            },
            _ => true,
        },
    decreases expr,
{
    proof {
        if orderly(env@, depth) && tidy(expr@, env@, depth) && judge(expr@, env@, depth).verdict
            is Typed {
            lemma_judge_advances(expr@, env@, depth);
            lemma_disciplined(expr@, env@, depth);
            match expr@ {
                Term::Fun(q, x, ty, body) => {
                    if q == Qual::Un {
                        assert forall|y: Seq<char>| find(env@.un, y) is None implies !(
                        #[trigger] expr@.mentions(y)) by {
                            law_unrestricted_function_captures_no_linear_binding(
                                x,
                                ty,
                                *body,
                                y,
                                env@,
                                depth,
                            );
                        }
                    }
                },
                _ => {},
            }
        }
    }
    match expr {
        Expr::App(e) => typing_app(e, env, depth),
        Expr::QVal(e) => typing_qval(e, env, depth),
        Expr::Free(e) => typing_free(e, env, depth),
        Expr::If(e) => typing_if(e, env, depth),
        Expr::Split(e) => typing_split(e, env, depth),
        Expr::Var(e) => typing_var(e.as_str(), env),
        Expr::Let(e) => typing_let(e, env, depth),
    }
}

/// Whether the derivation of `expr` from `env` is tidy: whether no `split`
/// that it comes to gives one name to both components of a pair with a linear
/// component. The test follows the derivation on copies of the environment.
pub fn is_tidy(expr: &Expr, env: &TypeEnv, depth: usize) -> (r: bool)
    requires
        env.wf(),
        orderly(env@, depth),
    ensures
        r == tidy(expr@, env@, depth),
    decreases expr,
{
    match expr {
        Expr::Var(_) => true,
        Expr::QVal(e) => tidy_qval(e, env, depth),
        Expr::App(e) => tidy_app(e, env, depth),
        Expr::Let(e) => tidy_let(e, env, depth),
        Expr::Split(e) => tidy_split(e, env, depth),
        Expr::If(e) => tidy_if(e, env, depth),
        Expr::Free(e) => tidy_free(e, env, depth),
    }
}

/// `is_tidy` for a qualified value.
fn tidy_qval(v: &QValExpr, env: &TypeEnv, depth: usize) -> (r: bool)
    requires
        env.wf(),
        orderly(env@, depth),
    ensures
        r == tidy(v.term(), env@, depth),
    decreases v,
{
    assert(v.term() == qualified(v.qual, v.val.shape()));
    match &v.val {
        ValExpr::Bool(_) => true,
        ValExpr::Pair(a, b) => {
            if !is_tidy(a, env, depth) {
                return false;
            }
            let mut e = env.clone();
            proof {
                lemma_judge_advances(a@, env@, depth);
            }
            match typing(a, &mut e, depth) {
                Ok(_) => is_tidy(b, &e, depth),
                Err(_) => true,
            }
        },
        ValExpr::Fun(f) => {
            let mut e = env.clone();
            if v.qual == Qual::Un {
                let _ = e.take_linear_stack();
            }
            match depth.checked_add(1) {
                Some(d) => {
                    proof {
                        let inner = veiled(v.qual, env@);
                        assert(orderly(inner, depth));
                        lemma_push_opened(inner, depth);
                        lemma_insert_opened(
                            inner,
                            inner.push(d),
                            depth,
                            Set::empty(),
                            f.var@,
                            f.ty,
                        );
                    }
                    e.push(d);
                    e.insert(f.var.clone(), f.ty.clone());
                    is_tidy(&f.expr, &e, d)
                },
                None => true,
            }
        },
    }
}

/// `is_tidy` for an application.
fn tidy_app(a: &AppExpr, env: &TypeEnv, depth: usize) -> (r: bool)
    requires
        env.wf(),
        orderly(env@, depth),
    ensures
        r == tidy(a.term(), env@, depth),
    decreases a,
{
    if !is_tidy(&a.expr1, env, depth) {
        return false;
    }
    let mut e = env.clone();
    proof {
        lemma_judge_advances(a.expr1@, env@, depth);
    }
    match typing(&a.expr1, &mut e, depth) {
        Ok(_) => is_tidy(&a.expr2, &e, depth),
        Err(_) => true,
    }
}

/// `is_tidy` for a local binding.
fn tidy_let(l: &LetExpr, env: &TypeEnv, depth: usize) -> (r: bool)
    requires
        env.wf(),
        orderly(env@, depth),
    ensures
        r == tidy(l.term(), env@, depth),
    decreases l,
{
    if !is_tidy(&l.expr1, env, depth) {
        return false;
    }
    let mut e = env.clone();
    proof {
        lemma_judge_advances(l.expr1@, env@, depth);
    }
    match typing(&l.expr1, &mut e, depth) {
        Ok(_) => match depth.checked_add(1) {
            Some(d) => {
                proof {
                    lemma_push_opened(e@, depth);
                    lemma_insert_opened(e@, e@.push(d), depth, Set::empty(), l.var@, l.ty);
                }
                e.push(d);
                e.insert(l.var.clone(), l.ty.clone());
                is_tidy(&l.expr2, &e, d)
            },
            None => true,
        },
        Err(_) => true,
    }
}

/// `is_tidy` for the elimination of a pair.
fn tidy_split(s: &SplitExpr, env: &TypeEnv, depth: usize) -> (r: bool)
    requires
        env.wf(),
        orderly(env@, depth),
    ensures
        r == tidy(s.term(), env@, depth),
    decreases s,
{
    if !is_tidy(&s.expr, env, depth) {
        return false;
    }
    let mut e = env.clone();
    proof {
        lemma_judge_advances(s.expr@, env@, depth);
    }
    match typing(&s.expr, &mut e, depth) {
        Ok(t) => match t.prim {
            PrimType::Pair(p1, p2) => match depth.checked_add(1) {
                Some(d) => {
                    if s.left == s.right && (p1.qual == Qual::Lin || p2.qual
                        == Qual::Lin) {
                        return false;
                    }
                    proof {
                        lemma_enter_two(e@, depth, s.left@, *p1, s.right@, *p2);
                    }
                    e.push(d);
                    e.insert(s.left.clone(), *p1);
                    e.insert(s.right.clone(), *p2);
                    is_tidy(&s.body, &e, d)
                },
                None => true,
            },
            _ => true,
        },
        Err(_) => true,
    }
}

/// `is_tidy` for a conditional.
fn tidy_if(c: &IfExpr, env: &TypeEnv, depth: usize) -> (r: bool)
    requires
        env.wf(),
        orderly(env@, depth),
    ensures
        r == tidy(c.term(), env@, depth),
    decreases c,
{
    if !is_tidy(&c.cond_expr, env, depth) {
        return false;
    }
    let mut e = env.clone();
    proof {
        lemma_judge_advances(c.cond_expr@, env@, depth);
    }
    match typing(&c.cond_expr, &mut e, depth) {
        Ok(_) => is_tidy(&c.then_expr, &e, depth) && is_tidy(&c.else_expr, &e, depth),
        Err(_) => true,
    }
}

/// `is_tidy` for a disposal.
fn tidy_free(f: &FreeExpr, env: &TypeEnv, depth: usize) -> (r: bool)
    requires
        env.wf(),
        orderly(env@, depth),
    ensures
        r == tidy(f.term(), env@, depth),
    decreases f,
{
    let mut e = env.clone();
    let ghost hit = env@.resolve(f.var@);
    proof {
        lemma_var_advances(f.var@, env@, depth);
        lemma_cell_wf(env@, hit, None);
    }
    let mut freed = false;
    if let Some(it) = e.get_mut(f.var.as_str()) {
        let linear = match it {
            Some(t) => t.qual == Qual::Lin,
            None => false,
        };
        if linear {
            *it = None;
            freed = true;
        }
    }
    if freed {
        proof {
            lemma_touched_at(env@, e@, hit, None);
            lemma_advances_orderly(env@, e@, depth);
        }
        is_tidy(&f.expr, &e, depth)
    } else {
        true
    }
}

/// Assigns a type to a whole program: to `expr` in an environment without
/// frames. In a program that is accepted, every scope uses each of its linear
/// variables exactly once. A program that comes to a `split` which gives one
/// name to both components of a pair with a linear component is not typed,
/// and the result is `None`: one of the two components would be lost.
pub fn typing_program(expr: &Expr) -> (res: Option<Result<TypeExpr, TypingError>>)
    ensures
        res is Some <==> tidy(expr@, Scopes::empty(), 0),
        res matches Some(r) ==> agrees(r, judge(expr@, Scopes::empty(), 0).verdict),
        res matches Some(Ok(_)) ==> disciplined(expr@, Scopes::empty(), 0),
{
    let mut env = TypeEnv::new();
    proof {
        if expr@.binds_apart() {
            lemma_apart_tidy(expr@, Scopes::empty(), 0);
        }
    }
    // Splits that name their components apart are tidy whatever the types.
    if !(expr.binds_apart() || is_tidy(expr, &env, 0)) {
        return None;
    }
    proof {
        lemma_judge_advances(expr@, Scopes::empty(), 0);
    }
    Some(typing(expr, &mut env, 0))
}

/// Ends the scope of depth `depth`: removes its frames and rejects a linear
/// binding that is still available in them.
fn leave_scope(env: &mut TypeEnv, depth: usize, ty: TypeExpr) -> (res: Result<
    TypeExpr,
    TypingError,
>)
    requires
        old(env).wf(),
    ensures
        agrees(res, leave(Outcome { verdict: Verdict::Typed(ty), env: old(env)@ }, depth).verdict),
        final(env)@ == leave(Outcome { verdict: Verdict::Typed(ty), env: old(env)@ }, depth).env,
        final(env).wf(),
{
    let (elin, _) = env.pop(depth);
    match elin {
        Some(frame) => match first_unconsumed(&frame) {
            Some(name) => Err(TypingError::UnusedLinearAtScopeExit(name)),
            None => Ok(ty),
        },
        None => Ok(ty),
    }
}

/// Function application.
fn typing_app(expr: &AppExpr, env: &mut TypeEnv, depth: usize) -> (res: Result<
    TypeExpr,
    TypingError,
>)
    requires
        old(env).wf(),
        !(judge(expr.term(), old(env)@, depth).verdict is Ambiguous),
    ensures
        agrees(res, judge(expr.term(), old(env)@, depth).verdict),
        final(env)@ == judge(expr.term(), old(env)@, depth).env,
        final(env).wf(),
    decreases expr,
{
    let t1 = typing(&expr.expr1, env, depth)?;
    match t1.prim {
        PrimType::Arrow(param, ret) => {
            let t2 = typing(&expr.expr2, env, depth)?;
            if t2 == *param {
                Ok(*ret)
            } else {
                Err(TypingError::ArgumentTypeMismatch(*param, t2))
            }
        },
        prim => Err(TypingError::NotAFunction(TypeExpr { qual: t1.qual, prim })),
    }
}

/// A qualified value. An unrestricted pair that is accepted has
/// unrestricted components only, and an unrestricted function that is
/// accepted refers to no variable that its surroundings bind as a linear
/// variable only.
#[verifier::rlimit(50)]
fn typing_qval(expr: &QValExpr, env: &mut TypeEnv, depth: usize) -> (res: Result<
    TypeExpr,
    TypingError,
>)
    requires
        old(env).wf(),
        !(judge(expr.term(), old(env)@, depth).verdict is Ambiguous),
    ensures
        agrees(res, judge(expr.term(), old(env)@, depth).verdict),
        final(env)@ == judge(expr.term(), old(env)@, depth).env,
        final(env).wf(),
        res matches Ok(t) ==> (expr.qual == Qual::Un && expr.val is Pair ==> match t.prim {
            PrimType::Pair(a, b) => a.qual == Qual::Un && b.qual == Qual::Un,
            _ => false,
        }),
        res is Ok && expr.qual == Qual::Un && expr.val is Fun && orderly(old(env)@, depth) && tidy(
            expr.term(),
            old(env)@,
            depth,
        ) ==> forall|y: Seq<char>|
            find(old(env)@.un, y) is None ==> !(#[trigger] expr.term().mentions(y)),
    decreases expr,
{
    proof {
        assert(expr.term() == qualified(expr.qual, expr.val.shape()));
        if judge(expr.term(), env@, depth).verdict is Typed && expr.qual == Qual::Un
            && orderly(env@, depth) && tidy(expr.term(), env@, depth) {
            match &expr.val {
                ValExpr::Fun(f) => {
                    assert forall|y: Seq<char>| find(env@.un, y) is None implies !(
                    #[trigger] expr.term().mentions(y)) by {
                        law_unrestricted_function_captures_no_linear_binding(
                            f.var@,
                            f.ty,
                            f.expr.term(),
                            y,
                            env@,
                            depth,
                        );
                    }
                },
                _ => {},
            }
        }
    }
    let p = match &expr.val {
        ValExpr::Bool(_) => PrimType::Bool,
        ValExpr::Pair(e1, e2) => {
            let t1 = typing(e1, env, depth)?;
            let t2 = typing(e2, env, depth)?;
            if expr.qual == Qual::Un && (t1.qual == Qual::Lin || t2.qual == Qual::Lin) {
                return Err(TypingError::QualifierMismatchInPair(t1, t2));
            }
            PrimType::Pair(Box::new(t1), Box::new(t2))
        },
        ValExpr::Fun(e) => {
            // An unrestricted function must not capture a linear binding, so
            // its body is checked without the linear stack.
            let env_prev = if expr.qual == Qual::Un {
                Some(env.take_linear_stack())
            } else {
                None
            };
            let depth: usize = match depth.checked_add(1) {
                Some(d) => d,
                None => {
                    return Err(TypingError::ScopeDepthOverflow);
                },
            };
            env.push(depth);
            env.insert(e.var.clone(), e.ty.clone());
            let t = typing(&e.expr, env, depth)?;
            let t = leave_scope(env, depth, t)?;
            if let Some(ep) = env_prev {
                env.restore_linear_stack(ep);
            }
            PrimType::Arrow(Box::new(e.ty.clone()), Box::new(t))
        },
    };
    Ok(TypeExpr { qual: expr.qual, prim: p })
}

/// Explicit disposal of a linear binding.
fn typing_free(expr: &FreeExpr, env: &mut TypeEnv, depth: usize) -> (res: Result<
    TypeExpr,
    TypingError,
>)
    requires
        old(env).wf(),
        !(judge(expr.term(), old(env)@, depth).verdict is Ambiguous),
    ensures
        agrees(res, judge(expr.term(), old(env)@, depth).verdict),
        final(env)@ == judge(expr.term(), old(env)@, depth).env,
        final(env).wf(),
    decreases expr,
{
    let ghost hit = env@.resolve(expr.var@);
    proof {
        lemma_resolve_in_range(env@, expr.var@);
    }
    let mut freed = false;
    if let Some(it) = env.get_mut(expr.var.as_str()) {
        let linear = match it {
            Some(t) => t.qual == Qual::Lin,
            None => false,
        };
        if linear {
            *it = None;
            freed = true;
        }
    }
    proof {
        if freed {
            lemma_touched_at(old(env)@, env@, hit, None);
        } else {
            lemma_touched_at(old(env)@, env@, hit, old(env)@.cell(hit));
            lemma_cell_kept(old(env)@, hit);
        }
        lemma_cell_wf(old(env)@, hit, None);
    }
    if freed {
        typing(&expr.expr, env, depth)
    } else {
        Err(TypingError::InvalidFree(expr.var.clone()))
    }
}

/// A conditional. Where it is accepted, both branches have its type and
/// leave the same environment behind, from the one behind the condition.
#[verifier::rlimit(50)]
fn typing_if(expr: &IfExpr, env: &mut TypeEnv, depth: usize) -> (res: Result<
    TypeExpr,
    TypingError,
>)
    requires
        old(env).wf(),
        !(judge(expr.term(), old(env)@, depth).verdict is Ambiguous),
    ensures
        agrees(res, judge(expr.term(), old(env)@, depth).verdict),
        final(env)@ == judge(expr.term(), old(env)@, depth).env,
        final(env).wf(),
        res matches Ok(t) ==> ({
            let cond = judge(expr.cond_expr@, old(env)@, depth);
            let first = judge(expr.then_expr@, cond.env, depth);
            let second = judge(expr.else_expr@, cond.env, depth);
            &&& first.verdict == Verdict::Typed(t)
            &&& second.verdict == Verdict::Typed(t)
            &&& first.env == second.env
            &&& final(env)@ == first.env
        }),
    decreases expr,
{
    let t1 = typing(&expr.cond_expr, env, depth)?;
    match t1.prim {
        PrimType::Bool => {},
        prim => {
            return Err(TypingError::NonBooleanCondition(TypeExpr { qual: t1.qual, prim }));
        },
    }
    // Exactly one branch runs: each is checked from the same environment,
    // the first on the environment itself and the second on a copy.
    let mut e = env.clone();
    let t2 = typing(&expr.then_expr, env, depth)?;
    let t3 = typing(&expr.else_expr, &mut e, depth)?;
    if t2 != t3 || e != *env {
        return Err(TypingError::BranchMismatch(t2, t3));
    }
    Ok(t2)
}

/// Elimination of a pair.
fn typing_split(expr: &SplitExpr, env: &mut TypeEnv, depth: usize) -> (res: Result<
    TypeExpr,
    TypingError,
>)
    requires
        old(env).wf(),
        !(judge(expr.term(), old(env)@, depth).verdict is Ambiguous),
    ensures
        agrees(res, judge(expr.term(), old(env)@, depth).verdict),
        final(env)@ == judge(expr.term(), old(env)@, depth).env,
        final(env).wf(),
    decreases expr,
{
    let t1 = typing(&expr.expr, env, depth)?;
    match t1.prim {
        PrimType::Pair(p1, p2) => {
            let depth: usize = match depth.checked_add(1) {
                Some(d) => d,
                None => {
                    return Err(TypingError::ScopeDepthOverflow);
                },
            };
            env.push(depth);
            env.insert(expr.left.clone(), *p1);
            env.insert(expr.right.clone(), *p2);
            let t = typing(&expr.body, env, depth)?;
            leave_scope(env, depth, t)
        },
        prim => Err(TypingError::NotAPair(TypeExpr { qual: t1.qual, prim })),
    }
}

/// Writing to the cell that `hit` points at what it holds changes nothing.
proof fn lemma_cell_kept(env: Scopes, hit: Hit)
    requires
        in_range(env, hit),
    ensures
        env.with_cell(hit, env.cell(hit)) == env,
{
    match hit {
        Hit::Lin(i, j) => lemma_with_cell_same(env.lin, i, j),
        Hit::Un(i, j) => lemma_with_cell_same(env.un, i, j),
        _ => {},
    }
}

/// Writing the cell that `hit` points at keeps the environment well formed.
proof fn lemma_cell_wf(env: Scopes, hit: Hit, cell: Option<TypeExpr>)
    requires
        env.wf(),
        in_range(env, hit),
    ensures
        env.with_cell(hit, cell).wf(),
{
    match hit {
        Hit::Lin(i, j) => lemma_with_cell_wf(env.lin, i, j, cell),
        Hit::Un(i, j) => lemma_with_cell_wf(env.un, i, j, cell),
        _ => {},
    }
}

/// A reference to a variable.
fn typing_var(expr: &str, env: &mut TypeEnv) -> (res: Result<TypeExpr, TypingError>)
    requires
        old(env).wf(),
        !(judge_var(expr@, old(env)@).verdict is Ambiguous),
    ensures
        agrees(res, judge_var(expr@, old(env)@).verdict),
        final(env)@ == judge_var(expr@, old(env)@).env,
        final(env).wf(),
{
    let ghost hit = env@.resolve(expr@);
    proof {
        lemma_resolve_in_range(env@, expr@);
        lemma_cell_wf(env@, hit, None);
        lemma_cell_kept(env@, hit);
    }
    let ret = env.get_mut(expr);
    if let Some(it) = ret {
        if let Some(t) = it {
            let eret = t.clone();
            if eret.qual == Qual::Lin {
                // A linear binding yields its value once.
                *it = None;
                proof {
                    lemma_touched_at(old(env)@, env@, hit, None);
                }
                return Ok(eret);
            } else {
                proof {
                    lemma_touched_at(old(env)@, env@, hit, old(env)@.cell(hit));
                }
                return Ok(eret);
            }
        }
        proof {
            lemma_touched_at(old(env)@, env@, hit, old(env)@.cell(hit));
        }
    }
    Err(TypingError::UnboundOrConsumedVariable(expr.to_owned()))
}

/// A local binding.
fn typing_let(expr: &LetExpr, env: &mut TypeEnv, depth: usize) -> (res: Result<
    TypeExpr,
    TypingError,
>)
    requires
        old(env).wf(),
        !(judge(expr.term(), old(env)@, depth).verdict is Ambiguous),
    ensures
        agrees(res, judge(expr.term(), old(env)@, depth).verdict),
        final(env)@ == judge(expr.term(), old(env)@, depth).env,
        final(env).wf(),
    decreases expr,
{
    let t1 = typing(&expr.expr1, env, depth)?;
    if t1 != expr.ty {
        return Err(TypingError::LetTypeMismatch(expr.ty.clone(), t1));
    }
    let depth: usize = match depth.checked_add(1) {
        Some(d) => d,
        None => {
            return Err(TypingError::ScopeDepthOverflow);
        },
    };
    env.push(depth);
    env.insert(expr.var.clone(), expr.ty.clone());
    let t = typing(&expr.expr2, env, depth)?;
    leave_scope(env, depth, t)
}

} // verus!
