//! What the typing rules guarantee.

use crate::ast::{PrimType, Qual, Term, TypeExpr};
use crate::linearity::{disciplined, lemma_disciplined, lemma_unbound_not_mentioned};
use crate::order::{
    advances, lemma_insert_opened, lemma_judge_advances, lemma_push_opened, orderly, tidy,
};
use crate::rules::{bool_type, judge, veiled, Fault, Outcome, Verdict};
use crate::scope::{find, lemma_slot_of_bounds, slot_of, Level, Scopes};
use vstd::prelude::*;

verus! {

/// The positions of the linear bindings that are available in `before` and
/// consumed in `after`.
pub open spec fn consumed_between(before: Scopes, after: Scopes) -> Set<(int, int)> {
    Set::new(
        |p: (int, int)|
            0 <= p.0 < before.lin.len() && 0 <= p.1 < before.lin[p.0].slots.len()
                && before.lin[p.0].slots[p.1].cell is Some && 0 <= p.0 < after.lin.len() && 0
                <= p.1 < after.lin[p.0].slots.len() && after.lin[p.0].slots[p.1].cell is None,
    )
}

/// Branch consistency: where an `if` has a type, both branches have that
/// type, both leave the same environment behind, and so both consume the same
/// linear bindings.
pub proof fn law_branches_agree(c: Term, a: Term, b: Term, env: Scopes, depth: usize)
    requires
        judge(Term::If(Box::new(c), Box::new(a), Box::new(b)), env, depth).verdict is Typed,
    ensures
        ({
            let whole = judge(Term::If(Box::new(c), Box::new(a), Box::new(b)), env, depth);
            let cond = judge(c, env, depth);
            let first = judge(a, cond.env, depth);
            let second = judge(b, cond.env, depth);
            &&& first.verdict == whole.verdict
            &&& second.verdict == whole.verdict
            &&& first.env == second.env
            &&& whole.env == first.env
            &&& consumed_between(cond.env, first.env) == consumed_between(cond.env, second.env)
        }),
{
}

/// Capture soundness: the verdict on an unrestricted function literal does
/// not depend on the linear bindings around it, and where the literal has a
/// type, those bindings are as they were.
pub proof fn law_unrestricted_function_ignores_linear_bindings(
    x: Seq<char>,
    ty: TypeExpr,
    body: Term,
    env: Scopes,
    other: Seq<Level>,
    depth: usize,
)
    ensures
        ({
            let f = Term::Fun(Qual::Un, x, ty, Box::new(body));
            let here = judge(f, env, depth);
            let there = judge(f, Scopes { lin: other, un: env.un }, depth);
            &&& here.verdict == there.verdict
            &&& here.verdict is Typed ==> here.env.lin == env.lin
        }),
{
}

/// Capture soundness: in the body of an unrestricted function literal, a
/// variable that the surroundings bind as a linear variable only is reported
/// as unbound.
pub proof fn law_unrestricted_function_hides_linear_bindings(
    x: Seq<char>,
    ty: TypeExpr,
    y: Seq<char>,
    env: Scopes,
    depth: usize,
)
    requires
        orderly(env, depth),
        depth < usize::MAX,
        x != y,
        find(env.un, y) is None,
    ensures
        judge(Term::Fun(Qual::Un, x, ty, Box::new(Term::Var(y))), env, depth).verdict
            == Verdict::Rejected(Fault::UnboundOrConsumedVariable(y)),
{
    let d = (depth + 1) as usize;
    let inner = veiled(Qual::Un, env);
    assert(orderly(inner, depth));
    lemma_push_opened(inner, depth);
    lemma_insert_opened(inner, inner.push(d), depth, Set::empty(), x, ty);
    let start = inner.push(d).insert(x, ty);
    lemma_slot_of_bounds(start.lin.last().slots, y);
    lemma_slot_of_bounds(start.un.last().slots, y);
    match slot_of(start.lin.last().slots, y) {
        Some(j) => {
            assert(Set::<Seq<char>>::empty().insert(x).contains(start.lin.last().slots[j].name));
        },
        None => {},
    }
    match slot_of(start.un.last().slots, y) {
        Some(j) => {
            assert(Set::<Seq<char>>::empty().insert(x).contains(start.un.last().slots[j].name));
        },
        None => {},
    }
    assert(slot_of(start.lin.last().slots, y) is None);
    assert(slot_of(start.un.last().slots, y) is None);
    assert(start.lin.drop_last() =~= Seq::<Level>::empty());
    assert(find(start.lin.drop_last(), y) is None);
    assert(find(start.lin, y) is None);
    assert(start.un.drop_last() == env.un);
    assert(find(start.un, y) is None);
    assert(start.resolve(y) is Missing);
    let inside = judge(Term::Var(y), start, d);
    assert(inside.verdict == Verdict::Rejected(Fault::UnboundOrConsumedVariable(y)));
}

/// Capture soundness, for every body: an unrestricted function literal that
/// has a type does not refer to a variable that its surroundings bind as a
/// linear variable only. A literal that does is rejected.
pub proof fn law_unrestricted_function_captures_no_linear_binding(
    x: Seq<char>,
    ty: TypeExpr,
    body: Term,
    y: Seq<char>,
    env: Scopes,
    depth: usize,
)
    requires
        orderly(env, depth),
        tidy(Term::Fun(Qual::Un, x, ty, Box::new(body)), env, depth),
        judge(Term::Fun(Qual::Un, x, ty, Box::new(body)), env, depth).verdict is Typed,
        find(env.un, y) is None,
    ensures
        !Term::Fun(Qual::Un, x, ty, Box::new(body)).mentions(y),
{
    let bare = Scopes { lin: Seq::empty(), un: env.un };
    assert(orderly(bare, depth));
    assert(find(bare.lin, y) is None);
    lemma_unbound_not_mentioned(Term::Fun(Qual::Un, x, ty, Box::new(body)), bare, depth, y);
}

/// Qualifier containment: where an unrestricted pair has a type, both
/// component types are unrestricted.
pub proof fn law_unrestricted_pair_has_unrestricted_components(
    a: Term,
    b: Term,
    env: Scopes,
    depth: usize,
)
    requires
        judge(Term::Pair(Qual::Un, Box::new(a), Box::new(b)), env, depth).verdict is Typed,
    ensures
        match judge(Term::Pair(Qual::Un, Box::new(a), Box::new(b)), env, depth).verdict {
            Verdict::Typed(ty) => ty.qual == Qual::Un && match ty.prim {
                PrimType::Pair(ta, tb) => ta.qual == Qual::Un && tb.qual == Qual::Un,
                _ => false,
            },
            _ => false,
        },
{
}

/// A truth value has the type `bool` under its own qualifier, whatever the
/// environment, and typing it leaves the environment as it is.
pub proof fn law_truth_values(q: Qual, b: bool, env: Scopes, depth: usize)
    ensures
        judge(Term::Bool(q, b), env, depth) == (Outcome {
            verdict: Verdict::Typed(bool_type(q)),
            env,
        }),
{
}

/// Linearity: in a program that has a type, every scope uses each linear
/// variable that it binds exactly once: the body of a `let` its variable, the
/// body of a function its parameter, the body of a `split` the names of the
/// linear components; and the branches of every `if` use the same linear
/// variables. This is stated of the programs that are `tidy`: a `split` that
/// gives one name to both components of a pair binds that name once and
/// loses a component, which is no loss only where both are unrestricted.
pub proof fn law_linear_bindings_are_used_once(t: Term)
    requires
        tidy(t, Scopes::empty(), 0),
        judge(t, Scopes::empty(), 0).verdict is Typed,
    ensures
        disciplined(t, Scopes::empty(), 0),
{
    lemma_disciplined(t, Scopes::empty(), 0);
}

/// Linearity for a `let` anywhere in a program: where it has a type and its
/// variable is linear, the body uses the variable exactly once.
pub proof fn law_let_uses_its_linear_variable_once(
    x: Seq<char>,
    ty: TypeExpr,
    e: Term,
    body: Term,
    env: Scopes,
    depth: usize,
)
    requires
        orderly(env, depth),
        tidy(Term::Let(x, ty, Box::new(e), Box::new(body)), env, depth),
        ty.qual == Qual::Lin,
        judge(Term::Let(x, ty, Box::new(e), Box::new(body)), env, depth).verdict is Typed,
    ensures
        body.uses(x) == 1,
{
    lemma_disciplined(Term::Let(x, ty, Box::new(e), Box::new(body)), env, depth);
}

/// Linearity for a function literal anywhere in a program: where it has a
/// type and its parameter is linear, the body uses the parameter exactly
/// once.
pub proof fn law_function_uses_its_linear_parameter_once(
    q: Qual,
    x: Seq<char>,
    ty: TypeExpr,
    body: Term,
    env: Scopes,
    depth: usize,
)
    requires
        orderly(env, depth),
        tidy(Term::Fun(q, x, ty, Box::new(body)), env, depth),
        ty.qual == Qual::Lin,
        judge(Term::Fun(q, x, ty, Box::new(body)), env, depth).verdict is Typed,
    ensures
        body.uses(x) == 1,
{
    lemma_disciplined(Term::Fun(q, x, ty, Box::new(body)), env, depth);
}

/// Linearity for a `split` anywhere in a program: where it has a type, the
/// body uses the name of each linear component exactly once.
pub proof fn law_split_uses_its_linear_components_once(
    s: Term,
    l: Seq<char>,
    r: Seq<char>,
    body: Term,
    env: Scopes,
    depth: usize,
)
    requires
        orderly(env, depth),
        tidy(Term::Split(Box::new(s), l, r, Box::new(body)), env, depth),
        judge(Term::Split(Box::new(s), l, r, Box::new(body)), env, depth).verdict is Typed,
    ensures
        match judge(s, env, depth).verdict {
            Verdict::Typed(tp) => match tp.prim {
                PrimType::Pair(tl, tr) => (tl.qual == Qual::Lin ==> body.uses(l) == 1) && (tr.qual
                    == Qual::Lin ==> body.uses(r) == 1),
                _ => false,
            },
            _ => false,
        },
{
    lemma_disciplined(Term::Split(Box::new(s), l, r, Box::new(body)), env, depth);
}

/// Branch consistency, counted on the terms: where an `if` has a type, its
/// branches use the same linear variables of their surroundings.
pub proof fn law_branches_use_the_same_variables(
    c: Term,
    a: Term,
    b: Term,
    env: Scopes,
    depth: usize,
    x: Seq<char>,
)
    requires
        orderly(env, depth),
        tidy(Term::If(Box::new(c), Box::new(a), Box::new(b)), env, depth),
        judge(Term::If(Box::new(c), Box::new(a), Box::new(b)), env, depth).verdict is Typed,
        judge(c, env, depth).env.resolve(x) is Lin,
    ensures
        a.uses(x) == b.uses(x),
{
    lemma_disciplined(Term::If(Box::new(c), Box::new(a), Box::new(b)), env, depth);
}

/// Linearity, in terms of the environment: a derivation that ends with a
/// type has consumed some linear bindings and changed nothing else. A binding
/// that is consumed stays consumed; no binding appears, disappears or changes
/// its type.
pub proof fn law_bindings_are_only_consumed(t: Term, env: Scopes, depth: usize)
    requires
        orderly(env, depth),
        tidy(t, env, depth),
        judge(t, env, depth).verdict is Typed,
    ensures
        advances(env, judge(t, env, depth).env),
        orderly(judge(t, env, depth).env, depth),
{
    lemma_judge_advances(t, env, depth);
}

/// Linearity: a binding that was consumed can be neither used nor disposed
/// of again.
pub proof fn law_consumed_binding_is_gone(x: Seq<char>, rest: Term, env: Scopes, depth: usize)
    requires
        !(env.resolve(x) is Ambiguous),
        env.cell(env.resolve(x)) is None,
    ensures
        judge(Term::Var(x), env, depth).verdict == Verdict::Rejected(
            Fault::UnboundOrConsumedVariable(x),
        ),
        judge(Term::Free(x, Box::new(rest)), env, depth).verdict == Verdict::Rejected(
            Fault::InvalidFree(x),
        ),
{
}

} // verus!
