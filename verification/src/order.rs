//! Environments as they arise while a program is checked, and what a
//! derivation does to them.

use crate::ast::{PrimType, Qual, Term, TypeExpr};
use crate::rules::{judge, judge_var, leave, veiled, Outcome, Verdict};
use crate::scope::{
    bound, distinct, find, frame_at, in_range, lemma_find_bounds, lemma_resolve_in_range,
    lemma_slot_of_bounds, popped, pushed, rank, slot_of, stack_wf, with_cell, Hit, Level, Scopes,
    Slot,
};
use vstd::prelude::*;

verus! {

/// Every frame of the stack lies at depth `depth` or below.
pub open spec fn below(s: Seq<Level>, depth: usize) -> bool {
    forall|i: int| 0 <= i < s.len() ==> (#[trigger] s[i]).depth <= depth
}

/// Every available binding of the stack has a linear type.
pub open spec fn all_linear(s: Seq<Level>) -> bool {
    forall|i: int, j: int|
        0 <= i < s.len() && 0 <= j < s[i].slots.len() ==> match (#[trigger] s[i].slots[j]).cell {
            Some(ty) => ty.qual == Qual::Lin,
            None => true,
        }
}

/// Every binding of the stack is available and has an unrestricted type.
pub open spec fn all_unrestricted(s: Seq<Level>) -> bool {
    forall|i: int, j: int|
        0 <= i < s.len() && 0 <= j < s[i].slots.len() ==> match (#[trigger] s[i].slots[j]).cell {
            Some(ty) => ty.qual == Qual::Un,
            None => false,
        }
}

/// No name is bound in a frame of `lin` and in the frame of `un` of the same
/// depth.
pub open spec fn apart(lin: Seq<Level>, un: Seq<Level>) -> bool {
    forall|i1: int, j1: int, i2: int, j2: int|
        0 <= i1 < lin.len() && 0 <= j1 < lin[i1].slots.len() && 0 <= i2 < un.len() && 0 <= j2
            < un[i2].slots.len() && lin[i1].depth == un[i2].depth ==> (
        #[trigger] lin[i1].slots[j1]).name != (#[trigger] un[i2].slots[j2]).name
}

/// The environment is one that arises while a program is typed, at a point
/// where the innermost open scope has depth `depth`: it is well formed, no
/// frame lies deeper than `depth`, each binding stands in the stack of its
/// qualifier, unrestricted bindings are available, and the two frames of one
/// depth bind different names.
pub open spec fn orderly(env: Scopes, depth: usize) -> bool {
    &&& env.wf()
    &&& below(env.lin, depth)
    &&& below(env.un, depth)
    &&& all_linear(env.lin)
    &&& all_unrestricted(env.un)
    &&& apart(env.lin, env.un)
}

/// `after` is `before` with some bindings consumed: the frames, their depths
/// and their names are the same, and each cell is as it was or is empty.
pub open spec fn consumes(before: Seq<Level>, after: Seq<Level>) -> bool {
    &&& after.len() == before.len()
    &&& forall|i: int|
        0 <= i < before.len() ==> (#[trigger] after[i]).depth == before[i].depth
            && after[i].slots.len() == before[i].slots.len()
    &&& forall|i: int, j: int|
        0 <= i < before.len() && 0 <= j < before[i].slots.len() ==> (
        #[trigger] after[i].slots[j]).name == before[i].slots[j].name && (after[i].slots[j].cell
            == before[i].slots[j].cell || after[i].slots[j].cell is None)
}

/// `after` is `before` with some linear bindings consumed, and nothing else
/// has changed.
pub open spec fn advances(before: Scopes, after: Scopes) -> bool {
    after.un == before.un && consumes(before.lin, after.lin)
}

/// Consuming bindings keeps an environment orderly.
pub proof fn lemma_advances_orderly(before: Scopes, after: Scopes, depth: usize)
    requires
        orderly(before, depth),
        advances(before, after),
    ensures
        orderly(after, depth),
{
    let s = before.lin;
    let t = after.lin;
    assert forall|i: int, j: int| 0 <= i < j < t.len() implies t[i].depth < t[j].depth by {
        assert(s[i].depth < s[j].depth);
    }
    assert forall|i: int| 0 <= i < t.len() implies distinct(#[trigger] t[i].slots) by {
        assert(distinct(s[i].slots));
        assert forall|a: int, b: int| 0 <= a < b < t[i].slots.len() implies t[i].slots[a].name
            != t[i].slots[b].name by {
            assert(s[i].slots[a].name != s[i].slots[b].name);
        }
    }
    assert forall|i: int| 0 <= i < t.len() implies (#[trigger] t[i]).depth <= depth by {
        assert(s[i].depth <= depth);
    }
    assert forall|i: int, j: int| 0 <= i < t.len() && 0 <= j < t[i].slots.len() implies match (
    #[trigger] t[i].slots[j]).cell {
        Some(ty) => ty.qual == Qual::Lin,
        None => true,
    } by {
        let _ = s[i].slots[j];
    }
    assert forall|i1: int, j1: int, i2: int, j2: int|
        0 <= i1 < t.len() && 0 <= j1 < t[i1].slots.len() && 0 <= i2 < after.un.len() && 0 <= j2
            < after.un[i2].slots.len() && t[i1].depth == after.un[i2].depth implies (
    #[trigger] t[i1].slots[j1]).name != (#[trigger] after.un[i2].slots[j2]).name by {
        assert(s[i1].slots[j1].name != before.un[i2].slots[j2].name);
    }
}

/// Consumption composes.
pub proof fn lemma_advances_trans(a: Scopes, b: Scopes, c: Scopes)
    requires
        advances(a, b),
        advances(b, c),
    ensures
        advances(a, c),
{
    assert forall|i: int, j: int|
        0 <= i < a.lin.len() && 0 <= j < a.lin[i].slots.len() implies (
    #[trigger] c.lin[i].slots[j]).name == a.lin[i].slots[j].name && (c.lin[i].slots[j].cell
        == a.lin[i].slots[j].cell || c.lin[i].slots[j].cell is None) by {
        let _ = b.lin[i].slots[j];
    }
    assert forall|i: int| 0 <= i < a.lin.len() implies (#[trigger] c.lin[i]).depth
        == a.lin[i].depth && c.lin[i].slots.len() == a.lin[i].slots.len() by {
        let _ = b.lin[i];
    }
}

/// In an orderly environment every name refers to one binding at most.
pub proof fn lemma_orderly_unambiguous(env: Scopes, depth: usize, name: Seq<char>)
    requires
        orderly(env, depth),
    ensures
        !(env.resolve(name) is Ambiguous),
        in_range(env, env.resolve(name)),
{
    lemma_resolve_in_range(env, name);
    lemma_find_bounds(env.lin, name);
    lemma_find_bounds(env.un, name);
    match (find(env.lin, name), find(env.un, name)) {
        (Some((i1, j1)), Some((i2, j2))) => {
            lemma_slot_of_bounds(env.lin[i1].slots, name);
            lemma_slot_of_bounds(env.un[i2].slots, name);
            if env.lin[i1].depth == env.un[i2].depth {
                assert(env.lin[i1].slots[j1].name != env.un[i2].slots[j2].name);
            }
        },
        _ => {},
    }
}

/// A frame deeper than all frames of a stack goes on top of it.
pub proof fn lemma_push_on_top(s: Seq<Level>, depth: usize, d: usize)
    requires
        below(s, depth),
        depth < d,
    ensures
        pushed(s, d) == s.push(Level { depth: d, slots: Seq::empty() }),
{
    if s.len() > 0 {
        assert(s.last().depth <= depth);
    }
    assert(rank(s, d) == s.len());
    assert(pushed(s, d) =~= s.push(Level { depth: d, slots: Seq::empty() }));
}

/// The topmost frame of a well-formed stack is the one that is removed at
/// its depth.
pub proof fn lemma_pop_from_top(s: Seq<Level>, d: usize)
    requires
        stack_wf(s),
        s.len() > 0,
        s.last().depth == d,
    ensures
        popped(s, d) == s.drop_last(),
        frame_at(s, d) == Some(s.last().slots),
{
    let t = s.drop_last();
    if t.len() > 0 {
        assert(t.last() == s[s.len() - 2]);
        assert(s[s.len() - 2].depth < s[s.len() - 1].depth);
    }
    assert(rank(t, d) == t.len());
    assert(rank(s, d) == s.len() - 1);
    assert(popped(s, d) =~= t);
}

/// `inner` is `outer` with one more frame on top of each stack, of depth
/// `d`.
pub open spec fn opened(outer: Scopes, inner: Scopes, d: usize) -> bool {
    &&& inner.lin.len() == outer.lin.len() + 1
    &&& inner.lin.drop_last() == outer.lin
    &&& inner.lin.last().depth == d
    &&& inner.un.len() == outer.un.len() + 1
    &&& inner.un.drop_last() == outer.un
    &&& inner.un.last().depth == d
}

/// The topmost frames of `env` bind no names but those in `names`.
pub open spec fn tops_bind_only(env: Scopes, names: Set<Seq<char>>) -> bool {
    &&& forall|j: int|
        0 <= j < env.lin.last().slots.len() ==> names.contains(
            (#[trigger] env.lin.last().slots[j]).name,
        )
    &&& forall|j: int|
        0 <= j < env.un.last().slots.len() ==> names.contains(
            (#[trigger] env.un.last().slots[j]).name,
        )
}

/// Opening a scope one level deeper puts two empty frames on top and keeps
/// the environment orderly.
pub proof fn lemma_push_opened(env: Scopes, depth: usize)
    requires
        orderly(env, depth),
        depth < usize::MAX,
    ensures
        opened(env, env.push((depth + 1) as usize), (depth + 1) as usize),
        orderly(env.push((depth + 1) as usize), (depth + 1) as usize),
        tops_bind_only(env.push((depth + 1) as usize), Set::empty()),
{
    let d = (depth + 1) as usize;
    let inner = env.push(d);
    lemma_push_on_top(env.lin, depth, d);
    lemma_push_on_top(env.un, depth, d);
    assert(inner.lin.drop_last() =~= env.lin);
    assert(inner.un.drop_last() =~= env.un);
    lemma_opened_orderly(env, inner, depth);
}

/// An environment that was opened over an orderly one is orderly if its
/// topmost frames are: they bind no name twice, not even between them, and
/// hold each binding in the stack of its qualifier.
pub proof fn lemma_opened_orderly(outer: Scopes, inner: Scopes, depth: usize)
    requires
        orderly(outer, depth),
        depth < usize::MAX,
        opened(outer, inner, (depth + 1) as usize),
        distinct(inner.lin.last().slots),
        distinct(inner.un.last().slots),
        forall|j: int|
            0 <= j < inner.lin.last().slots.len() ==> match (
            #[trigger] inner.lin.last().slots[j]).cell {
                Some(ty) => ty.qual == Qual::Lin,
                None => true,
            },
        forall|j: int|
            0 <= j < inner.un.last().slots.len() ==> match (
            #[trigger] inner.un.last().slots[j]).cell {
                Some(ty) => ty.qual == Qual::Un,
                None => false,
            },
        forall|j1: int, j2: int|
            0 <= j1 < inner.lin.last().slots.len() && 0 <= j2 < inner.un.last().slots.len() ==> (
            #[trigger] inner.lin.last().slots[j1]).name != (
            #[trigger] inner.un.last().slots[j2]).name,
    ensures
        orderly(inner, (depth + 1) as usize),
{
    let d = (depth + 1) as usize;
    let nl = outer.lin.len() as int;
    let nu = outer.un.len() as int;
    assert forall|i: int| 0 <= i < nl implies inner.lin[i] == outer.lin[i] by {
        assert(inner.lin.drop_last()[i] == inner.lin[i]);
    }
    assert forall|i: int| 0 <= i < nu implies inner.un[i] == outer.un[i] by {
        assert(inner.un.drop_last()[i] == inner.un[i]);
    }
    assert(inner.lin[nl] == inner.lin.last());
    assert(inner.un[nu] == inner.un.last());
    assert forall|i: int, j: int| 0 <= i < j < inner.lin.len() implies inner.lin[i].depth
        < inner.lin[j].depth by {
        if j < nl {
            assert(outer.lin[i].depth < outer.lin[j].depth);
        } else {
            assert(outer.lin[i].depth <= depth);
        }
    }
    assert forall|i: int, j: int| 0 <= i < j < inner.un.len() implies inner.un[i].depth
        < inner.un[j].depth by {
        if j < nu {
            assert(outer.un[i].depth < outer.un[j].depth);
        } else {
            assert(outer.un[i].depth <= depth);
        }
    }
    assert forall|i: int| 0 <= i < inner.lin.len() implies distinct(
        #[trigger] inner.lin[i].slots,
    ) by {
        if i < nl {
            assert(distinct(outer.lin[i].slots));
        }
    }
    assert forall|i: int| 0 <= i < inner.un.len() implies distinct(
        #[trigger] inner.un[i].slots,
    ) by {
        if i < nu {
            assert(distinct(outer.un[i].slots));
        }
    }
    assert forall|i: int| 0 <= i < inner.lin.len() implies (#[trigger] inner.lin[i]).depth
        <= d by {
        if i < nl {
            assert(outer.lin[i].depth <= depth);
        }
    }
    assert forall|i: int| 0 <= i < inner.un.len() implies (#[trigger] inner.un[i]).depth <= d by {
        if i < nu {
            assert(outer.un[i].depth <= depth);
        }
    }
    assert forall|i: int, j: int|
        0 <= i < inner.lin.len() && 0 <= j < inner.lin[i].slots.len() implies match (
    #[trigger] inner.lin[i].slots[j]).cell {
        Some(ty) => ty.qual == Qual::Lin,
        None => true,
    } by {
        if i < nl {
            let _ = outer.lin[i].slots[j];
        } else {
            let _ = inner.lin.last().slots[j];
        }
    }
    assert forall|i: int, j: int|
        0 <= i < inner.un.len() && 0 <= j < inner.un[i].slots.len() implies match (
    #[trigger] inner.un[i].slots[j]).cell {
        Some(ty) => ty.qual == Qual::Un,
        None => false,
    } by {
        if i < nu {
            let _ = outer.un[i].slots[j];
        } else {
            let _ = inner.un.last().slots[j];
        }
    }
    assert forall|i1: int, j1: int, i2: int, j2: int|
        0 <= i1 < inner.lin.len() && 0 <= j1 < inner.lin[i1].slots.len() && 0 <= i2
            < inner.un.len() && 0 <= j2 < inner.un[i2].slots.len() && inner.lin[i1].depth
            == inner.un[i2].depth implies (#[trigger] inner.lin[i1].slots[j1]).name != (
    #[trigger] inner.un[i2].slots[j2]).name by {
        if i1 < nl && i2 < nu {
            assert(outer.lin[i1].slots[j1].name != outer.un[i2].slots[j2].name);
        } else if i1 == nl && i2 == nu {
            assert(inner.lin.last().slots[j1].name != inner.un.last().slots[j2].name);
        } else if i1 < nl {
            assert(outer.lin[i1].depth <= depth);
        } else {
            assert(outer.un[i2].depth <= depth);
        }
    }
}

/// Binding a name that the topmost frames do not bind yet keeps an opened
/// environment opened and orderly, and adds that name to the topmost frames.
#[verifier::rlimit(50)]
pub proof fn lemma_insert_opened(
    outer: Scopes,
    inner: Scopes,
    depth: usize,
    names: Set<Seq<char>>,
    x: Seq<char>,
    ty: TypeExpr,
)
    requires
        orderly(outer, depth),
        depth < usize::MAX,
        opened(outer, inner, (depth + 1) as usize),
        orderly(inner, (depth + 1) as usize),
        tops_bind_only(inner, names),
        !names.contains(x),
    ensures
        opened(outer, inner.insert(x, ty), (depth + 1) as usize),
        orderly(inner.insert(x, ty), (depth + 1) as usize),
        tops_bind_only(inner.insert(x, ty), names.insert(x)),
        ty.qual == Qual::Lin ==> inner.insert(x, ty).un == inner.un && inner.insert(
            x,
            ty,
        ).lin.last().slots == inner.lin.last().slots.push(Slot { name: x, cell: Some(ty) }),
        ty.qual != Qual::Lin ==> inner.insert(x, ty).lin == inner.lin && inner.insert(
            x,
            ty,
        ).un.last().slots == inner.un.last().slots.push(Slot { name: x, cell: Some(ty) }),
{
    let next = inner.insert(x, ty);
    let fresh = Slot { name: x, cell: Some(ty) };
    lemma_slot_of_bounds(inner.lin.last().slots, x);
    lemma_slot_of_bounds(inner.un.last().slots, x);
    match slot_of(inner.lin.last().slots, x) {
        Some(j) => {
            assert(names.contains(inner.lin.last().slots[j].name));
        },
        None => {},
    }
    match slot_of(inner.un.last().slots, x) {
        Some(j) => {
            assert(names.contains(inner.un.last().slots[j].name));
        },
        None => {},
    }
    assert(inner.lin.last() == inner.lin[inner.lin.len() - 1]);
    assert(inner.un.last() == inner.un[inner.un.len() - 1]);
    assert(distinct(inner.lin.last().slots));
    assert(distinct(inner.un.last().slots));
    if ty.qual == Qual::Lin {
        let old = inner.lin.last().slots;
        assert(next.lin.last().slots == old.push(fresh));
        assert(next.lin.drop_last() =~= inner.lin.drop_last());
        assert forall|a: int, b: int| 0 <= a < b < old.push(fresh).len() implies old.push(
            fresh,
        )[a].name != old.push(fresh)[b].name by {
            if b < old.len() {
                assert(old[a].name != old[b].name);
            } else {
                assert(names.contains(old[a].name));
            }
        }
        assert forall|j: int| 0 <= j < next.lin.last().slots.len() implies match (
        #[trigger] next.lin.last().slots[j]).cell {
            Some(ty) => ty.qual == Qual::Lin,
            None => true,
        } by {
            if j < old.len() {
                let _ = inner.lin[inner.lin.len() - 1].slots[j];
            }
        }
        assert forall|j: int| 0 <= j < next.un.last().slots.len() implies match (
        #[trigger] next.un.last().slots[j]).cell {
            Some(ty) => ty.qual == Qual::Un,
            None => false,
        } by {
            let _ = inner.un[inner.un.len() - 1].slots[j];
        }
        assert forall|j1: int, j2: int|
            0 <= j1 < next.lin.last().slots.len() && 0 <= j2
                < next.un.last().slots.len() implies (#[trigger] next.lin.last().slots[j1]).name
            != (#[trigger] next.un.last().slots[j2]).name by {
            if j1 < old.len() {
                assert(inner.lin[inner.lin.len() - 1].slots[j1].name != inner.un[inner.un.len()
                    - 1].slots[j2].name);
            } else {
                assert(names.contains(inner.un.last().slots[j2].name));
            }
        }
        assert forall|j: int| 0 <= j < next.lin.last().slots.len() implies names.insert(
            x,
        ).contains((#[trigger] next.lin.last().slots[j]).name) by {
            if j < old.len() {
                assert(names.contains(inner.lin.last().slots[j].name));
            }
        }
        assert forall|j: int| 0 <= j < next.un.last().slots.len() implies names.insert(
            x,
        ).contains((#[trigger] next.un.last().slots[j]).name) by {
            assert(names.contains(inner.un.last().slots[j].name));
        }
    } else {
        let old = inner.un.last().slots;
        assert(next.un.last().slots == old.push(fresh));
        assert(next.un.drop_last() =~= inner.un.drop_last());
        assert forall|a: int, b: int| 0 <= a < b < old.push(fresh).len() implies old.push(
            fresh,
        )[a].name != old.push(fresh)[b].name by {
            if b < old.len() {
                assert(old[a].name != old[b].name);
            } else {
                assert(names.contains(old[a].name));
            }
        }
        assert forall|j: int| 0 <= j < next.un.last().slots.len() implies match (
        #[trigger] next.un.last().slots[j]).cell {
            Some(ty) => ty.qual == Qual::Un,
            None => false,
        } by {
            if j < old.len() {
                let _ = inner.un[inner.un.len() - 1].slots[j];
            }
        }
        assert forall|j: int| 0 <= j < next.lin.last().slots.len() implies match (
        #[trigger] next.lin.last().slots[j]).cell {
            Some(ty) => ty.qual == Qual::Lin,
            None => true,
        } by {
            let _ = inner.lin[inner.lin.len() - 1].slots[j];
        }
        assert forall|j1: int, j2: int|
            0 <= j1 < next.lin.last().slots.len() && 0 <= j2
                < next.un.last().slots.len() implies (#[trigger] next.lin.last().slots[j1]).name
            != (#[trigger] next.un.last().slots[j2]).name by {
            if j2 < old.len() {
                assert(inner.lin[inner.lin.len() - 1].slots[j1].name != inner.un[inner.un.len()
                    - 1].slots[j2].name);
            } else {
                assert(names.contains(inner.lin.last().slots[j1].name));
            }
        }
        assert forall|j: int| 0 <= j < next.un.last().slots.len() implies names.insert(
            x,
        ).contains((#[trigger] next.un.last().slots[j]).name) by {
            if j < old.len() {
                assert(names.contains(inner.un.last().slots[j].name));
            }
        }
        assert forall|j: int| 0 <= j < next.lin.last().slots.len() implies names.insert(
            x,
        ).contains((#[trigger] next.lin.last().slots[j]).name) by {
            assert(names.contains(inner.lin.last().slots[j].name));
        }
    }
    lemma_opened_orderly(outer, next, depth);
}

/// No `split` that the derivation of `t` from `env` comes to gives one name
/// to both components of a pair with a linear component.
pub open spec fn tidy(t: Term, env: Scopes, depth: usize) -> bool
    decreases t,
{
    let d = (depth + 1) as usize;
    match t {
        Term::Var(_) => true,
        Term::Bool(_, _) => true,
        Term::Pair(_, a, b) => tidy(*a, env, depth) && (judge(*a, env, depth).verdict is Typed
            ==> tidy(*b, judge(*a, env, depth).env, depth)),
        Term::App(f, a) => tidy(*f, env, depth) && (judge(*f, env, depth).verdict is Typed
            ==> tidy(*a, judge(*f, env, depth).env, depth)),
        Term::Fun(q, x, ty, body) => depth < usize::MAX ==> tidy(
            *body,
            veiled(q, env).push(d).insert(x, ty),
            d,
        ),
        Term::Let(x, ty, e, body) => tidy(*e, env, depth) && (judge(*e, env, depth).verdict
            is Typed && depth < usize::MAX ==> tidy(
            *body,
            judge(*e, env, depth).env.push(d).insert(x, ty),
            d,
        )),
        Term::Split(s, l, r, body) => tidy(*s, env, depth) && match judge(*s, env, depth).verdict {
            Verdict::Typed(tp) => match tp.prim {
                PrimType::Pair(tl, tr) => depth < usize::MAX ==> (l != r || (tl.qual == Qual::Un
                    && tr.qual == Qual::Un)) && tidy(
                    *body,
                    judge(*s, env, depth).env.push(d).insert(l, *tl).insert(r, *tr),
                    d,
                ),
                _ => true,
            },
            _ => true,
        },
        Term::If(c, a, b) => tidy(*c, env, depth) && (judge(*c, env, depth).verdict is Typed
            ==> tidy(*a, judge(*c, env, depth).env, depth) && tidy(
            *b,
            judge(*c, env, depth).env,
            depth,
        )),
        Term::Free(x, rest) => match env.cell(env.resolve(x)) {
            Some(ty) => ty.qual == Qual::Lin ==> tidy(
                *rest,
                env.with_cell(env.resolve(x), None),
                depth,
            ),
            None => true,
        },
    }
}

/// A term in which every `split` gives two different names to the components
/// has a tidy derivation from every environment.
pub proof fn lemma_apart_tidy(t: Term, env: Scopes, depth: usize)
    requires
        t.binds_apart(),
    ensures
        tidy(t, env, depth),
    decreases t,
{
    let d = (depth + 1) as usize;
    match t {
        Term::Var(_) => {},
        Term::Bool(_, _) => {},
        Term::Pair(_, a, b) => {
            lemma_apart_tidy(*a, env, depth);
            lemma_apart_tidy(*b, judge(*a, env, depth).env, depth);
        },
        Term::App(f, a) => {
            lemma_apart_tidy(*f, env, depth);
            lemma_apart_tidy(*a, judge(*f, env, depth).env, depth);
        },
        Term::Fun(q, x, ty, body) => {
            lemma_apart_tidy(*body, veiled(q, env).push(d).insert(x, ty), d);
        },
        Term::Let(x, ty, e, body) => {
            lemma_apart_tidy(*e, env, depth);
            lemma_apart_tidy(*body, judge(*e, env, depth).env.push(d).insert(x, ty), d);
        },
        Term::Split(s, l, r, body) => {
            lemma_apart_tidy(*s, env, depth);
            match judge(*s, env, depth).verdict {
                Verdict::Typed(tp) => match tp.prim {
                    PrimType::Pair(tl, tr) => {
                        lemma_apart_tidy(
                            *body,
                            judge(*s, env, depth).env.push(d).insert(l, *tl).insert(r, *tr),
                            d,
                        );
                    },
                    _ => {},
                },
                _ => {},
            }
        },
        Term::If(c, a, b) => {
            lemma_apart_tidy(*c, env, depth);
            lemma_apart_tidy(*a, judge(*c, env, depth).env, depth);
            lemma_apart_tidy(*b, judge(*c, env, depth).env, depth);
        },
        Term::Free(x, rest) => {
            lemma_apart_tidy(*rest, env.with_cell(env.resolve(x), None), depth);
        },
    }
}

/// Binding an unrestricted name again that alone is bound in the topmost
/// frames, as an unrestricted name, replaces its type and changes nothing
/// else.
pub proof fn lemma_rebind_opened(
    outer: Scopes,
    inner: Scopes,
    depth: usize,
    x: Seq<char>,
    old: TypeExpr,
    ty: TypeExpr,
)
    requires
        orderly(outer, depth),
        depth < usize::MAX,
        opened(outer, inner, (depth + 1) as usize),
        orderly(inner, (depth + 1) as usize),
        old.qual == Qual::Un,
        ty.qual == Qual::Un,
        inner.lin.last().slots == Seq::<Slot>::empty(),
        inner.un.last().slots == Seq::<Slot>::empty().push(Slot { name: x, cell: Some(old) }),
    ensures
        opened(outer, inner.insert(x, ty), (depth + 1) as usize),
        orderly(inner.insert(x, ty), (depth + 1) as usize),
        inner.insert(x, ty).lin == inner.lin,
        inner.insert(x, ty).un.last().slots == Seq::<Slot>::empty().push(
            Slot { name: x, cell: Some(ty) },
        ),
{
    let next = inner.insert(x, ty);
    let e = Seq::<Slot>::empty();
    let before = e.push(Slot { name: x, cell: Some(old) });
    let after = e.push(Slot { name: x, cell: Some(ty) });
    assert(before.drop_last() =~= e);
    assert(slot_of(before, x) == Some(0int));
    assert(before.update(0, Slot { name: x, cell: Some(ty) }) =~= after);
    assert(next.un.last().slots == after);
    assert(next.un.drop_last() =~= inner.un.drop_last());
    lemma_opened_orderly(outer, next, depth);
}

/// Opening the scope of a `split` keeps the environment orderly, unless one
/// name is given to both components of a pair with a linear component.
pub proof fn lemma_enter_two(
    outer: Scopes,
    depth: usize,
    l: Seq<char>,
    tl: TypeExpr,
    r: Seq<char>,
    tr: TypeExpr,
)
    requires
        orderly(outer, depth),
        depth < usize::MAX,
        l != r || (tl.qual == Qual::Un && tr.qual == Qual::Un),
    ensures
        opened(
            outer,
            outer.push((depth + 1) as usize).insert(l, tl).insert(r, tr),
            (depth + 1) as usize,
        ),
        orderly(
            outer.push((depth + 1) as usize).insert(l, tl).insert(r, tr),
            (depth + 1) as usize,
        ),
        tops_bind_only(
            outer.push((depth + 1) as usize).insert(l, tl).insert(r, tr),
            Set::empty().insert(l).insert(r),
        ),
{
    let d = (depth + 1) as usize;
    lemma_push_opened(outer, depth);
    lemma_insert_opened(outer, outer.push(d), depth, Set::empty(), l, tl);
    let mid = outer.push(d).insert(l, tl);
    if l != r {
        lemma_insert_opened(outer, mid, depth, Set::empty().insert(l), r, tr);
    } else {
        assert(outer.push(d).lin.last().slots =~= Seq::<Slot>::empty());
        assert(outer.push(d).un.last().slots =~= Seq::<Slot>::empty());
        lemma_rebind_opened(outer, mid, depth, l, tl, tr);
        let start = mid.insert(r, tr);
        assert(start.lin.last().slots =~= Seq::<Slot>::empty());
        assert forall|j: int| 0 <= j < start.un.last().slots.len() implies Set::<
            Seq<char>,
        >::empty().insert(l).insert(r).contains((#[trigger] start.un.last().slots[j]).name) by {}
    }
}

/// Closing a scope after its body consumed some bindings: what is left is
/// the environment from before the scope with some bindings consumed, and the
/// frame that is inspected is the topmost linear frame.
pub proof fn lemma_close(outer: Scopes, inner: Scopes, after: Scopes, depth: usize)
    requires
        orderly(outer, depth),
        depth < usize::MAX,
        opened(outer, inner, (depth + 1) as usize),
        orderly(inner, (depth + 1) as usize),
        advances(inner, after),
    ensures
        advances(outer, after.pop((depth + 1) as usize)),
        frame_at(after.lin, (depth + 1) as usize) == Some(after.lin.last().slots),
        consumes(seq![inner.lin.last()], seq![after.lin.last()]),
{
    let d = (depth + 1) as usize;
    lemma_advances_orderly(inner, after, d);
    assert(after.lin.last() == after.lin[after.lin.len() - 1]);
    assert(inner.lin.last() == inner.lin[inner.lin.len() - 1]);
    assert(inner.un.last() == inner.un[inner.un.len() - 1]);
    lemma_pop_from_top(after.lin, d);
    lemma_pop_from_top(after.un, d);
    let t = after.lin.drop_last();
    assert forall|i: int| 0 <= i < outer.lin.len() implies (#[trigger] t[i]).depth
        == outer.lin[i].depth && t[i].slots.len() == outer.lin[i].slots.len() by {
        assert(t[i] == after.lin[i]);
        assert(inner.lin.drop_last()[i] == inner.lin[i]);
    }
    assert forall|i: int, j: int|
        0 <= i < outer.lin.len() && 0 <= j < outer.lin[i].slots.len() implies (
    #[trigger] t[i].slots[j]).name == outer.lin[i].slots[j].name && (t[i].slots[j].cell
        == outer.lin[i].slots[j].cell || t[i].slots[j].cell is None) by {
        assert(t[i] == after.lin[i]);
        assert(inner.lin.drop_last()[i] == inner.lin[i]);
        let _ = after.lin[i].slots[j];
    }
    let a = seq![inner.lin.last()];
    let b = seq![after.lin.last()];
    assert forall|i: int, j: int| 0 <= i < a.len() && 0 <= j < a[i].slots.len() implies (
    #[trigger] b[i].slots[j]).name == a[i].slots[j].name && (b[i].slots[j].cell
        == a[i].slots[j].cell || b[i].slots[j].cell is None) by {
        let _ = after.lin[after.lin.len() - 1].slots[j];
    }
}

/// What `leave` makes of the end of a body that consumed some bindings of
/// an opened scope.
pub proof fn lemma_leave(outer: Scopes, inner: Scopes, body: Outcome, depth: usize)
    requires
        orderly(outer, depth),
        depth < usize::MAX,
        opened(outer, inner, (depth + 1) as usize),
        orderly(inner, (depth + 1) as usize),
        !(body.verdict is Ambiguous),
        body.verdict is Typed ==> advances(inner, body.env),
    ensures
        !(leave(body, (depth + 1) as usize).verdict is Ambiguous),
        leave(body, (depth + 1) as usize).verdict is Typed ==> body.verdict is Typed && advances(
            outer,
            leave(body, (depth + 1) as usize).env,
        ),
{
    if body.verdict is Typed {
        lemma_close(outer, inner, body.env, depth);
    }
}

/// A tidy derivation from an orderly environment never looks up a name that
/// both stacks bind at one depth, and where it ends with a type, it has
/// consumed some linear bindings and changed nothing else.
#[verifier::rlimit(50)]
pub proof fn lemma_judge_advances(t: Term, env: Scopes, depth: usize)
    requires
        orderly(env, depth),
        tidy(t, env, depth),
    ensures
        !(judge(t, env, depth).verdict is Ambiguous),
        judge(t, env, depth).verdict is Typed ==> advances(env, judge(t, env, depth).env)
            && orderly(judge(t, env, depth).env, depth),
    decreases t,
{
    let out = judge(t, env, depth);
    match t {
        Term::Var(x) => {
            lemma_var_advances(x, env, depth);
        },
        Term::Bool(_, _) => {},
        Term::Pair(q, a, b) => {
            lemma_judge_advances(*a, env, depth);
            let first = judge(*a, env, depth);
            if first.verdict is Typed {
                lemma_judge_advances(*b, first.env, depth);
                let second = judge(*b, first.env, depth);
                if second.verdict is Typed {
                    lemma_advances_trans(env, first.env, second.env);
                }
            }
        },
        Term::Fun(q, x, ty, body) => {
            let inner = veiled(q, env);
            assert(orderly(inner, depth));
            if depth < usize::MAX {
                let d = (depth + 1) as usize;
                lemma_push_opened(inner, depth);
                lemma_insert_opened(inner, inner.push(d), depth, Set::empty(), x, ty);
                let start = inner.push(d).insert(x, ty);
                lemma_judge_advances(*body, start, d);
                lemma_leave(inner, start, judge(*body, start, d), depth);
            }
        },
        Term::App(f, a) => {
            lemma_judge_advances(*f, env, depth);
            let first = judge(*f, env, depth);
            if first.verdict is Typed {
                lemma_judge_advances(*a, first.env, depth);
                let second = judge(*a, first.env, depth);
                if second.verdict is Typed {
                    lemma_advances_trans(env, first.env, second.env);
                }
            }
        },
        Term::Free(x, rest) => {
            lemma_var_advances(x, env, depth);
            let hit = env.resolve(x);
            match env.cell(hit) {
                Some(ty) => {
                    if ty.qual == Qual::Lin {
                        let next = env.with_cell(hit, None);
                        lemma_judge_advances(*rest, next, depth);
                        if judge(*rest, next, depth).verdict is Typed {
                            lemma_advances_trans(env, next, judge(*rest, next, depth).env);
                        }
                    }
                },
                None => {},
            }
        },
        Term::If(c, a, b) => {
            lemma_judge_advances(*c, env, depth);
            let cond = judge(*c, env, depth);
            if cond.verdict is Typed {
                lemma_judge_advances(*a, cond.env, depth);
                lemma_judge_advances(*b, cond.env, depth);
                let first = judge(*a, cond.env, depth);
                if first.verdict is Typed {
                    lemma_advances_trans(env, cond.env, first.env);
                }
            }
        },
        Term::Split(s, l, r, body) => {
            lemma_judge_advances(*s, env, depth);
            let pair = judge(*s, env, depth);
            match pair.verdict {
                Verdict::Typed(tp) => match tp.prim {
                    PrimType::Pair(tl, tr) => {
                        if depth < usize::MAX {
                            let d = (depth + 1) as usize;
                            lemma_enter_two(pair.env, depth, l, *tl, r, *tr);
                            let start = pair.env.push(d).insert(l, *tl).insert(r, *tr);
                            lemma_judge_advances(*body, start, d);
                            lemma_leave(pair.env, start, judge(*body, start, d), depth);
                            if out.verdict is Typed {
                                lemma_advances_trans(env, pair.env, out.env);
                            }
                        }
                    },
                    _ => {},
                },
                _ => {},
            }
        },
        Term::Let(x, ty, e, body) => {
            lemma_judge_advances(*e, env, depth);
            let first = judge(*e, env, depth);
            if first.verdict is Typed && depth < usize::MAX {
                let d = (depth + 1) as usize;
                lemma_push_opened(first.env, depth);
                lemma_insert_opened(first.env, first.env.push(d), depth, Set::empty(), x, ty);
                let start = first.env.push(d).insert(x, ty);
                lemma_judge_advances(*body, start, d);
                lemma_leave(first.env, start, judge(*body, start, d), depth);
                if out.verdict is Typed {
                    lemma_advances_trans(env, first.env, out.env);
                }
            }
        },
    }
    if out.verdict is Typed {
        lemma_advances_orderly(env, out.env, depth);
    }
}

/// Looking up a name in an orderly environment: the name refers to one
/// binding at most, and consuming that binding is all that happens.
pub proof fn lemma_var_advances(x: Seq<char>, env: Scopes, depth: usize)
    requires
        orderly(env, depth),
    ensures
        !(env.resolve(x) is Ambiguous),
        in_range(env, env.resolve(x)),
        advances(env, judge_var(x, env).env),
        env.cell(env.resolve(x)) matches Some(ty) ==> (ty.qual == Qual::Lin <==> env.resolve(
            x,
        ) is Lin),
        advances(env, env.with_cell(env.resolve(x), None)) || env.resolve(x) is Un,
{
    lemma_orderly_unambiguous(env, depth, x);
    let hit = env.resolve(x);
    match hit {
        Hit::Lin(i, j) => {
            let _ = env.lin[i].slots[j];
            let next = env.with_cell(hit, None);
            assert forall|a: int, b: int|
                0 <= a < env.lin.len() && 0 <= b < env.lin[a].slots.len() implies (
            #[trigger] next.lin[a].slots[b]).name == env.lin[a].slots[b].name && (
            next.lin[a].slots[b].cell == env.lin[a].slots[b].cell
                || next.lin[a].slots[b].cell is None) by {}
        },
        Hit::Un(i, j) => {
            let _ = env.un[i].slots[j];
        },
        _ => {},
    }
}

} // verus!
