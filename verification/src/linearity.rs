//! Linearity: how often a derivation consumes a linear binding, counted on
//! the term.

use crate::ast::{PrimType, Qual, Term, TypeExpr};
use crate::order::{
    advances, consumes, lemma_advances_orderly, lemma_close, lemma_enter_two,
    lemma_insert_opened, lemma_judge_advances, lemma_push_opened, lemma_var_advances, opened,
    orderly, tidy, tops_bind_only,
};
use crate::rules::{judge, leave, veiled, Verdict};
use crate::scope::{
    find, leftover, lemma_find_bounds, lemma_resolve_in_range, lemma_slot_of_bounds, slot_of, Hit,
    Level, Scopes, Slot,
};
use vstd::prelude::*;

verus! {

/// A cell that held `before` holds `now` after a term that uses its name `k`
/// times: a cell that the name does not refer to (`visible` false) is as it
/// was; one that it refers to is used once at most, is empty after one use,
/// and cannot be used when it is empty.
pub open spec fn counted(
    k: nat,
    visible: bool,
    before: Option<TypeExpr>,
    now: Option<TypeExpr>,
) -> bool {
    if visible {
        match before {
            Some(_) => (k == 0 && now == before) || (k == 1 && now is None),
            None => k == 0 && now is None,
        }
    } else {
        now == before
    }
}

/// The slot of a name depends on the names of a frame only.
proof fn lemma_slot_of_names(a: Seq<Slot>, b: Seq<Slot>, name: Seq<char>)
    requires
        a.len() == b.len(),
        forall|j: int| 0 <= j < a.len() ==> (#[trigger] b[j]).name == a[j].name,
    ensures
        slot_of(b, name) == slot_of(a, name),
    decreases a.len(),
{
    if a.len() > 0 {
        assert(b.last().name == a.last().name);
        if a.last().name != name {
            assert forall|j: int| 0 <= j < a.drop_last().len() implies (
            #[trigger] b.drop_last()[j]).name == a.drop_last()[j].name by {
                assert(b[j].name == a[j].name);
            }
            lemma_slot_of_names(a.drop_last(), b.drop_last(), name);
        }
    }
}

/// Consuming bindings does not change what a name refers to in a stack.
proof fn lemma_find_consumes(s: Seq<Level>, t: Seq<Level>, name: Seq<char>)
    requires
        consumes(s, t),
    ensures
        find(t, name) == find(s, name),
    decreases s.len(),
{
    if s.len() > 0 {
        let i = s.len() - 1;
        assert(t.last() == t[i]);
        assert(t[i].slots.len() == s[i].slots.len());
        assert forall|j: int| 0 <= j < s[i].slots.len() implies (#[trigger] t[i].slots[j]).name
            == s[i].slots[j].name by {}
        lemma_slot_of_names(s[i].slots, t[i].slots, name);
        if slot_of(s.last().slots, name) is None {
            let s1 = s.drop_last();
            let t1 = t.drop_last();
            assert forall|a: int| 0 <= a < s1.len() implies (#[trigger] t1[a]).depth
                == s1[a].depth && t1[a].slots.len() == s1[a].slots.len() by {
                assert(t1[a] == t[a]);
            }
            assert forall|a: int, b: int| 0 <= a < s1.len() && 0 <= b < s1[a].slots.len() implies (
            #[trigger] t1[a].slots[b]).name == s1[a].slots[b].name && (t1[a].slots[b].cell
                == s1[a].slots[b].cell || t1[a].slots[b].cell is None) by {
                assert(t1[a] == t[a]);
                let _ = t[a].slots[b];
            }
            lemma_find_consumes(s1, t1, name);
        }
    }
}

/// Consuming bindings does not change what a name refers to.
pub proof fn lemma_resolve_advances(env: Scopes, next: Scopes, name: Seq<char>)
    requires
        advances(env, next),
    ensures
        next.resolve(name) == env.resolve(name),
{
    lemma_find_consumes(env.lin, next.lin, name);
    lemma_find_bounds(env.lin, name);
    lemma_find_bounds(env.un, name);
}

/// A name that the topmost frames of an opened environment do not bind
/// refers to what it referred to before the scope was opened.
proof fn lemma_resolve_opened(outer: Scopes, inner: Scopes, d: usize, name: Seq<char>)
    requires
        opened(outer, inner, d),
        slot_of(inner.lin.last().slots, name) is None,
        slot_of(inner.un.last().slots, name) is None,
    ensures
        inner.resolve(name) == outer.resolve(name),
{
    lemma_find_bounds(outer.lin, name);
    lemma_find_bounds(outer.un, name);
    match find(outer.lin, name) {
        Some((i, j)) => {
            assert(inner.lin.drop_last()[i] == inner.lin[i]);
        },
        None => {},
    }
    match find(outer.un, name) {
        Some((i, j)) => {
            assert(inner.un.drop_last()[i] == inner.un[i]);
        },
        None => {},
    }
}

/// A name that a topmost frame of an opened environment binds does not refer
/// to a binding from before the scope was opened.
proof fn lemma_resolve_shadowed(
    outer: Scopes,
    inner: Scopes,
    depth: usize,
    name: Seq<char>,
)
    requires
        orderly(outer, depth),
        depth < usize::MAX,
        opened(outer, inner, (depth + 1) as usize),
        slot_of(inner.lin.last().slots, name) is Some || slot_of(inner.un.last().slots, name)
            is Some,
    ensures
        match inner.resolve(name) {
            Hit::Lin(i, _) => i == outer.lin.len(),
            Hit::Un(i, _) => i == outer.un.len(),
            _ => true,
        },
{
    lemma_find_bounds(outer.lin, name);
    lemma_find_bounds(outer.un, name);
    lemma_find_bounds(inner.lin, name);
    lemma_find_bounds(inner.un, name);
    match find(outer.lin, name) {
        Some((i, j)) => {
            assert(inner.lin.drop_last()[i] == inner.lin[i]);
            assert(outer.lin[i].depth <= depth);
        },
        None => {},
    }
    match find(outer.un, name) {
        Some((i, j)) => {
            assert(inner.un.drop_last()[i] == inner.un[i]);
            assert(outer.un[i].depth <= depth);
        },
        None => {},
    }
    assert(inner.lin.last() == inner.lin[inner.lin.len() - 1]);
    assert(inner.un.last() == inner.un[inner.un.len() - 1]);
}

/// The cell of an outer slot across a scope: the body counts for a name
/// that the scope does not bind, and a name that the scope binds is not used
/// at all.
proof fn lemma_scope_counted(
    outer: Scopes,
    start: Scopes,
    end: Scopes,
    depth: usize,
    i: int,
    j: int,
    k: nat,
    bound_here: bool,
)
    requires
        orderly(outer, depth),
        depth < usize::MAX,
        opened(outer, start, (depth + 1) as usize),
        orderly(start, (depth + 1) as usize),
        advances(start, end),
        0 <= i < outer.lin.len(),
        0 <= j < outer.lin[i].slots.len(),
        bound_here ==> slot_of(start.lin.last().slots, outer.lin[i].slots[j].name) is Some
            || slot_of(start.un.last().slots, outer.lin[i].slots[j].name) is Some,
        !bound_here ==> slot_of(start.lin.last().slots, outer.lin[i].slots[j].name) is None
            && slot_of(start.un.last().slots, outer.lin[i].slots[j].name) is None,
        start.lin[i].slots[j].name == outer.lin[i].slots[j].name,
        counted(
            k,
            start.resolve(outer.lin[i].slots[j].name) == Hit::Lin(i, j),
            start.lin[i].slots[j].cell,
            end.lin[i].slots[j].cell,
        ),
    ensures
        counted(
            if bound_here {
                0
            } else {
                k
            },
            outer.resolve(outer.lin[i].slots[j].name) == Hit::Lin(i, j),
            outer.lin[i].slots[j].cell,
            end.pop((depth + 1) as usize).lin[i].slots[j].cell,
        ),
{
    let d = (depth + 1) as usize;
    let n = outer.lin[i].slots[j].name;
    lemma_close(outer, start, end, depth);
    lemma_advances_orderly(start, end, d);
    crate::order::lemma_pop_from_top(end.lin, d);
    assert(start.lin.drop_last()[i] == start.lin[i]);
    assert(end.lin.drop_last()[i] == end.lin[i]);
    if bound_here {
        lemma_resolve_shadowed(outer, start, depth, n);
    } else {
        lemma_resolve_opened(outer, start, d, n);
    }
}

/// How a tidy derivation that ends with a type treats one linear slot of its
/// environment: where the slot's name refers to the slot, the derivation
/// consumes the binding exactly if the term uses the name, which it does
/// once at most; where the name refers to another binding, the slot is as it
/// was.
#[verifier::rlimit(50)]
pub proof fn lemma_uses(t: Term, env: Scopes, depth: usize, i: int, j: int)
    requires
        orderly(env, depth),
        tidy(t, env, depth),
        judge(t, env, depth).verdict is Typed,
        0 <= i < env.lin.len(),
        0 <= j < env.lin[i].slots.len(),
    ensures
        counted(
            t.uses(env.lin[i].slots[j].name),
            env.resolve(env.lin[i].slots[j].name) == Hit::Lin(i, j),
            env.lin[i].slots[j].cell,
            judge(t, env, depth).env.lin[i].slots[j].cell,
        ),
    decreases t, 1nat,
{
    let n = env.lin[i].slots[j].name;
    let out = judge(t, env, depth);
    lemma_judge_advances(t, env, depth);
    match t {
        Term::Var(y) => {
            lemma_var_advances(y, env, depth);
            lemma_resolve_in_range(env, y);
            let _ = env.lin[i].slots[j];
        },
        Term::Bool(_, _) => {},
        Term::Pair(_, a, b) => {
            lemma_seq_uses(t, *a, *b, env, depth, i, j);
        },
        Term::App(f, a) => {
            lemma_seq_uses(t, *f, *a, env, depth, i, j);
        },
        Term::If(c, a, _) => {
            lemma_seq_uses(t, *c, *a, env, depth, i, j);
        },
        Term::Free(y, rest) => {
            lemma_var_advances(y, env, depth);
            lemma_resolve_in_range(env, y);
            let hit = env.resolve(y);
            let next = env.with_cell(hit, None);
            let _ = env.lin[i].slots[j];
            lemma_advances_orderly(env, next, depth);
            lemma_resolve_advances(env, next, n);
            lemma_uses(*rest, next, depth, i, j);
        },
        Term::Fun(q, p, ty, body) => {
            if q == Qual::Lin {
                lemma_bind_uses(t, p, ty, *body, env, depth, i, j);
            }
        },
        Term::Let(p, ty, e, body) => {
            let first = judge(*e, env, depth);
            lemma_judge_advances(*e, env, depth);
            lemma_uses(*e, env, depth, i, j);
            lemma_resolve_advances(env, first.env, n);
            let _ = first.env.lin[i].slots[j];
            lemma_bind_uses(t, p, ty, *body, first.env, depth, i, j);
        },
        Term::Split(s, l, r, body) => {
            let pair = judge(*s, env, depth);
            lemma_judge_advances(*s, env, depth);
            lemma_uses(*s, env, depth, i, j);
            lemma_resolve_advances(env, pair.env, n);
            let _ = pair.env.lin[i].slots[j];
            match pair.verdict {
                Verdict::Typed(tp) => match tp.prim {
                    PrimType::Pair(tl, tr) => {
                        let d = (depth + 1) as usize;
                        let outer = pair.env;
                        lemma_enter_two(outer, depth, l, *tl, r, *tr);
                        let start = outer.push(d).insert(l, *tl).insert(r, *tr);
                        lemma_split_tops(outer, depth, l, *tl, r, *tr, n);
                        lemma_judge_advances(*body, start, d);
                        let ob = judge(*body, start, d);
                        assert(start.lin.drop_last()[i] == start.lin[i]);
                        lemma_uses(*body, start, d, i, j);
                        lemma_scope_counted(
                            outer,
                            start,
                            ob.env,
                            depth,
                            i,
                            j,
                            body.uses(n),
                            l == n || r == n,
                        );
                    },
                    _ => {},
                },
                _ => {},
            }
        },
    }
}

/// `lemma_uses` for two parts of the term `whole`, of which the second is
/// typed in the environment that the first leaves behind.
proof fn lemma_seq_uses(whole: Term, a: Term, b: Term, env: Scopes, depth: usize, i: int, j: int)
    requires
        decreases_to!(whole => a),
        decreases_to!(whole => b),
        orderly(env, depth),
        tidy(a, env, depth),
        tidy(b, judge(a, env, depth).env, depth),
        judge(a, env, depth).verdict is Typed,
        judge(b, judge(a, env, depth).env, depth).verdict is Typed,
        0 <= i < env.lin.len(),
        0 <= j < env.lin[i].slots.len(),
    ensures
        counted(
            a.uses(env.lin[i].slots[j].name) + b.uses(env.lin[i].slots[j].name),
            env.resolve(env.lin[i].slots[j].name) == Hit::Lin(i, j),
            env.lin[i].slots[j].cell,
            judge(b, judge(a, env, depth).env, depth).env.lin[i].slots[j].cell,
        ),
    decreases whole, 0nat,
{
    let n = env.lin[i].slots[j].name;
    let first = judge(a, env, depth);
    lemma_judge_advances(a, env, depth);
    lemma_uses(a, env, depth, i, j);
    lemma_resolve_advances(env, first.env, n);
    let _ = first.env.lin[i].slots[j];
    lemma_uses(b, first.env, depth, i, j);
}

/// `lemma_uses` for the body of a scope of the term `whole` that binds one
/// name.
proof fn lemma_bind_uses(
    whole: Term,
    p: Seq<char>,
    ty: TypeExpr,
    body: Term,
    env: Scopes,
    depth: usize,
    i: int,
    j: int,
)
    requires
        decreases_to!(whole => body),
        orderly(env, depth),
        depth < usize::MAX,
        tidy(body, env.push((depth + 1) as usize).insert(p, ty), (depth + 1) as usize),
        judge(body, env.push((depth + 1) as usize).insert(p, ty), (depth + 1) as usize).verdict
            is Typed,
        0 <= i < env.lin.len(),
        0 <= j < env.lin[i].slots.len(),
    ensures
        counted(
            if p == env.lin[i].slots[j].name {
                0
            } else {
                body.uses(env.lin[i].slots[j].name)
            },
            env.resolve(env.lin[i].slots[j].name) == Hit::Lin(i, j),
            env.lin[i].slots[j].cell,
            judge(
                body,
                env.push((depth + 1) as usize).insert(p, ty),
                (depth + 1) as usize,
            ).env.pop((depth + 1) as usize).lin[i].slots[j].cell,
        ),
    decreases whole, 0nat,
{
    let d = (depth + 1) as usize;
    let n = env.lin[i].slots[j].name;
    lemma_push_opened(env, depth);
    lemma_insert_opened(env, env.push(d), depth, Set::empty(), p, ty);
    let start = env.push(d).insert(p, ty);
    lemma_one_top(env.push(d), start, p, ty, n);
    lemma_judge_advances(body, start, d);
    let ob = judge(body, start, d);
    assert(start.lin.drop_last()[i] == start.lin[i]);
    lemma_uses(body, start, d, i, j);
    lemma_scope_counted(env, start, ob.env, depth, i, j, body.uses(n), p == n);
}

/// The topmost frames after one name was bound in empty ones bind that name
/// and no other.
proof fn lemma_one_top(
    fresh: Scopes,
    start: Scopes,
    p: Seq<char>,
    ty: TypeExpr,
    n: Seq<char>,
)
    requires
        fresh.lin.last().slots == Seq::<Slot>::empty(),
        fresh.un.last().slots == Seq::<Slot>::empty(),
        ty.qual == Qual::Lin ==> start.un == fresh.un && start.lin.last().slots
            == fresh.lin.last().slots.push(Slot { name: p, cell: Some(ty) }),
        ty.qual != Qual::Lin ==> start.lin == fresh.lin && start.un.last().slots
            == fresh.un.last().slots.push(Slot { name: p, cell: Some(ty) }),
    ensures
        p == n ==> slot_of(start.lin.last().slots, n) is Some || slot_of(
            start.un.last().slots,
            n,
        ) is Some,
        p != n ==> slot_of(start.lin.last().slots, n) is None && slot_of(
            start.un.last().slots,
            n,
        ) is None,
        ty.qual == Qual::Lin ==> slot_of(start.lin.last().slots, p) == Some(0int),
{
    let one = Seq::<Slot>::empty().push(Slot { name: p, cell: Some(ty) });
    assert(one.drop_last() =~= Seq::<Slot>::empty());
    assert(slot_of(one.drop_last(), n) is None);
    assert(slot_of(Seq::<Slot>::empty(), n) is None);
}

/// The topmost frames after two different names were bound in empty ones
/// bind those names and no other.
proof fn lemma_two_tops(
    mid: Scopes,
    start: Scopes,
    l: Seq<char>,
    tl: TypeExpr,
    r: Seq<char>,
    tr: TypeExpr,
    n: Seq<char>,
)
    requires
        l != r,
        tops_bind_only(start, Set::empty().insert(l).insert(r)),
        tl.qual == Qual::Lin ==> mid.lin.last().slots == Seq::<Slot>::empty().push(
            Slot { name: l, cell: Some(tl) },
        ) && mid.un.last().slots == Seq::<Slot>::empty(),
        tl.qual != Qual::Lin ==> mid.un.last().slots == Seq::<Slot>::empty().push(
            Slot { name: l, cell: Some(tl) },
        ) && mid.lin.last().slots == Seq::<Slot>::empty(),
        tr.qual == Qual::Lin ==> start.un == mid.un && start.lin.last().slots
            == mid.lin.last().slots.push(Slot { name: r, cell: Some(tr) }),
        tr.qual != Qual::Lin ==> start.lin == mid.lin && start.un.last().slots
            == mid.un.last().slots.push(Slot { name: r, cell: Some(tr) }),
    ensures
        (l == n || r == n) ==> slot_of(start.lin.last().slots, n) is Some || slot_of(
            start.un.last().slots,
            n,
        ) is Some,
        !(l == n || r == n) ==> slot_of(start.lin.last().slots, n) is None && slot_of(
            start.un.last().slots,
            n,
        ) is None,
{
    let sl = Slot { name: l, cell: Some(tl) };
    let sr = Slot { name: r, cell: Some(tr) };
    let e = Seq::<Slot>::empty();
    assert(slot_of(e, n) is None);
    assert(e.push(sl).drop_last() =~= e);
    assert(e.push(sr).drop_last() =~= e);
    assert(e.push(sl).push(sr).drop_last() =~= e.push(sl));
    lemma_slot_of_bounds(start.lin.last().slots, n);
    lemma_slot_of_bounds(start.un.last().slots, n);
    if !(l == n || r == n) {
        match slot_of(start.lin.last().slots, n) {
            Some(a) => {
                assert(Set::<Seq<char>>::empty().insert(l).insert(r).contains(
                    start.lin.last().slots[a].name,
                ));
            },
            None => {},
        }
        match slot_of(start.un.last().slots, n) {
            Some(a) => {
                assert(Set::<Seq<char>>::empty().insert(l).insert(r).contains(
                    start.un.last().slots[a].name,
                ));
            },
            None => {},
        }
    } else {
        assert(slot_of(e.push(sl), l) is Some);
        assert(slot_of(e.push(sr), r) is Some);
        assert(slot_of(e.push(sl).push(sr), r) is Some);
        assert(slot_of(e.push(sl).push(sr), l) is Some);
    }
}

/// The topmost frames after the components of a pair were bound bind the
/// names of the components and no other.
proof fn lemma_split_tops(
    outer: Scopes,
    depth: usize,
    l: Seq<char>,
    tl: TypeExpr,
    r: Seq<char>,
    tr: TypeExpr,
    n: Seq<char>,
)
    requires
        orderly(outer, depth),
        depth < usize::MAX,
        l != r || (tl.qual == Qual::Un && tr.qual == Qual::Un),
    ensures
        ({
            let start = outer.push((depth + 1) as usize).insert(l, tl).insert(r, tr);
            &&& (l == n || r == n) ==> slot_of(start.lin.last().slots, n) is Some || slot_of(
                start.un.last().slots,
                n,
            ) is Some
            &&& !(l == n || r == n) ==> slot_of(start.lin.last().slots, n) is None && slot_of(
                start.un.last().slots,
                n,
            ) is None
        }),
{
    let d = (depth + 1) as usize;
    lemma_push_opened(outer, depth);
    lemma_insert_opened(outer, outer.push(d), depth, Set::empty(), l, tl);
    let mid = outer.push(d).insert(l, tl);
    assert(outer.push(d).lin.last().slots =~= Seq::<Slot>::empty());
    assert(outer.push(d).un.last().slots =~= Seq::<Slot>::empty());
    if l != r {
        lemma_insert_opened(outer, mid, depth, Set::empty().insert(l), r, tr);
        lemma_two_tops(mid, mid.insert(r, tr), l, tl, r, tr, n);
    } else {
        crate::order::lemma_rebind_opened(outer, mid, depth, l, tl, tr);
        let start = mid.insert(r, tr);
        let e = Seq::<Slot>::empty();
        let one = e.push(Slot { name: l, cell: Some(tr) });
        assert(start.lin.last().slots =~= e);
        assert(one.drop_last() =~= e);
        assert(slot_of(e, n) is None);
        assert(slot_of(one, l) is Some);
    }
}

/// A frame in which no binding is left has empty cells only.
proof fn lemma_leftover_none(slots: Seq<Slot>, j: int)
    requires
        leftover(slots) is None,
        0 <= j < slots.len(),
    ensures
        slots[j].cell is None,
    decreases slots.len(),
{
    if j < slots.len() - 1 {
        lemma_leftover_none(slots.drop_last(), j);
    }
}

/// A binding of the topmost linear frame of a scope that has just been
/// opened is used exactly once by a body behind which nothing is left.
proof fn lemma_top_binding_used_once(
    outer: Scopes,
    start: Scopes,
    x: Seq<char>,
    at: int,
    body: Term,
    depth: usize,
)
    requires
        orderly(outer, depth),
        depth < usize::MAX,
        opened(outer, start, (depth + 1) as usize),
        orderly(start, (depth + 1) as usize),
        slot_of(start.lin.last().slots, x) == Some(at),
        slot_of(start.un.last().slots, x) is None,
        0 <= at < start.lin.last().slots.len(),
        start.lin.last().slots[at].cell is Some,
        tidy(body, start, (depth + 1) as usize),
        leave(judge(body, start, (depth + 1) as usize), (depth + 1) as usize).verdict is Typed,
    ensures
        body.uses(x) == 1,
{
    let d = (depth + 1) as usize;
    let top = outer.lin.len() as int;
    assert(start.lin.last() == start.lin[top]);
    lemma_slot_of_bounds(start.lin.last().slots, x);
    lemma_find_bounds(outer.un, x);
    assert(find(start.lin, x) == Some((top, at)));
    match find(outer.un, x) {
        Some((i2, j2)) => {
            assert(start.un.drop_last()[i2] == start.un[i2]);
            assert(outer.un[i2].depth <= depth);
        },
        None => {},
    }
    assert(find(start.un, x) == find(outer.un, x));
    assert(start.resolve(x) == Hit::Lin(top, at));
    let ob = judge(body, start, d);
    lemma_judge_advances(body, start, d);
    lemma_uses(body, start, d, top, at);
    lemma_close(outer, start, ob.env, depth);
    assert(ob.env.lin.last() == ob.env.lin[top]);
    lemma_leftover_none(ob.env.lin.last().slots, at);
}

/// A scope that binds the linear variable `x`, and whose end finds nothing
/// left, has a body that uses `x` exactly once.
pub proof fn lemma_binder_used_once(
    outer: Scopes,
    x: Seq<char>,
    ty: TypeExpr,
    body: Term,
    depth: usize,
)
    requires
        orderly(outer, depth),
        depth < usize::MAX,
        tidy(body, outer.push((depth + 1) as usize).insert(x, ty), (depth + 1) as usize),
        ty.qual == Qual::Lin,
        leave(
            judge(body, outer.push((depth + 1) as usize).insert(x, ty), (depth + 1) as usize),
            (depth + 1) as usize,
        ).verdict is Typed,
    ensures
        body.uses(x) == 1,
{
    let d = (depth + 1) as usize;
    lemma_push_opened(outer, depth);
    lemma_insert_opened(outer, outer.push(d), depth, Set::empty(), x, ty);
    let start = outer.push(d).insert(x, ty);
    lemma_one_top(outer.push(d), start, x, ty, x);
    assert(start.un.last().slots =~= Seq::<Slot>::empty());
    assert(slot_of(start.un.last().slots, x) is None);
    lemma_top_binding_used_once(outer, start, x, 0, body, depth);
}

/// A scope that binds the components of a pair to the names `l` and `r`,
/// and whose end finds nothing left, has a body that uses each name of a
/// linear component exactly once.
pub proof fn lemma_components_used_once(
    outer: Scopes,
    l: Seq<char>,
    tl: TypeExpr,
    r: Seq<char>,
    tr: TypeExpr,
    body: Term,
    depth: usize,
)
    requires
        orderly(outer, depth),
        depth < usize::MAX,
        l != r || (tl.qual == Qual::Un && tr.qual == Qual::Un),
        tidy(
            body,
            outer.push((depth + 1) as usize).insert(l, tl).insert(r, tr),
            (depth + 1) as usize,
        ),
        leave(
            judge(
                body,
                outer.push((depth + 1) as usize).insert(l, tl).insert(r, tr),
                (depth + 1) as usize,
            ),
            (depth + 1) as usize,
        ).verdict is Typed,
    ensures
        tl.qual == Qual::Lin ==> body.uses(l) == 1,
        tr.qual == Qual::Lin ==> body.uses(r) == 1,
{
    if l == r {
        return ;
    }
    let d = (depth + 1) as usize;
    lemma_push_opened(outer, depth);
    lemma_insert_opened(outer, outer.push(d), depth, Set::empty(), l, tl);
    let mid = outer.push(d).insert(l, tl);
    lemma_insert_opened(outer, mid, depth, Set::empty().insert(l), r, tr);
    let start = mid.insert(r, tr);
    let e = Seq::<Slot>::empty();
    let sl = Slot { name: l, cell: Some(tl) };
    let sr = Slot { name: r, cell: Some(tr) };
    assert(outer.push(d).lin.last().slots =~= e);
    assert(outer.push(d).un.last().slots =~= e);
    assert(e.push(sl).drop_last() =~= e);
    assert(e.push(sr).drop_last() =~= e);
    assert(e.push(sl).push(sr).drop_last() =~= e.push(sl));
    assert(slot_of(e, l) is None);
    assert(slot_of(e, r) is None);
    assert(slot_of(e.push(sl), r) is None);
    assert(slot_of(e.push(sr), l) is None);
    assert(slot_of(e.push(sl), l) == Some(0int));
    assert(slot_of(e.push(sr), r) == Some(0int));
    assert(slot_of(e.push(sl).push(sr), l) == Some(0int));
    assert(slot_of(e.push(sl).push(sr), r) == Some(1int));
    if tl.qual == Qual::Lin {
        // `l` stands first in the linear frame.
        assert(slot_of(start.lin.last().slots, l) == Some(0int));
        assert(slot_of(start.un.last().slots, l) is None);
        lemma_top_binding_used_once(outer, start, l, 0, body, depth);
    }
    if tr.qual == Qual::Lin {
        // `r` stands behind `l` in the linear frame, or alone in it.
        let at = if tl.qual == Qual::Lin {
            1int
        } else {
            0int
        };
        assert(slot_of(start.lin.last().slots, r) == Some(at));
        assert(slot_of(start.un.last().slots, r) is None);
        lemma_top_binding_used_once(outer, start, r, at, body, depth);
    }
}

/// Along the derivation of `t` from `env`, every scope uses each linear
/// variable that it binds exactly once, and the two branches of every
/// conditional use the same linear variables of their surroundings.
pub open spec fn disciplined(t: Term, env: Scopes, depth: usize) -> bool
    decreases t,
{
    let d = (depth + 1) as usize;
    match t {
        Term::Var(_) => true,
        Term::Bool(_, _) => true,
        Term::Pair(_, a, b) => disciplined(*a, env, depth) && disciplined(
            *b,
            judge(*a, env, depth).env,
            depth,
        ),
        Term::App(f, a) => disciplined(*f, env, depth) && disciplined(
            *a,
            judge(*f, env, depth).env,
            depth,
        ),
        Term::Fun(q, x, ty, body) => (ty.qual == Qual::Lin ==> body.uses(x) == 1) && disciplined(
            *body,
            veiled(q, env).push(d).insert(x, ty),
            d,
        ),
        Term::Let(x, ty, e, body) => disciplined(*e, env, depth) && (ty.qual == Qual::Lin
            ==> body.uses(x) == 1) && disciplined(
            *body,
            judge(*e, env, depth).env.push(d).insert(x, ty),
            d,
        ),
        Term::Split(s, l, r, body) => disciplined(*s, env, depth) && match judge(
            *s,
            env,
            depth,
        ).verdict {
            Verdict::Typed(tp) => match tp.prim {
                PrimType::Pair(tl, tr) => (tl.qual == Qual::Lin ==> body.uses(l) == 1) && (tr.qual
                    == Qual::Lin ==> body.uses(r) == 1) && disciplined(
                    *body,
                    judge(*s, env, depth).env.push(d).insert(l, *tl).insert(r, *tr),
                    d,
                ),
                _ => true,
            },
            _ => true,
        },
        Term::If(c, a, b) => disciplined(*c, env, depth) && disciplined(
            *a,
            judge(*c, env, depth).env,
            depth,
        ) && disciplined(*b, judge(*c, env, depth).env, depth) && forall|x: Seq<char>|
            judge(*c, env, depth).env.resolve(x) is Lin ==> #[trigger] a.uses(x) == b.uses(x),
        Term::Free(x, rest) => disciplined(*rest, env.with_cell(env.resolve(x), None), depth),
    }
}

/// Two terms that are typed from one environment and leave one environment
/// behind use the same linear variables.
pub proof fn lemma_same_uses(a: Term, b: Term, env: Scopes, depth: usize, x: Seq<char>)
    requires
        orderly(env, depth),
        tidy(a, env, depth),
        tidy(b, env, depth),
        judge(a, env, depth).verdict is Typed,
        judge(b, env, depth).verdict is Typed,
        judge(a, env, depth).env == judge(b, env, depth).env,
        env.resolve(x) is Lin,
    ensures
        a.uses(x) == b.uses(x),
{
    lemma_resolve_in_range(env, x);
    match env.resolve(x) {
        Hit::Lin(i, j) => {
            lemma_uses(a, env, depth, i, j);
            lemma_uses(b, env, depth, i, j);
        },
        _ => {},
    }
}

/// A tidy derivation from an orderly environment that ends with a type is
/// disciplined.
pub proof fn lemma_disciplined(t: Term, env: Scopes, depth: usize)
    requires
        orderly(env, depth),
        tidy(t, env, depth),
        judge(t, env, depth).verdict is Typed,
    ensures
        disciplined(t, env, depth),
    decreases t,
{
    let d = (depth + 1) as usize;
    match t {
        Term::Var(_) => {},
        Term::Bool(_, _) => {},
        Term::Pair(_, a, b) => {
            lemma_judge_advances(*a, env, depth);
            lemma_disciplined(*a, env, depth);
            lemma_disciplined(*b, judge(*a, env, depth).env, depth);
        },
        Term::App(f, a) => {
            lemma_judge_advances(*f, env, depth);
            lemma_disciplined(*f, env, depth);
            lemma_disciplined(*a, judge(*f, env, depth).env, depth);
        },
        Term::Fun(q, x, ty, body) => {
            let inner = veiled(q, env);
            assert(orderly(inner, depth));
            lemma_push_opened(inner, depth);
            lemma_insert_opened(inner, inner.push(d), depth, Set::empty(), x, ty);
            if ty.qual == Qual::Lin {
                lemma_binder_used_once(inner, x, ty, *body, depth);
            }
            lemma_disciplined(*body, inner.push(d).insert(x, ty), d);
        },
        Term::Let(x, ty, e, body) => {
            lemma_judge_advances(*e, env, depth);
            lemma_disciplined(*e, env, depth);
            let outer = judge(*e, env, depth).env;
            lemma_push_opened(outer, depth);
            lemma_insert_opened(outer, outer.push(d), depth, Set::empty(), x, ty);
            if ty.qual == Qual::Lin {
                lemma_binder_used_once(outer, x, ty, *body, depth);
            }
            lemma_disciplined(*body, outer.push(d).insert(x, ty), d);
        },
        Term::Split(s, l, r, body) => {
            lemma_judge_advances(*s, env, depth);
            lemma_disciplined(*s, env, depth);
            let outer = judge(*s, env, depth).env;
            match judge(*s, env, depth).verdict {
                Verdict::Typed(tp) => match tp.prim {
                    PrimType::Pair(tl, tr) => {
                        lemma_enter_two(outer, depth, l, *tl, r, *tr);
                        lemma_components_used_once(outer, l, *tl, r, *tr, *body, depth);
                        lemma_disciplined(
                            *body,
                            outer.push(d).insert(l, *tl).insert(r, *tr),
                            d,
                        );
                    },
                    _ => {},
                },
                _ => {},
            }
        },
        Term::If(c, a, b) => {
            lemma_judge_advances(*c, env, depth);
            lemma_disciplined(*c, env, depth);
            let mid = judge(*c, env, depth).env;
            lemma_disciplined(*a, mid, depth);
            lemma_disciplined(*b, mid, depth);
            assert forall|x: Seq<char>| mid.resolve(x) is Lin implies #[trigger] a.uses(x)
                == b.uses(x) by {
                lemma_same_uses(*a, *b, mid, depth, x);
            }
        },
        Term::Free(x, rest) => {
            lemma_var_advances(x, env, depth);
            let next = env.with_cell(env.resolve(x), None);
            lemma_advances_orderly(env, next, depth);
            lemma_disciplined(*rest, next, depth);
        },
    }
}

/// A name that nothing binds is bound by nothing in an opened scope whose
/// topmost frames do not bind it.
proof fn lemma_missing_opened(outer: Scopes, inner: Scopes, d: usize, name: Seq<char>)
    requires
        opened(outer, inner, d),
        outer.resolve(name) is Missing,
        slot_of(inner.lin.last().slots, name) is None,
        slot_of(inner.un.last().slots, name) is None,
    ensures
        inner.resolve(name) is Missing,
{
    lemma_resolve_opened(outer, inner, d, name);
}

/// A term that has a type does not refer to a name that nothing binds.
pub proof fn lemma_unbound_not_mentioned(t: Term, env: Scopes, depth: usize, x: Seq<char>)
    requires
        orderly(env, depth),
        tidy(t, env, depth),
        judge(t, env, depth).verdict is Typed,
        env.resolve(x) is Missing,
    ensures
        !t.mentions(x),
    decreases t,
{
    let d = (depth + 1) as usize;
    lemma_judge_advances(t, env, depth);
    match t {
        Term::Var(_) => {},
        Term::Bool(_, _) => {},
        Term::Pair(_, a, b) => {
            lemma_judge_advances(*a, env, depth);
            lemma_unbound_not_mentioned(*a, env, depth, x);
            let mid = judge(*a, env, depth).env;
            lemma_resolve_advances(env, mid, x);
            lemma_unbound_not_mentioned(*b, mid, depth, x);
        },
        Term::App(f, a) => {
            lemma_judge_advances(*f, env, depth);
            lemma_unbound_not_mentioned(*f, env, depth, x);
            let mid = judge(*f, env, depth).env;
            lemma_resolve_advances(env, mid, x);
            lemma_unbound_not_mentioned(*a, mid, depth, x);
        },
        Term::If(c, a, b) => {
            lemma_judge_advances(*c, env, depth);
            lemma_unbound_not_mentioned(*c, env, depth, x);
            let mid = judge(*c, env, depth).env;
            lemma_resolve_advances(env, mid, x);
            lemma_unbound_not_mentioned(*a, mid, depth, x);
            lemma_unbound_not_mentioned(*b, mid, depth, x);
        },
        Term::Free(y, rest) => {
            lemma_var_advances(y, env, depth);
            let next = env.with_cell(env.resolve(y), None);
            lemma_advances_orderly(env, next, depth);
            lemma_resolve_advances(env, next, x);
            lemma_unbound_not_mentioned(*rest, next, depth, x);
        },
        Term::Fun(q, p, ty, body) => {
            if p != x {
                let inner = veiled(q, env);
                assert(orderly(inner, depth));
                assert(find(Seq::<Level>::empty(), x) is None);
                assert(inner.resolve(x) is Missing);
                lemma_push_opened(inner, depth);
                lemma_insert_opened(inner, inner.push(d), depth, Set::empty(), p, ty);
                let start = inner.push(d).insert(p, ty);
                lemma_one_top(inner.push(d), start, p, ty, x);
                lemma_missing_opened(inner, start, d, x);
                lemma_unbound_not_mentioned(*body, start, d, x);
            }
        },
        Term::Let(p, ty, e, body) => {
            lemma_judge_advances(*e, env, depth);
            lemma_unbound_not_mentioned(*e, env, depth, x);
            if p != x {
                let outer = judge(*e, env, depth).env;
                lemma_resolve_advances(env, outer, x);
                lemma_push_opened(outer, depth);
                lemma_insert_opened(outer, outer.push(d), depth, Set::empty(), p, ty);
                let start = outer.push(d).insert(p, ty);
                lemma_one_top(outer.push(d), start, p, ty, x);
                lemma_missing_opened(outer, start, d, x);
                lemma_unbound_not_mentioned(*body, start, d, x);
            }
        },
        Term::Split(s, l, r, body) => {
            lemma_judge_advances(*s, env, depth);
            lemma_unbound_not_mentioned(*s, env, depth, x);
            if l != x && r != x {
                let outer = judge(*s, env, depth).env;
                lemma_resolve_advances(env, outer, x);
                match judge(*s, env, depth).verdict {
                    Verdict::Typed(tp) => match tp.prim {
                        PrimType::Pair(tl, tr) => {
                            lemma_enter_two(outer, depth, l, *tl, r, *tr);
                            lemma_split_tops(outer, depth, l, *tl, r, *tr, x);
                            let start = outer.push(d).insert(l, *tl).insert(r, *tr);
                            lemma_missing_opened(outer, start, d, x);
                            lemma_unbound_not_mentioned(*body, start, d, x);
                        },
                        _ => {},
                    },
                    _ => {},
                }
            }
        },
    }
}

} // verus!
