//! The mathematical model of the scoped type environment.
//!
//! A frame is a sequence of named cells, a stack is a sequence of frames in
//! increasing depth, and the environment is a pair of stacks: one for linear
//! bindings, one for unrestricted bindings.

use crate::ast::{Qual, TypeExpr};
use vstd::prelude::*;

verus! {

/// One binding: a name and its cell. The cell holds the binding's type while
/// the binding is available and is empty once it has been consumed.
pub struct Slot {
    pub name: Seq<char>,
    pub cell: Option<TypeExpr>,
}

/// One frame of a stack.
pub struct Level {
    pub depth: usize,
    pub slots: Seq<Slot>,
}

/// Position of the slot called `name`, if the frame has one.
pub open spec fn slot_of(slots: Seq<Slot>, name: Seq<char>) -> Option<int>
    decreases slots.len(),
{
    if slots.len() == 0 {
        None
    } else if slots.last().name == name {
        Some(slots.len() - 1)
    } else {
        slot_of(slots.drop_last(), name)
    }
}

/// The frame after binding `name` to `cell`: an existing slot of that name is
/// overwritten in place, a new name is appended.
pub open spec fn put(slots: Seq<Slot>, name: Seq<char>, cell: Option<TypeExpr>) -> Seq<Slot> {
    match slot_of(slots, name) {
        Some(j) => slots.update(j, Slot { name, cell }),
        None => slots.push(Slot { name, cell }),
    }
}

/// Name of the first slot whose binding is still available.
pub open spec fn leftover(slots: Seq<Slot>) -> Option<Seq<char>>
    decreases slots.len(),
{
    if slots.len() == 0 {
        None
    } else {
        match leftover(slots.drop_last()) {
            Some(name) => Some(name),
            None => if slots.last().cell is Some {
                Some(slots.last().name)
            } else {
                None
            },
        }
    }
}

/// No name occurs twice in the frame.
pub open spec fn distinct(slots: Seq<Slot>) -> bool {
    forall|i: int, j: int| 0 <= i < j < slots.len() ==> slots[i].name != slots[j].name
}

/// Number of frames that lie strictly below depth `d` when counted from the
/// top: the position at which a frame of depth `d` stands or would stand.
pub open spec fn rank(s: Seq<Level>, d: usize) -> int
    decreases s.len(),
{
    if s.len() > 0 && s.last().depth >= d {
        rank(s.drop_last(), d)
    } else {
        s.len() as int
    }
}

/// The stack has a frame of depth `d`.
pub open spec fn holds(s: Seq<Level>, d: usize) -> bool {
    rank(s, d) < s.len() && s[rank(s, d)].depth == d
}

/// The stack after an empty frame of depth `d` was put in place; a frame that
/// stood at that depth is replaced.
pub open spec fn pushed(s: Seq<Level>, d: usize) -> Seq<Level> {
    let k = rank(s, d);
    let fresh = Level { depth: d, slots: Seq::empty() };
    if holds(s, d) {
        s.update(k, fresh)
    } else {
        s.insert(k, fresh)
    }
}

/// The stack without its frame of depth `d`.
pub open spec fn popped(s: Seq<Level>, d: usize) -> Seq<Level> {
    if holds(s, d) {
        s.remove(rank(s, d))
    } else {
        s
    }
}

/// The frame of depth `d`, if there is one.
pub open spec fn frame_at(s: Seq<Level>, d: usize) -> Option<Seq<Slot>> {
    if holds(s, d) {
        Some(s[rank(s, d)].slots)
    } else {
        None
    }
}

/// The stack after `name` was bound to an available cell of type `ty` in its
/// topmost frame. A stack without frames stays as it is.
pub open spec fn bound(s: Seq<Level>, name: Seq<char>, ty: TypeExpr) -> Seq<Level> {
    if s.len() == 0 {
        s
    } else {
        s.update(
            s.len() - 1,
            Level { depth: s.last().depth, slots: put(s.last().slots, name, Some(ty)) },
        )
    }
}

/// Frame and slot of the innermost binding of `name` in the stack.
pub open spec fn find(s: Seq<Level>, name: Seq<char>) -> Option<(int, int)>
    decreases s.len(),
{
    if s.len() == 0 {
        None
    } else {
        match slot_of(s.last().slots, name) {
            Some(j) => Some((s.len() - 1, j)),
            None => find(s.drop_last(), name),
        }
    }
}

/// The stack with the cell of slot `j` in frame `i` set to `cell`.
pub open spec fn with_cell(s: Seq<Level>, i: int, j: int, cell: Option<TypeExpr>) -> Seq<Level> {
    s.update(
        i,
        Level {
            depth: s[i].depth,
            slots: s[i].slots.update(j, Slot { name: s[i].slots[j].name, cell }),
        },
    )
}

/// Depths increase strictly from the bottom to the top, and no frame binds a
/// name twice.
pub open spec fn stack_wf(s: Seq<Level>) -> bool {
    &&& forall|i: int, j: int| 0 <= i < j < s.len() ==> s[i].depth < s[j].depth
    &&& forall|i: int| 0 <= i < s.len() ==> distinct(#[trigger] s[i].slots)
}

/// Writing a cell keeps a stack well formed.
pub proof fn lemma_with_cell_wf(s: Seq<Level>, i: int, j: int, cell: Option<TypeExpr>)
    requires
        stack_wf(s),
        0 <= i < s.len(),
        0 <= j < s[i].slots.len(),
    ensures
        stack_wf(with_cell(s, i, j, cell)),
{
    let t = with_cell(s, i, j, cell);
    assert forall|k: int| 0 <= k < t.len() implies distinct(#[trigger] t[k].slots) by {
        assert(distinct(s[k].slots));
    }
}

/// Writing to a cell what it holds changes nothing.
pub proof fn lemma_with_cell_same(s: Seq<Level>, i: int, j: int)
    requires
        0 <= i < s.len(),
        0 <= j < s[i].slots.len(),
    ensures
        with_cell(s, i, j, s[i].slots[j].cell) == s,
{
    let t = with_cell(s, i, j, s[i].slots[j].cell);
    assert(t[i].slots =~= s[i].slots);
    assert(t =~= s);
}

/// `rank` is a position of the stack; the frames from it on lie at depth
/// `d` or above, the frame below it lies below `d`.
pub proof fn lemma_rank_bounds(s: Seq<Level>, d: usize)
    ensures
        0 <= rank(s, d) <= s.len(),
        forall|i: int| rank(s, d) <= i < s.len() ==> (#[trigger] s[i]).depth >= d,
        rank(s, d) > 0 ==> s[rank(s, d) - 1].depth < d,
    decreases s.len(),
{
    if s.len() > 0 && s.last().depth >= d {
        let t = s.drop_last();
        lemma_rank_bounds(t, d);
        assert forall|i: int| rank(s, d) <= i < s.len() implies (#[trigger] s[i]).depth >= d by {
            if i < t.len() {
                assert(t[i].depth >= d);
            }
        }
    }
}

/// `slot_of` finds a slot of the given name, or there is none.
pub proof fn lemma_slot_of_bounds(slots: Seq<Slot>, name: Seq<char>)
    ensures
        match slot_of(slots, name) {
            Some(j) => 0 <= j < slots.len() && slots[j].name == name,
            None => forall|l: int| 0 <= l < slots.len() ==> (#[trigger] slots[l]).name != name,
        },
    decreases slots.len(),
{
    if slots.len() > 0 && slots.last().name != name {
        let t = slots.drop_last();
        lemma_slot_of_bounds(t, name);
        if slot_of(slots, name) is None {
            assert forall|l: int| 0 <= l < slots.len() implies (#[trigger] slots[l]).name
                != name by {
                if l < t.len() {
                    assert(t[l].name != name);
                }
            }
        }
    }
}

/// `find` finds a slot of the given name.
pub proof fn lemma_find_bounds(s: Seq<Level>, name: Seq<char>)
    ensures
        match find(s, name) {
            Some((i, j)) => 0 <= i < s.len() && slot_of(s[i].slots, name) == Some(j) && 0 <= j
                < s[i].slots.len(),
            None => true,
        },
    decreases s.len(),
{
    if s.len() > 0 {
        lemma_slot_of_bounds(s.last().slots, name);
        if slot_of(s.last().slots, name) is None {
            lemma_find_bounds(s.drop_last(), name);
        }
    }
}

/// What a name refers to in an environment.
pub enum Hit {
    /// The name is bound in neither stack.
    Missing,
    /// `Lin(i, j)`: the innermost binding is slot `j` of frame `i` of the
    /// linear stack.
    Lin(int, int),
    /// `Un(i, j)`: the innermost binding is slot `j` of frame `i` of the
    /// unrestricted stack.
    Un(int, int),
    /// Both stacks bind the name at the same depth.
    Ambiguous,
}

/// The environment: a stack of linear bindings and a stack of unrestricted
/// bindings.
pub struct Scopes {
    pub lin: Seq<Level>,
    pub un: Seq<Level>,
}

impl Scopes {
    /// The environment without any frame.
    pub open spec fn empty() -> Scopes {
        Scopes { lin: Seq::empty(), un: Seq::empty() }
    }

    /// Both stacks are well formed.
    pub open spec fn wf(self) -> bool {
        stack_wf(self.lin) && stack_wf(self.un)
    }

    /// An empty frame of depth `d` on both stacks.
    pub open spec fn push(self, d: usize) -> Scopes {
        Scopes { lin: pushed(self.lin, d), un: pushed(self.un, d) }
    }

    /// Both stacks without their frame of depth `d`.
    pub open spec fn pop(self, d: usize) -> Scopes {
        Scopes { lin: popped(self.lin, d), un: popped(self.un, d) }
    }

    /// `name` bound to `ty` in the topmost frame of the stack that `ty`'s
    /// qualifier selects.
    pub open spec fn insert(self, name: Seq<char>, ty: TypeExpr) -> Scopes {
        if ty.qual == Qual::Lin {
            Scopes { lin: bound(self.lin, name, ty), un: self.un }
        } else {
            Scopes { lin: self.lin, un: bound(self.un, name, ty) }
        }
    }

    /// The binding that `name` refers to: the deeper of the innermost binding
    /// in each stack.
    pub open spec fn resolve(self, name: Seq<char>) -> Hit {
        match (find(self.lin, name), find(self.un, name)) {
            (Some((i1, j1)), Some((i2, j2))) => {
                if self.lin[i1].depth < self.un[i2].depth {
                    Hit::Un(i2, j2)
                } else if self.lin[i1].depth > self.un[i2].depth {
                    Hit::Lin(i1, j1)
                } else {
                    Hit::Ambiguous
                }
            },
            (Some((i1, j1)), None) => Hit::Lin(i1, j1),
            (None, Some((i2, j2))) => Hit::Un(i2, j2),
            (None, None) => Hit::Missing,
        }
    }

    /// The cell that `hit` points at; empty where it points at none.
    pub open spec fn cell(self, hit: Hit) -> Option<TypeExpr> {
        match hit {
            Hit::Lin(i, j) => self.lin[i].slots[j].cell,
            Hit::Un(i, j) => self.un[i].slots[j].cell,
            _ => None,
        }
    }

    /// The environment with the cell that `hit` points at set to `cell`.
    pub open spec fn with_cell(self, hit: Hit, cell: Option<TypeExpr>) -> Scopes {
        match hit {
            Hit::Lin(i, j) => Scopes { lin: with_cell(self.lin, i, j, cell), un: self.un },
            Hit::Un(i, j) => Scopes { lin: self.lin, un: with_cell(self.un, i, j, cell) },
            _ => self,
        }
    }
}

/// `hit` points at a slot of `env`.
pub open spec fn in_range(env: Scopes, hit: Hit) -> bool {
    match hit {
        Hit::Lin(i, j) => 0 <= i < env.lin.len() && 0 <= j < env.lin[i].slots.len(),
        Hit::Un(i, j) => 0 <= i < env.un.len() && 0 <= j < env.un[i].slots.len(),
        _ => true,
    }
}

/// A name resolves to a slot of the environment.
pub proof fn lemma_resolve_in_range(env: Scopes, name: Seq<char>)
    ensures
        in_range(env, env.resolve(name)),
        match env.resolve(name) {
            Hit::Lin(i, j) => env.lin[i].slots[j].name == name,
            Hit::Un(i, j) => env.un[i].slots[j].name == name,
            _ => true,
        },
{
    lemma_find_bounds(env.lin, name);
    lemma_find_bounds(env.un, name);
    match find(env.lin, name) {
        Some((i, j)) => lemma_slot_of_bounds(env.lin[i].slots, name),
        None => {},
    }
    match find(env.un, name) {
        Some((i, j)) => lemma_slot_of_bounds(env.un[i].slots, name),
        None => {},
    }
}

} // verus!
