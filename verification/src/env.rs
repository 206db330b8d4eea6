//! The scoped type environment: two stacks of frames, one for linear and one
//! for unrestricted bindings.

use crate::ast::{Qual, TypeExpr};
use crate::scope::{
    bound, find, frame_at, holds, in_range, leftover, lemma_find_bounds, lemma_rank_bounds,
    lemma_slot_of_bounds, popped, pushed, rank, slot_of, stack_wf, with_cell, Hit, Level, Scopes,
    Slot,
};
use vstd::prelude::*;
use vstd::std_specs::cmp::PartialEqSpecImpl;

verus! {

/// A named cell of a frame.
#[derive(Debug, PartialEq, Eq)]
pub struct Binding {
    pub name: String,
    pub cell: Option<TypeExpr>,
}

impl View for Binding {
    type V = Slot;

    open spec fn view(&self) -> Slot {
        Slot { name: self.name@, cell: self.cell }
    }
}

/// The slots that a vector of bindings stands for.
pub open spec fn slots_of(v: Seq<Binding>) -> Seq<Slot> {
    v.map_values(|b: Binding| b@)
}

#[derive(Debug, PartialEq, Eq)]
struct Frame {
    depth: usize,
    slots: Vec<Binding>,
}

impl View for Frame {
    type V = Level;

    closed spec fn view(&self) -> Level {
        Level { depth: self.depth, slots: slots_of(self.slots@) }
    }
}

/// One of the two stacks of an environment.
#[derive(Debug, Eq)]
pub struct TypeEnvStack {
    vars: Vec<Frame>,
}

impl View for TypeEnvStack {
    type V = Seq<Level>;

    closed spec fn view(&self) -> Seq<Level> {
        self.vars@.map_values(|f: Frame| f@)
    }
}

proof fn lemma_rank_take(s: Seq<Level>, d: usize, k: int)
    requires
        0 <= k <= s.len(),
        forall|i: int| k <= i < s.len() ==> (#[trigger] s[i]).depth >= d,
    ensures
        rank(s, d) == rank(s.take(k), d),
    decreases s.len() - k,
{
    if k < s.len() {
        assert(s.last().depth >= d);
        assert(s.drop_last().take(k) =~= s.take(k));
        lemma_rank_take(s.drop_last(), d, k);
    } else {
        assert(s.take(k) =~= s);
    }
}

/// The only difference between `before` and `after` is the cell of slot `j`
/// in frame `i`, which holds `cell` in `after`.
pub open spec fn touched(
    before: Seq<Level>,
    after: Seq<Level>,
    i: int,
    j: int,
    cell: Option<TypeExpr>,
) -> bool {
    &&& after.len() == before.len()
    &&& forall|k: int| 0 <= k < before.len() && k != i ==> after[k] == before[k]
    &&& after[i].depth == before[i].depth
    &&& after[i].slots.len() == before[i].slots.len()
    &&& forall|l: int|
        0 <= l < before[i].slots.len() && l != j ==> after[i].slots[l] == before[i].slots[l]
    &&& after[i].slots[j].name == before[i].slots[j].name
    &&& after[i].slots[j].cell == cell
}

/// A stack that was `touched` is the stack `with_cell`.
pub proof fn lemma_touched(
    before: Seq<Level>,
    after: Seq<Level>,
    i: int,
    j: int,
    cell: Option<TypeExpr>,
)
    requires
        0 <= i < before.len(),
        0 <= j < before[i].slots.len(),
        touched(before, after, i, j, cell),
    ensures
        after == with_cell(before, i, j, cell),
{
    let goal = with_cell(before, i, j, cell);
    assert(after[i].slots =~= goal[i].slots);
    assert(after =~= goal);
}

/// Position of the binding called `key` in a frame.
fn slot_index(slots: &Vec<Binding>, key: &str) -> (r: Option<usize>)
    ensures
        match r {
            Some(j) => slot_of(slots_of(slots@), key@) == Some(j as int) && j < slots.len(),
            None => slot_of(slots_of(slots@), key@) is None,
        },
{
    let ghost all = slots_of(slots@);
    let mut j: usize = slots.len();
    assert(all.take(j as int) =~= all);
    while j > 0
        invariant
            j <= slots.len(),
            all == slots_of(slots@),
            slot_of(all, key@) == slot_of(all.take(j as int), key@),
        decreases j,
    {
        assert(all.take(j as int).last() == slots@[j - 1]@);
        if slots[j - 1].name.as_str().eq(key) {
            return Some(j - 1);
        }
        assert(all.take(j as int).drop_last() =~= all.take(j - 1));
        j -= 1;
    }
    None
}

proof fn lemma_leftover_prefix(slots: Seq<Slot>, m: int)
    requires
        0 <= m <= slots.len(),
        leftover(slots.take(m)) is Some,
    ensures
        leftover(slots) == leftover(slots.take(m)),
    decreases slots.len() - m,
{
    if m < slots.len() {
        assert(slots.drop_last().take(m) =~= slots.take(m));
        lemma_leftover_prefix(slots.drop_last(), m);
    } else {
        assert(slots.take(m) =~= slots);
    }
}

/// Name of the first binding of a frame that is still available.
pub fn first_unconsumed(frame: &Vec<Binding>) -> (r: Option<String>)
    ensures
        match r {
            Some(name) => leftover(slots_of(frame@)) == Some(name@),
            None => leftover(slots_of(frame@)) is None,
        },
{
    let ghost all = slots_of(frame@);
    let mut k: usize = 0;
    while k < frame.len()
        invariant
            k <= frame.len(),
            all == slots_of(frame@),
            leftover(all.take(k as int)) is None,
        decreases frame.len() - k,
    {
        proof {
            assert(all.take(k + 1).drop_last() =~= all.take(k as int));
            assert(all.take(k + 1).last() == frame@[k as int]@);
        }
        if frame[k].cell.is_some() {
            proof {
                lemma_leftover_prefix(all, k + 1);
            }
            return Some(frame[k].name.clone());
        }
        k += 1;
    }
    assert(all.take(k as int) =~= all);
    None
}

/// A copy of a frame's bindings.
fn clone_slots(v: &Vec<Binding>) -> (r: Vec<Binding>)
    ensures
        slots_of(r@) == slots_of(v@),
{
    let mut r: Vec<Binding> = Vec::new();
    let mut k: usize = 0;
    while k < v.len()
        invariant
            k <= v.len(),
            r.len() == k,
            forall|l: int| 0 <= l < k ==> (#[trigger] r@[l])@ == v@[l]@,
        decreases v.len() - k,
    {
        let cell = match &v[k].cell {
            Some(t) => Some(t.clone()),
            None => None,
        };
        r.push(Binding { name: v[k].name.clone(), cell });
        k += 1;
    }
    assert(slots_of(r@) =~= slots_of(v@));
    r
}

/// Whether two frames hold the same bindings in the same order.
fn same_slots(a: &Vec<Binding>, b: &Vec<Binding>) -> (r: bool)
    ensures
        r == (slots_of(a@) == slots_of(b@)),
{
    if a.len() != b.len() {
        assert(slots_of(a@).len() != slots_of(b@).len());
        return false;
    }
    let mut k: usize = 0;
    while k < a.len()
        invariant
            k <= a.len(),
            a.len() == b.len(),
            forall|l: int| 0 <= l < k ==> (#[trigger] a@[l])@ == b@[l]@,
        decreases a.len() - k,
    {
        if !(a[k].name == b[k].name && a[k].cell == b[k].cell) {
            assert(slots_of(a@)[k as int] != slots_of(b@)[k as int]);
            return false;
        }
        k += 1;
    }
    assert(slots_of(a@) =~= slots_of(b@));
    true
}

impl TypeEnvStack {
    fn new() -> (r: TypeEnvStack)
        ensures
            r@ == Seq::<Level>::empty(),
            stack_wf(r@),
    {
        let r = TypeEnvStack { vars: Vec::new() };
        assert(r@ =~= Seq::<Level>::empty());
        r
    }

    /// Position of the frame of depth `depth`, or where it would stand.
    fn rank_of(&self, depth: usize) -> (k: usize)
        ensures
            k == rank(self@, depth),
            k <= self.vars.len(),
    {
        let mut k: usize = self.vars.len();
        while k > 0 && self.vars[k - 1].depth >= depth
            invariant
                k <= self.vars.len(),
                forall|i: int| k <= i < self@.len() ==> (#[trigger] self@[i]).depth >= depth,
            decreases k,
        {
            k -= 1;
        }
        proof {
            lemma_rank_take(self@, depth, k as int);
            if k > 0 {
                assert(self@.take(k as int).last() == self@[k - 1]);
            }
        }
        k
    }

    fn push(&mut self, depth: usize)
        requires
            stack_wf(old(self)@),
        ensures
            final(self)@ == pushed(old(self)@, depth),
            stack_wf(final(self)@),
    {
        let k: usize = self.rank_of(depth);
        let fresh = Frame { depth, slots: Vec::new() };
        proof {
            lemma_rank_bounds(self@, depth);
            assert(fresh@.slots =~= Seq::<Slot>::empty());
        }
        if k < self.vars.len() && self.vars[k].depth == depth {
            self.vars.set(k, fresh);
            assert(self@ =~= pushed(old(self)@, depth));
        } else {
            self.vars.insert(k, fresh);
            assert(self@ =~= pushed(old(self)@, depth));
        }
    }

    fn pop(&mut self, depth: usize) -> (r: Option<Vec<Binding>>)
        requires
            stack_wf(old(self)@),
        ensures
            final(self)@ == popped(old(self)@, depth),
            stack_wf(final(self)@),
            match r {
                Some(v) => frame_at(old(self)@, depth) == Some(slots_of(v@)),
                None => frame_at(old(self)@, depth) is None,
            },
    {
        let k: usize = self.rank_of(depth);
        proof {
            lemma_rank_bounds(self@, depth);
        }
        if k < self.vars.len() && self.vars[k].depth == depth {
            let f = self.vars.remove(k);
            assert(self@ =~= popped(old(self)@, depth));
            Some(f.slots)
        } else {
            None
        }
    }

    fn insert(&mut self, key: String, value: TypeExpr)
        requires
            stack_wf(old(self)@),
        ensures
            final(self)@ == bound(old(self)@, key@, value),
            stack_wf(final(self)@),
    {
        let n: usize = self.vars.len();
        if n > 0 {
            let found = slot_index(&self.vars[n - 1].slots, key.as_str());
            let ghost name = key@;
            let entry = Binding { name: key, cell: Some(value) };
            proof {
                lemma_slot_of_bounds(old(self)@.last().slots, name);
            }
            let slots = &mut self.vars[n - 1].slots;
            match found {
                Some(j) => {
                    slots.set(j, entry);
                },
                None => {
                    slots.push(entry);
                },
            }
            proof {
                let goal = bound(old(self)@, name, value);
                assert(self@[n - 1].slots =~= goal[n - 1].slots);
                assert(self@ =~= goal);
            }
        }
    }

    fn get_mut(&mut self, key: &str) -> (r: Option<(usize, &mut Option<TypeExpr>)>)
        ensures
            match r {
                Some((d, cell)) => match find(old(self)@, key@) {
                    Some((i, j)) => d == old(self)@[i].depth && *cell == old(self)@[i].slots[j].cell
                        && touched(old(self)@, final(self)@, i, j, *final(cell)),
                    None => false,
                },
                None => find(old(self)@, key@) is None && final(self)@ == old(self)@,
            },
    {
        let mut i: usize = self.vars.len();
        assert(self@.take(i as int) =~= self@);
        proof {
            lemma_find_bounds(self@, key@);
        }
        while i > 0
            invariant
                i <= self.vars.len(),
                *self == *old(self),
                find(self@, key@) == find(self@.take(i as int), key@),
            decreases i,
        {
            assert(self@.take(i as int).last() == self@[i - 1]);
            assert(self@.take(i as int).drop_last() =~= self@.take(i - 1));
            match slot_index(&self.vars[i - 1].slots, key) {
                Some(j) => {
                    let depth: usize = self.vars[i - 1].depth;
                    return Some((depth, &mut self.vars[i - 1].slots[j].cell));
                },
                None => {},
            }
            i -= 1;
        }
        None
    }
}

/// The only difference between `before` and `after` is the cell that `hit`
/// points at, which holds `cell` in `after`.
pub open spec fn touched_at(before: Scopes, after: Scopes, hit: Hit, cell: Option<TypeExpr>) -> bool {
    match hit {
        Hit::Lin(i, j) => alike(before.un, after.un) && touched(before.lin, after.lin, i, j, cell),
        Hit::Un(i, j) => alike(before.lin, after.lin) && touched(before.un, after.un, i, j, cell),
        _ => after == before,
    }
}

/// The two stacks agree frame by frame and slot by slot.
pub open spec fn alike(before: Seq<Level>, after: Seq<Level>) -> bool {
    &&& after.len() == before.len()
    &&& forall|k: int|
        0 <= k < before.len() ==> (#[trigger] after[k]).depth == before[k].depth
            && after[k].slots.len() == before[k].slots.len()
    &&& forall|k: int, l: int|
        0 <= k < before.len() && 0 <= l < before[k].slots.len() ==> (#[trigger] after[k].slots[l])
            == before[k].slots[l]
}

/// Stacks that are `alike` are equal.
pub proof fn lemma_alike(before: Seq<Level>, after: Seq<Level>)
    requires
        alike(before, after),
    ensures
        after == before,
{
    assert forall|k: int| 0 <= k < before.len() implies after[k] == before[k] by {
        assert(after[k].slots =~= before[k].slots);
    }
    assert(after =~= before);
}

/// An environment that was `touched_at` a slot is the environment
/// `with_cell`.
pub proof fn lemma_touched_at(before: Scopes, after: Scopes, hit: Hit, cell: Option<TypeExpr>)
    requires
        in_range(before, hit),
        touched_at(before, after, hit, cell),
    ensures
        after == before.with_cell(hit, cell),
{
    match hit {
        Hit::Lin(i, j) => {
            lemma_touched(before.lin, after.lin, i, j, cell);
            lemma_alike(before.un, after.un);
        },
        Hit::Un(i, j) => {
            lemma_touched(before.un, after.un, i, j, cell);
            lemma_alike(before.lin, after.lin);
        },
        _ => {},
    }
}

/// The scoped type environment.
#[derive(Debug, Eq)]
pub struct TypeEnv {
    env_lin: TypeEnvStack,
    env_un: TypeEnvStack,
}

impl View for TypeEnv {
    type V = Scopes;

    closed spec fn view(&self) -> Scopes {
        Scopes { lin: self.env_lin@, un: self.env_un@ }
    }
}

impl Clone for TypeEnvStack {
    fn clone(&self) -> (r: Self)
        ensures
            r@ == self@,
    {
        let mut vars: Vec<Frame> = Vec::new();
        let mut k: usize = 0;
        while k < self.vars.len()
            invariant
                k <= self.vars.len(),
                vars.len() == k,
                forall|l: int| 0 <= l < k ==> (#[trigger] vars@[l])@ == self.vars@[l]@,
            decreases self.vars.len() - k,
        {
            vars.push(Frame { depth: self.vars[k].depth, slots: clone_slots(&self.vars[k].slots) });
            k += 1;
        }
        let r = TypeEnvStack { vars };
        assert(r@ =~= self@);
        r
    }
}

impl PartialEq for TypeEnvStack {
    fn eq(&self, other: &Self) -> (r: bool) {
        if self.vars.len() != other.vars.len() {
            assert(self@.len() != other@.len());
            return false;
        }
        let mut k: usize = 0;
        while k < self.vars.len()
            invariant
                k <= self.vars.len(),
                self.vars.len() == other.vars.len(),
                forall|l: int| 0 <= l < k ==> (#[trigger] self.vars@[l])@ == other.vars@[l]@,
            decreases self.vars.len() - k,
        {
            if !(self.vars[k].depth == other.vars[k].depth && same_slots(
                &self.vars[k].slots,
                &other.vars[k].slots,
            )) {
                assert(self@[k as int] != other@[k as int]);
                return false;
            }
            k += 1;
        }
        assert(self@ =~= other@);
        true
    }
}

impl PartialEqSpecImpl for TypeEnvStack {
    open spec fn obeys_eq_spec() -> bool {
        true
    }

    open spec fn eq_spec(&self, other: &Self) -> bool {
        self@ == other@
    }
}

impl Clone for TypeEnv {
    fn clone(&self) -> (r: Self)
        ensures
            r@ == self@,
    {
        TypeEnv { env_lin: self.env_lin.clone(), env_un: self.env_un.clone() }
    }
}

impl PartialEq for TypeEnv {
    fn eq(&self, other: &Self) -> (r: bool) {
        self.env_lin == other.env_lin && self.env_un == other.env_un
    }
}

impl PartialEqSpecImpl for TypeEnv {
    open spec fn obeys_eq_spec() -> bool {
        true
    }

    open spec fn eq_spec(&self, other: &Self) -> bool {
        self@ == other@
    }
}

impl TypeEnv {
    /// The frames are ordered by depth and no frame binds a name twice.
    pub open spec fn wf(&self) -> bool {
        self@.wf()
    }

    /// An environment without any frame.
    pub fn new() -> (r: TypeEnv)
        ensures
            r@ == Scopes::empty(),
            r.wf(),
    {
        TypeEnv { env_lin: TypeEnvStack::new(), env_un: TypeEnvStack::new() }
    }

    /// Puts an empty frame of depth `depth` on both stacks.
    pub fn push(&mut self, depth: usize)
        requires
            old(self).wf(),
        ensures
            final(self)@ == old(self)@.push(depth),
            final(self).wf(),
    {
        self.env_lin.push(depth);
        self.env_un.push(depth);
    }

    /// Removes the frames of depth `depth` and hands them out, the linear one
    /// first.
    pub fn pop(&mut self, depth: usize) -> (r: (Option<Vec<Binding>>, Option<Vec<Binding>>))
        requires
            old(self).wf(),
        ensures
            final(self)@ == old(self)@.pop(depth),
            final(self).wf(),
            match r.0 {
                Some(v) => frame_at(old(self)@.lin, depth) == Some(slots_of(v@)),
                None => frame_at(old(self)@.lin, depth) is None,
            },
            match r.1 {
                Some(v) => frame_at(old(self)@.un, depth) == Some(slots_of(v@)),
                None => frame_at(old(self)@.un, depth) is None,
            },
    {
        let t1 = self.env_lin.pop(depth);
        let t2 = self.env_un.pop(depth);
        (t1, t2)
    }

    /// Binds `key` to `value` in the topmost frame of the stack that the
    /// qualifier of `value` selects.
    pub fn insert(&mut self, key: String, value: TypeExpr)
        requires
            old(self).wf(),
        ensures
            final(self)@ == old(self)@.insert(key@, value),
            final(self).wf(),
    {
        if value.qual == Qual::Lin {
            self.env_lin.insert(key, value);
        } else {
            self.env_un.insert(key, value);
        }
    }

    /// Detaches the linear stack and leaves one without frames in its place.
    pub fn take_linear_stack(&mut self) -> (saved: TypeEnvStack)
        ensures
            saved@ == old(self)@.lin,
            final(self)@ == (Scopes { lin: Seq::empty(), un: old(self)@.un }),
    {
        let mut saved = TypeEnvStack::new();
        std::mem::swap(&mut self.env_lin, &mut saved);
        saved
    }

    /// Puts `saved` in the place of the linear stack.
    pub fn restore_linear_stack(&mut self, saved: TypeEnvStack)
        ensures
            final(self)@ == (Scopes { lin: saved@, un: old(self)@.un }),
    {
        self.env_lin = saved;
    }

    /// The cell of the innermost binding of `key`, for reading and writing:
    /// of the innermost binding in each stack the one in the deeper frame.
    /// What is written to the cell is all that changes in the environment
    /// (`touched_at`, and by `lemma_touched_at` the environment is the old
    /// one `with_cell`). Both stacks must not bind `key` at one depth.
    pub fn get_mut(&mut self, key: &str) -> (r: Option<&mut Option<TypeExpr>>)
        requires
            !(old(self)@.resolve(key@) is Ambiguous),
        ensures
            match r {
                Some(cell) => !(old(self)@.resolve(key@) is Missing) && *cell == old(self)@.cell(
                    old(self)@.resolve(key@),
                ) && touched_at(old(self)@, final(self)@, old(self)@.resolve(key@), *final(cell)),
                None => old(self)@.resolve(key@) is Missing && final(self)@ == old(self)@,
            },
    {
        proof {
            lemma_find_bounds(self@.lin, key@);
            lemma_find_bounds(self@.un, key@);
        }
        match (self.env_lin.get_mut(key), self.env_un.get_mut(key)) {
            (Some((d1, t1)), Some((d2, t2))) => {
                if d1 < d2 {
                    Some(t2)
                } else {
                    Some(t1)
                }
            },
            (Some((_, t1)), None) => Some(t1),
            (None, Some((_, t2))) => Some(t2),
            _ => None,
        }
    }
}

} // verus!
