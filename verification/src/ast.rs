//! Syntax trees of types and expressions, and their mathematical views.

use vstd::prelude::*;
use vstd::std_specs::cmp::PartialEqSpecImpl;

verus! {

/// The qualifier attached to every value and every type.
#[derive(Debug, Clone, Copy, PartialEq, Eq, Structural)]
pub enum Qual {
    /// The value must be used exactly once.
    Lin,
    /// The value may be used any number of times.
    Un,
}

/// A qualified type: a qualifier together with a shape.
#[derive(Debug, Eq)]
pub struct TypeExpr {
    pub qual: Qual,
    pub prim: PrimType,
}

/// The shape of a type.
#[derive(Debug, Eq)]
pub enum PrimType {
    /// Truth values.
    Bool,
    /// Pairs of two components.
    Pair(Box<TypeExpr>, Box<TypeExpr>),
    /// Functions from the first type to the second.
    Arrow(Box<TypeExpr>, Box<TypeExpr>),
}

impl PartialEq for TypeExpr {
    fn eq(&self, other: &Self) -> (r: bool)
        decreases self,
    {
        self.qual == other.qual && self.prim == other.prim
    }
}

impl PartialEqSpecImpl for TypeExpr {
    open spec fn obeys_eq_spec() -> bool {
        true
    }

    open spec fn eq_spec(&self, other: &Self) -> bool {
        *self == *other
    }
}

impl PartialEq for PrimType {
    fn eq(&self, other: &Self) -> (r: bool)
        decreases self,
    {
        match (self, other) {
            (PrimType::Bool, PrimType::Bool) => true,
            (PrimType::Pair(a1, b1), PrimType::Pair(a2, b2)) => **a1 == **a2 && **b1 == **b2,
            (PrimType::Arrow(a1, b1), PrimType::Arrow(a2, b2)) => **a1 == **a2 && **b1 == **b2,
            _ => false,
        }
    }
}

impl PartialEqSpecImpl for PrimType {
    open spec fn obeys_eq_spec() -> bool {
        true
    }

    open spec fn eq_spec(&self, other: &Self) -> bool {
        *self == *other
    }
}

impl Clone for TypeExpr {
    fn clone(&self) -> (r: Self)
        ensures
            r == *self,
        decreases self,
    {
        TypeExpr { qual: self.qual, prim: self.prim.clone() }
    }
}

impl Clone for PrimType {
    fn clone(&self) -> (r: Self)
        ensures
            r == *self,
        decreases self,
    {
        match self {
            PrimType::Bool => PrimType::Bool,
            PrimType::Pair(a, b) => PrimType::Pair(Box::new((**a).clone()), Box::new((**b).clone())),
            PrimType::Arrow(a, b) => PrimType::Arrow(
                Box::new((**a).clone()),
                Box::new((**b).clone()),
            ),
        }
    }
}

/// An expression.
#[derive(Debug, PartialEq, Eq)]
pub enum Expr {
    /// A qualified value.
    QVal(QValExpr),
    /// `let var : ty = expr1 { expr2 }`
    Let(LetExpr),
    /// `if cond_expr { then_expr } else { else_expr }`
    If(IfExpr),
    /// `split expr as left, right { body }`
    Split(SplitExpr),
    /// `free var; expr`
    Free(FreeExpr),
    /// `(expr1 expr2)`
    App(AppExpr),
    /// A variable.
    Var(String),
}

/// Function application `(expr1 expr2)`.
#[derive(Debug, PartialEq, Eq)]
pub struct AppExpr {
    pub expr1: Box<Expr>,
    pub expr2: Box<Expr>,
}

/// Conditional `if cond_expr { then_expr } else { else_expr }`.
#[derive(Debug, PartialEq, Eq)]
pub struct IfExpr {
    pub cond_expr: Box<Expr>,
    pub then_expr: Box<Expr>,
    pub else_expr: Box<Expr>,
}

/// Pair elimination `split expr as left, right { body }`.
#[derive(Debug, PartialEq, Eq)]
pub struct SplitExpr {
    pub expr: Box<Expr>,
    pub left: String,
    pub right: String,
    pub body: Box<Expr>,
}

/// Local binding `let var : ty = expr1 { expr2 }`.
#[derive(Debug, PartialEq, Eq)]
pub struct LetExpr {
    pub var: String,
    pub ty: TypeExpr,
    pub expr1: Box<Expr>,
    pub expr2: Box<Expr>,
}

/// An unqualified value.
#[derive(Debug, PartialEq, Eq)]
pub enum ValExpr {
    /// `true` or `false`
    Bool(bool),
    /// `< e1 , e2 >`
    Pair(Box<Expr>, Box<Expr>),
    /// A function literal.
    Fun(FnExpr),
}

/// A value together with its qualifier.
#[derive(Debug, PartialEq, Eq)]
pub struct QValExpr {
    pub qual: Qual,
    pub val: ValExpr,
}

/// Function literal `fn var : ty { expr }`.
#[derive(Debug, PartialEq, Eq)]
pub struct FnExpr {
    pub var: String,
    pub ty: TypeExpr,
    pub expr: Box<Expr>,
}

/// Explicit disposal `free var; expr`.
#[derive(Debug, PartialEq, Eq)]
pub struct FreeExpr {
    pub expr: Box<Expr>,
    pub var: String,
}

/// The mathematical form of an expression: one constructor per construct,
/// names as sequences of characters.
pub enum Term {
    Var(Seq<char>),
    Bool(Qual, bool),
    Pair(Qual, Box<Term>, Box<Term>),
    Fun(Qual, Seq<char>, TypeExpr, Box<Term>),
    Let(Seq<char>, TypeExpr, Box<Term>, Box<Term>),
    If(Box<Term>, Box<Term>, Box<Term>),
    Split(Box<Term>, Seq<char>, Seq<char>, Box<Term>),
    Free(Seq<char>, Box<Term>),
    App(Box<Term>, Box<Term>),
}

impl Term {
    /// Every `split` in the term gives two different names to the components.
    pub open spec fn binds_apart(self) -> bool
        decreases self,
    {
        match self {
            Term::Var(_) => true,
            Term::Bool(_, _) => true,
            Term::Pair(_, a, b) => a.binds_apart() && b.binds_apart(),
            Term::Fun(_, _, _, body) => body.binds_apart(),
            Term::Let(_, _, e, body) => e.binds_apart() && body.binds_apart(),
            Term::If(c, a, b) => c.binds_apart() && a.binds_apart() && b.binds_apart(),
            Term::Split(s, l, r, body) => l != r && s.binds_apart() && body.binds_apart(),
            Term::Free(_, rest) => rest.binds_apart(),
            Term::App(f, a) => f.binds_apart() && a.binds_apart(),
        }
    }
}

impl Term {
    /// How often the term uses the linear variable `x` of its surroundings
    /// on one path through it: the references to `x` and the disposals of
    /// `x` that stand neither below a binder of `x` nor in an unrestricted
    /// function, which sees no linear variable of its surroundings. Of a
    /// conditional the condition and the first branch count.
    pub open spec fn uses(self, x: Seq<char>) -> nat
        decreases self,
    {
        match self {
            Term::Var(y) => if y == x {
                1
            } else {
                0
            },
            Term::Bool(_, _) => 0,
            Term::Pair(_, a, b) => a.uses(x) + b.uses(x),
            Term::Fun(q, p, _, body) => if q == Qual::Un || p == x {
                0
            } else {
                body.uses(x)
            },
            Term::Let(p, _, e, body) => e.uses(x) + if p == x {
                0
            } else {
                body.uses(x)
            },
            Term::If(c, a, _) => c.uses(x) + a.uses(x),
            Term::Split(s, l, r, body) => s.uses(x) + if l == x || r == x {
                0
            } else {
                body.uses(x)
            },
            Term::Free(y, rest) => if y == x {
                1 + rest.uses(x)
            } else {
                rest.uses(x)
            },
            Term::App(f, a) => f.uses(x) + a.uses(x),
        }
    }
}

impl Term {
    /// Whether the term refers to the variable `x` of its surroundings:
    /// whether `x` is used or disposed of at a place that is not below a
    /// binder of `x`.
    pub open spec fn mentions(self, x: Seq<char>) -> bool
        decreases self,
    {
        match self {
            Term::Var(y) => y == x,
            Term::Bool(_, _) => false,
            Term::Pair(_, a, b) => a.mentions(x) || b.mentions(x),
            Term::Fun(_, p, _, body) => p != x && body.mentions(x),
            Term::Let(p, _, e, body) => e.mentions(x) || (p != x && body.mentions(x)),
            Term::If(c, a, b) => c.mentions(x) || a.mentions(x) || b.mentions(x),
            Term::Split(s, l, r, body) => s.mentions(x) || (l != x && r != x && body.mentions(x)),
            Term::Free(y, rest) => y == x || rest.mentions(x),
            Term::App(f, a) => f.mentions(x) || a.mentions(x),
        }
    }
}

/// The mathematical form of a value without its qualifier.
pub enum Shape {
    Bool(bool),
    Pair(Box<Term>, Box<Term>),
    Fun(Seq<char>, TypeExpr, Box<Term>),
}

/// The value `v` with the qualifier `q`.
pub open spec fn qualified(q: Qual, v: Shape) -> Term {
    match v {
        Shape::Bool(b) => Term::Bool(q, b),
        Shape::Pair(a, b) => Term::Pair(q, a, b),
        Shape::Fun(x, ty, body) => Term::Fun(q, x, ty, body),
    }
}

impl Expr {
    /// The mathematical form of this expression.
    pub open spec fn term(&self) -> Term
        decreases self,
    {
        match self {
            Expr::Var(x) => Term::Var(x@),
            Expr::QVal(v) => v.term(),
            Expr::Let(l) => l.term(),
            Expr::If(c) => c.term(),
            Expr::Split(s) => s.term(),
            Expr::Free(f) => f.term(),
            Expr::App(a) => a.term(),
        }
    }

    /// Whether every `split` in the expression gives two different names to
    /// the components.
    pub fn binds_apart(&self) -> (r: bool)
        ensures
            r == self@.binds_apart(),
        decreases self,
    {
        match self {
            Expr::Var(_) => true,
            Expr::QVal(v) => {
                assert(self@ == qualified(v.qual, v.val.shape()));
                match &v.val {
                    ValExpr::Bool(_) => true,
                    ValExpr::Pair(a, b) => a.binds_apart() && b.binds_apart(),
                    ValExpr::Fun(f) => f.expr.binds_apart(),
                }
            },
            Expr::Let(l) => l.expr1.binds_apart() && l.expr2.binds_apart(),
            Expr::If(c) => c.cond_expr.binds_apart() && c.then_expr.binds_apart()
                && c.else_expr.binds_apart(),
            Expr::Split(s) => !(s.left == s.right) && s.expr.binds_apart() && s.body.binds_apart(),
            Expr::Free(f) => f.expr.binds_apart(),
            Expr::App(a) => a.expr1.binds_apart() && a.expr2.binds_apart(),
        }
    }
}

impl ValExpr {
    /// The mathematical form of this value.
    pub open spec fn shape(&self) -> Shape
        decreases self,
    {
        match self {
            ValExpr::Bool(b) => Shape::Bool(*b),
            ValExpr::Pair(a, b) => Shape::Pair(Box::new(a.term()), Box::new(b.term())),
            ValExpr::Fun(f) => Shape::Fun(f.var@, f.ty, Box::new(f.expr.term())),
        }
    }
}

impl QValExpr {
    /// The mathematical form of this value.
    pub open spec fn term(&self) -> Term
        decreases self,
    {
        qualified(self.qual, self.val.shape())
    }
}

impl LetExpr {
    /// The mathematical form of this binding.
    pub open spec fn term(&self) -> Term
        decreases self,
    {
        Term::Let(self.var@, self.ty, Box::new(self.expr1.term()), Box::new(self.expr2.term()))
    }
}

impl IfExpr {
    /// The mathematical form of this conditional.
    pub open spec fn term(&self) -> Term
        decreases self,
    {
        Term::If(
            Box::new(self.cond_expr.term()),
            Box::new(self.then_expr.term()),
            Box::new(self.else_expr.term()),
        )
    }
}

impl SplitExpr {
    /// The mathematical form of this pair elimination.
    pub open spec fn term(&self) -> Term
        decreases self,
    {
        Term::Split(
            Box::new(self.expr.term()),
            self.left@,
            self.right@,
            Box::new(self.body.term()),
        )
    }
}

impl FreeExpr {
    /// The mathematical form of this disposal.
    pub open spec fn term(&self) -> Term
        decreases self,
    {
        Term::Free(self.var@, Box::new(self.expr.term()))
    }
}

impl AppExpr {
    /// The mathematical form of this application.
    pub open spec fn term(&self) -> Term
        decreases self,
    {
        Term::App(Box::new(self.expr1.term()), Box::new(self.expr2.term()))
    }
}

impl View for Qual {
    type V = Qual;

    open spec fn view(&self) -> Qual {
        *self
    }
}

impl View for TypeExpr {
    type V = TypeExpr;

    open spec fn view(&self) -> TypeExpr {
        *self
    }
}

impl View for ValExpr {
    type V = Shape;

    open spec fn view(&self) -> Shape {
        self.shape()
    }
}

impl View for Expr {
    type V = Term;

    open spec fn view(&self) -> Term {
        self.term()
    }
}

} // verus!
