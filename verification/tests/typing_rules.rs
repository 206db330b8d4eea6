use lin_lambda::ast::{
    AppExpr, Expr, FnExpr, IfExpr, LetExpr, PrimType, QValExpr, Qual, SplitExpr, TypeExpr,
    ValExpr,
};
use lin_lambda::env::TypeEnv;
use lin_lambda::parser::parse_expr;
use lin_lambda::typing::{is_tidy, typing, typing_program, TypingError};

fn ty(q: Qual, prim: PrimType) -> TypeExpr {
    TypeExpr { qual: q, prim }
}

fn lin_bool() -> TypeExpr {
    ty(Qual::Lin, PrimType::Bool)
}

fn un_bool() -> TypeExpr {
    ty(Qual::Un, PrimType::Bool)
}

fn pair(q: Qual, a: TypeExpr, b: TypeExpr) -> TypeExpr {
    ty(q, PrimType::Pair(Box::new(a), Box::new(b)))
}

fn arrow(q: Qual, a: TypeExpr, b: TypeExpr) -> TypeExpr {
    ty(q, PrimType::Arrow(Box::new(a), Box::new(b)))
}

fn check(src: &str) -> Result<TypeExpr, TypingError> {
    let (rest, expr) = parse_expr(src).expect("the program parses");
    assert_eq!(rest.trim(), "");
    let mut env = TypeEnv::new();
    let res = typing(&expr, &mut env, 0);
    assert_eq!(typing_program(&expr), Some(res.clone()));
    res
}

fn unbound(x: &str) -> TypingError {
    TypingError::UnboundOrConsumedVariable(x.to_string())
}

fn unused(x: &str) -> TypingError {
    TypingError::UnusedLinearAtScopeExit(x.to_string())
}

#[test]
fn literals() {
    assert_eq!(check("lin true"), Ok(lin_bool()));
    assert_eq!(check("lin false"), Ok(lin_bool()));
    assert_eq!(check("un true"), Ok(un_bool()));
    assert_eq!(check("un false"), Ok(un_bool()));
}

#[test]
fn unbound_variable() {
    assert_eq!(check("x"), Err(unbound("x")));
}

#[test]
fn unrestricted_variable_is_reusable() {
    assert_eq!(
        check("let x : un bool = un true { un <x, x> }"),
        Ok(pair(Qual::Un, un_bool(), un_bool()))
    );
    assert_eq!(check("let x : un bool = un true { un false }"), Ok(un_bool()));
}

#[test]
fn linear_variable_used_twice() {
    assert_eq!(check("let x : lin bool = lin true { lin <x, x> }"), Err(unbound("x")));
}

#[test]
fn pair_components_are_typed_left_to_right() {
    assert_eq!(
        check("let x : lin bool = lin true { lin <x, un true> }"),
        Ok(pair(Qual::Lin, lin_bool(), un_bool()))
    );
    // The second component fails first where the first does not.
    assert_eq!(check("lin <y, z>"), Err(unbound("y")));
    assert_eq!(check("lin <un true, z>"), Err(unbound("z")));
}

#[test]
fn unrestricted_pair_with_linear_component() {
    assert_eq!(
        check("un <lin true, un false>"),
        Err(TypingError::QualifierMismatchInPair(lin_bool(), un_bool()))
    );
    assert_eq!(
        check("un <un true, lin false>"),
        Err(TypingError::QualifierMismatchInPair(un_bool(), lin_bool()))
    );
    assert_eq!(check("un <un true, un false>"), Ok(pair(Qual::Un, un_bool(), un_bool())));
    assert_eq!(check("lin <lin true, un false>"), Ok(pair(Qual::Lin, lin_bool(), un_bool())));
}

#[test]
fn function_literals() {
    assert_eq!(check("lin fn x : lin bool { x }"), Ok(arrow(Qual::Lin, lin_bool(), lin_bool())));
    assert_eq!(check("un fn x : lin bool { x }"), Ok(arrow(Qual::Un, lin_bool(), lin_bool())));
    assert_eq!(check("un fn x : un bool { un true }"), Ok(arrow(Qual::Un, un_bool(), un_bool())));
    assert_eq!(check("un fn x : lin bool { un true }"), Err(unused("x")));
    assert_eq!(check("lin fn x : lin bool { lin <x, x> }"), Err(unbound("x")));
}

#[test]
fn unrestricted_function_cannot_capture_a_linear_variable() {
    assert_eq!(
        check("let y : lin bool = lin true { un fn x : un bool { y } }"),
        Err(unbound("y"))
    );
    // A linear function can, and consumes it.
    assert_eq!(
        check("let y : lin bool = lin true { lin fn x : un bool { y } }"),
        Ok(arrow(Qual::Lin, un_bool(), lin_bool()))
    );
    // An unrestricted variable can be captured by both.
    assert_eq!(
        check("let y : un bool = un true { un fn x : un bool { y } }"),
        Ok(arrow(Qual::Un, un_bool(), un_bool()))
    );
}

#[test]
fn linear_variable_is_back_behind_an_unrestricted_function() {
    assert_eq!(
        check("let y : lin bool = lin true { lin <un fn x : un bool { x }, y> }"),
        Ok(pair(Qual::Lin, arrow(Qual::Un, un_bool(), un_bool()), lin_bool()))
    );
    assert_eq!(
        check("let y : lin bool = lin true { un fn x : un bool { x } }"),
        Err(unused("y"))
    );
}

#[test]
fn unrestricted_function_sees_the_unrestricted_binding_of_a_shadowed_name() {
    // Inside the function the linear `y` is hidden, so `y` is the outer one.
    assert_eq!(
        check(
            "let y : un bool = un true { let y : lin bool = lin true { lin <un fn x : un bool { y }, y> } }"
        ),
        Ok(pair(Qual::Lin, arrow(Qual::Un, un_bool(), un_bool()), lin_bool()))
    );
}

#[test]
fn application_rules() {
    assert_eq!(check("(un fn x : un bool { x } un true)"), Ok(un_bool()));
    assert_eq!(check("(lin true un true)"), Err(TypingError::NotAFunction(lin_bool())));
    assert_eq!(
        check("(un fn x : un bool { x } lin true)"),
        Err(TypingError::ArgumentTypeMismatch(un_bool(), lin_bool()))
    );
    assert_eq!(
        check("(un fn x : lin (lin bool * lin bool) { x } lin <lin true, un true>)"),
        Err(TypingError::ArgumentTypeMismatch(
            pair(Qual::Lin, lin_bool(), lin_bool()),
            pair(Qual::Lin, lin_bool(), un_bool())
        ))
    );
    // The function is checked to be one before the argument is typed.
    assert_eq!(check("(un true y)"), Err(TypingError::NotAFunction(un_bool())));
    assert_eq!(check("(un fn x : un bool { x } y)"), Err(unbound("y")));
}

#[test]
fn application_consumes_left_to_right() {
    assert_eq!(
        check("let f : lin (lin bool -> lin bool) = lin fn x : lin bool { x } { (f lin true) }"),
        Ok(lin_bool())
    );
    assert_eq!(
        check("let b : lin bool = lin true { (lin fn x : lin bool { x } b) }"),
        Ok(lin_bool())
    );
    assert_eq!(
        check("let b : lin bool = lin true { (lin fn x : lin bool { free x; b } b) }"),
        Err(unbound("b"))
    );
}

#[test]
fn free_rules() {
    assert_eq!(check("free x; un true"), Err(TypingError::InvalidFree("x".to_string())));
    assert_eq!(
        check("let x : un bool = un true { free x; un true }"),
        Err(TypingError::InvalidFree("x".to_string()))
    );
    assert_eq!(
        check("let x : lin bool = lin true { free x; free x; un true }"),
        Err(TypingError::InvalidFree("x".to_string()))
    );
    assert_eq!(check("let x : lin bool = lin true { free x; x }"), Err(unbound("x")));
    assert_eq!(
        check("let x : lin bool = lin true { lin <x, free x; un true> }"),
        Err(TypingError::InvalidFree("x".to_string()))
    );
    assert_eq!(check("let x : lin bool = lin true { free x; lin false }"), Ok(lin_bool()));
}

#[test]
fn condition_must_be_a_bool() {
    assert_eq!(
        check("if un <un true, un true> { un true } else { un true }"),
        Err(TypingError::NonBooleanCondition(pair(Qual::Un, un_bool(), un_bool())))
    );
    assert_eq!(
        check("if un fn x : un bool { x } { un true } else { un true }"),
        Err(TypingError::NonBooleanCondition(arrow(Qual::Un, un_bool(), un_bool())))
    );
    // The qualifier of the condition does not matter.
    assert_eq!(check("if lin true { un true } else { un false }"), Ok(un_bool()));
    assert_eq!(check("if un true { lin true } else { lin false }"), Ok(lin_bool()));
}

#[test]
fn branches_must_consume_the_same() {
    assert_eq!(
        check("let x : lin bool = lin true { if un true { x } else { lin false } }"),
        Err(TypingError::BranchMismatch(lin_bool(), lin_bool()))
    );
    assert_eq!(
        check("let x : lin bool = lin true { if un true { lin false } else { x } }"),
        Err(TypingError::BranchMismatch(lin_bool(), lin_bool()))
    );
    assert_eq!(
        check("let x : lin bool = lin true { if un true { x } else { x } }"),
        Ok(lin_bool())
    );
    assert_eq!(
        check("let x : lin bool = lin true { if un true { free x; un true } else { free x; un false } }"),
        Ok(un_bool())
    );
    assert_eq!(
        check("let x : lin bool = lin true { if x { un true } else { un false } }"),
        Ok(un_bool())
    );
    assert_eq!(
        check("let x : lin bool = lin true { if x { x } else { x } }"),
        Err(unbound("x"))
    );
}

#[test]
fn first_failing_branch_is_reported() {
    assert_eq!(check("if un true { a } else { b }"), Err(unbound("a")));
    assert_eq!(check("if un true { un true } else { b }"), Err(unbound("b")));
    assert_eq!(check("if c { a } else { b }"), Err(unbound("c")));
}

#[test]
fn split_rules() {
    assert_eq!(
        check("split lin <lin true, lin false> as l, r { lin <l, r> }"),
        Ok(pair(Qual::Lin, lin_bool(), lin_bool()))
    );
    assert_eq!(
        check("split lin <lin true, lin false> as l, r { lin <r, l> }"),
        Ok(pair(Qual::Lin, lin_bool(), lin_bool()))
    );
    assert_eq!(check("split lin <lin true, lin false> as l, r { r }"), Err(unused("l")));
    assert_eq!(check("split lin <lin true, lin false> as l, r { un true }"), Err(unused("l")));
    assert_eq!(check("split lin <un true, lin false> as l, r { un true }"), Err(unused("r")));
    assert_eq!(check("split lin <lin true, un false> as l, r { l }"), Ok(lin_bool()));
    assert_eq!(check("split un <un true, un false> as l, r { un <l, l> }"),
        Ok(pair(Qual::Un, un_bool(), un_bool())));
    assert_eq!(check("split lin true as l, r { l }"), Err(TypingError::NotAPair(lin_bool())));
    assert_eq!(
        check("split un fn x : un bool { x } as l, r { l }"),
        Err(TypingError::NotAPair(arrow(Qual::Un, un_bool(), un_bool())))
    );
    assert_eq!(check("split p as l, r { l }"), Err(unbound("p")));
}

#[test]
fn let_rules() {
    assert_eq!(
        check("let x : un bool = lin true { x }"),
        Err(TypingError::LetTypeMismatch(un_bool(), lin_bool()))
    );
    assert_eq!(
        check("let x : lin (lin bool * lin bool) = lin <lin true, un true> { x }"),
        Err(TypingError::LetTypeMismatch(
            pair(Qual::Lin, lin_bool(), lin_bool()),
            pair(Qual::Lin, lin_bool(), un_bool())
        ))
    );
    assert_eq!(check("let x : lin bool = y { x }"), Err(unbound("y")));
    assert_eq!(
        check("let x : lin bool = lin true { let y : lin bool = x { y } }"),
        Ok(lin_bool())
    );
    assert_eq!(
        check("let x : lin bool = lin true { let y : lin bool = lin false { x } }"),
        Err(unused("y"))
    );
}

#[test]
fn inner_binding_shadows_outer() {
    assert_eq!(
        check("let x : un bool = un true { let x : lin bool = lin true { x } }"),
        Ok(lin_bool())
    );
    assert_eq!(
        check("let x : un bool = un true { let x : lin bool = lin true { lin <x, x> } }"),
        Err(unbound("x"))
    );
    assert_eq!(
        check("let x : lin bool = lin true { let x : un bool = un true { un <x, x> } }"),
        Err(unused("x"))
    );
    assert_eq!(
        check("let x : lin bool = lin true { lin <let x : un bool = un true { un <x, x> }, x> }"),
        Ok(pair(Qual::Lin, pair(Qual::Un, un_bool(), un_bool()), lin_bool()))
    );
    assert_eq!(
        check("let x : lin bool = lin true { let x : lin bool = x { x } }"),
        Ok(lin_bool())
    );
}

#[test]
fn binding_is_gone_behind_its_scope() {
    assert_eq!(check("lin <let x : un bool = un true { x }, x>"), Err(unbound("x")));
    assert_eq!(check("(un fn x : un bool { x } x)"), Err(unbound("x")));
}

fn nested_function(depth: usize) -> Expr {
    let mut e = Expr::QVal(QValExpr { qual: Qual::Un, val: ValExpr::Bool(true) });
    for _ in 0..depth {
        e = Expr::QVal(QValExpr {
            qual: Qual::Un,
            val: ValExpr::Fun(FnExpr { var: "x".to_string(), ty: un_bool(), expr: Box::new(e) }),
        });
    }
    e
}

#[test]
fn depth_counter_overflow() {
    let lit = || Expr::QVal(QValExpr { qual: Qual::Un, val: ValExpr::Bool(true) });
    let mut env = TypeEnv::new();
    assert_eq!(typing(&lit(), &mut env, usize::MAX), Ok(un_bool()));
    let mut env = TypeEnv::new();
    assert_eq!(
        typing(&nested_function(1), &mut env, usize::MAX),
        Err(TypingError::ScopeDepthOverflow)
    );
    let mut env = TypeEnv::new();
    assert_eq!(
        typing(&nested_function(2), &mut env, usize::MAX - 1),
        Err(TypingError::ScopeDepthOverflow)
    );
    let mut env = TypeEnv::new();
    assert_eq!(
        typing(&nested_function(1), &mut env, usize::MAX - 1),
        Ok(arrow(Qual::Un, un_bool(), un_bool()))
    );
    let let_expr = Expr::Let(LetExpr {
        var: "x".to_string(),
        ty: un_bool(),
        expr1: Box::new(lit()),
        expr2: Box::new(lit()),
    });
    let mut env = TypeEnv::new();
    assert_eq!(typing(&let_expr, &mut env, usize::MAX), Err(TypingError::ScopeDepthOverflow));
    let split_expr = Expr::Split(SplitExpr {
        expr: Box::new(Expr::QVal(QValExpr {
            qual: Qual::Un,
            val: ValExpr::Pair(Box::new(lit()), Box::new(lit())),
        })),
        left: "l".to_string(),
        right: "r".to_string(),
        body: Box::new(lit()),
    });
    let mut env = TypeEnv::new();
    assert_eq!(typing(&split_expr, &mut env, usize::MAX), Err(TypingError::ScopeDepthOverflow));
    // A mismatch is found before the scope is opened.
    let bad_let = Expr::Let(LetExpr {
        var: "x".to_string(),
        ty: lin_bool(),
        expr1: Box::new(lit()),
        expr2: Box::new(lit()),
    });
    let mut env = TypeEnv::new();
    assert_eq!(
        typing(&bad_let, &mut env, usize::MAX),
        Err(TypingError::LetTypeMismatch(lin_bool(), un_bool()))
    );
}

#[test]
fn split_that_would_lose_a_linear_component_is_not_typed() {
    for src in [
        "split lin <lin true, un false> as x, x { x }",
        "split lin <un true, lin false> as x, x { un true }",
        "split lin <lin true, lin false> as x, x { x }",
        "un fn y : lin bool { split lin <y, un true> as a, a { a } }",
        "if un true { split lin <lin true, lin true> as a, a { a } } else { lin true }",
        "let p : lin (lin bool * lin bool) = lin <lin true, lin false> { split p as a, a { a } }",
    ] {
        let (_, expr) = parse_expr(src).unwrap();
        assert!(!expr.binds_apart());
        assert!(!is_tidy(&expr, &TypeEnv::new(), 0));
        assert_eq!(typing_program(&expr), None, "{}", src);
    }
}

#[test]
fn split_with_one_name_for_two_unrestricted_components_is_typed() {
    let (_, expr) = parse_expr("split un <un true, un false> as a, a { a }").unwrap();
    assert!(!expr.binds_apart());
    assert!(is_tidy(&expr, &TypeEnv::new(), 0));
    assert_eq!(typing_program(&expr), Some(Ok(un_bool())));
    let (_, expr) = parse_expr("un fn y : un bool { split un <y, y> as a, a { un <a, a> } }").unwrap();
    assert_eq!(
        typing_program(&expr),
        Some(Ok(arrow(Qual::Un, un_bool(), pair(Qual::Un, un_bool(), un_bool()))))
    );
    // A split that the derivation never comes to does not count.
    let (_, expr) = parse_expr("lin <y, split lin <lin true, lin true> as a, a { a }>").unwrap();
    assert!(is_tidy(&expr, &TypeEnv::new(), 0));
    assert_eq!(typing_program(&expr), Some(Err(unbound("y"))));
    let (_, expr) = parse_expr("split lin <lin true, un false> as x, y { x }").unwrap();
    assert!(expr.binds_apart());
    assert!(is_tidy(&expr, &TypeEnv::new(), 0));
    assert_eq!(typing_program(&expr), Some(Ok(lin_bool())));
}

#[test]
fn environment_is_left_as_found_by_an_accepted_expression() {
    let mut env = TypeEnv::new();
    env.push(1);
    env.insert("u".to_string(), un_bool());
    env.insert("k".to_string(), lin_bool());
    let before = env.clone();
    let (_, e) = parse_expr("let x : un bool = u { un <x, u> }").unwrap();
    assert_eq!(typing(&e, &mut env, 1), Ok(pair(Qual::Un, un_bool(), un_bool())));
    assert!(env == before);
    let (_, e) = parse_expr("k").unwrap();
    assert_eq!(typing(&e, &mut env, 1), Ok(lin_bool()));
    assert!(env != before);
    assert_eq!(typing(&e, &mut env, 1), Err(unbound("k")));
}

#[test]
fn if_expression_built_as_a_tree() {
    let lit = |q, b| Expr::QVal(QValExpr { qual: q, val: ValExpr::Bool(b) });
    let e = Expr::If(IfExpr {
        cond_expr: Box::new(lit(Qual::Un, true)),
        then_expr: Box::new(lit(Qual::Lin, true)),
        else_expr: Box::new(lit(Qual::Lin, false)),
    });
    assert_eq!(typing_program(&e), Some(Ok(lin_bool())));
    let app = Expr::App(AppExpr {
        expr1: Box::new(nested_function(1)),
        expr2: Box::new(lit(Qual::Un, false)),
    });
    assert_eq!(typing_program(&app), Some(Ok(un_bool())));
}

#[test]
fn unrestricted_function_neither_sees_nor_touches_linear_bindings() {
    let mut env = TypeEnv::new();
    env.push(1);
    env.insert("k".to_string(), lin_bool());
    env.insert("u".to_string(), un_bool());
    let before = env.clone();
    let (_, f) = parse_expr("un fn x : un bool { un <x, u> }").unwrap();
    assert_eq!(
        typing(&f, &mut env, 1),
        Ok(arrow(Qual::Un, un_bool(), pair(Qual::Un, un_bool(), un_bool())))
    );
    assert!(env == before);
    // The same function has the same type where nothing linear is bound.
    let mut bare = TypeEnv::new();
    bare.push(1);
    bare.insert("u".to_string(), un_bool());
    assert_eq!(
        typing(&f, &mut bare, 1),
        Ok(arrow(Qual::Un, un_bool(), pair(Qual::Un, un_bool(), un_bool())))
    );
    let (_, g) = parse_expr("un fn x : un bool { k }").unwrap();
    assert_eq!(typing(&g, &mut env, 1), Err(unbound("k")));
    let (_, h) = parse_expr("lin fn x : un bool { k }").unwrap();
    let mut env = before.clone();
    assert_eq!(typing(&h, &mut env, 1), Ok(arrow(Qual::Lin, un_bool(), lin_bool())));
    assert!(env != before);
}

#[test]
fn unrestricted_function_that_refers_to_a_linear_variable_is_rejected() {
    // However deep in the body the reference stands, the function is not
    // accepted; which error is reported depends on what fails first.
    for body in [
        "k",
        "un <x, k>",
        "if x { k } else { k }",
        "let z : lin bool = k { z }",
        "free k; x",
        "lin fn w : un bool { k }",
        "(lin fn w : lin bool { w } k)",
        "split lin <k, x> as a, b { a }",
    ] {
        let src = format!("let k : lin bool = lin true {{ un fn x : un bool {{ {} }} }}", body);
        let (rest, expr) = parse_expr(&src).unwrap();
        assert_eq!(rest, "");
        let res = typing_program(&expr).expect("the splits name their components apart");
        assert!(res.is_err(), "{}", src);
    }
    // A linear function may capture.
    for body in ["k", "if x { k } else { k }", "let z : lin bool = k { z }", "free k; x"] {
        let src = format!("let k : lin bool = lin true {{ lin fn x : un bool {{ {} }} }}", body);
        let (_, expr) = parse_expr(&src).unwrap();
        assert!(typing_program(&expr).unwrap().is_ok(), "{}", src);
    }
    assert_eq!(
        check("let k : lin bool = lin true { un fn x : un bool { un <x, k> } }"),
        Err(unbound("k"))
    );
    assert_eq!(
        check("let k : lin bool = lin true { un fn x : un bool { free k; x } }"),
        Err(TypingError::InvalidFree("k".to_string()))
    );
}
