use lin_lambda::ast::{AppExpr, Expr, FnExpr, PrimType, QValExpr, Qual, TypeExpr, ValExpr};
use lin_lambda::env::TypeEnv;
use lin_lambda::parser::parse_expr;
use lin_lambda::typing::{typing, typing_program, TypingError};

fn lin_bool() -> TypeExpr {
    TypeExpr { qual: Qual::Lin, prim: PrimType::Bool }
}

fn un_bool() -> TypeExpr {
    TypeExpr { qual: Qual::Un, prim: PrimType::Bool }
}

fn check(src: &str) -> Result<TypeExpr, TypingError> {
    let (_, expr) = parse_expr(src).expect("the program parses");
    let mut env = TypeEnv::new();
    typing(&expr, &mut env, 0)
}

#[test]
fn linear_literal_has_linear_bool_type() {
    assert_eq!(check("lin true"), Ok(lin_bool()));
}

#[test]
fn let_bound_linear_variable_used_once() {
    assert_eq!(check("let x : lin bool = lin true { x }"), Ok(lin_bool()));
}

#[test]
fn let_bound_linear_variable_left_unused() {
    assert_eq!(
        check("let x : lin bool = lin true { un true }"),
        Err(TypingError::UnusedLinearAtScopeExit("x".to_string()))
    );
}

#[test]
fn applying_a_function_literal() {
    // The application of the identity on `lin bool` to `lin true`, built as
    // a tree: the grammar has no function literal without a qualifier.
    for q in [Qual::Lin, Qual::Un] {
        let f = Expr::QVal(QValExpr {
            qual: q,
            val: ValExpr::Fun(FnExpr {
                var: "x".to_string(),
                ty: lin_bool(),
                expr: Box::new(Expr::Var("x".to_string())),
            }),
        });
        let arg = Expr::QVal(QValExpr { qual: Qual::Lin, val: ValExpr::Bool(true) });
        let app = Expr::App(AppExpr { expr1: Box::new(f), expr2: Box::new(arg) });
        let mut env = TypeEnv::new();
        assert_eq!(typing(&app, &mut env, 0), Ok(lin_bool()));
    }
}

#[test]
fn applying_a_function_literal_from_text() {
    assert_eq!(check("(lin fn x : lin bool { x } lin true)"), Ok(lin_bool()));
    assert_eq!(check("(un fn x : lin bool { x } lin true)"), Ok(lin_bool()));
    // Without a qualifier `fn` is read as a variable, and the application
    // ends where the colon stands.
    let err = parse_expr("(fn x : lin bool { x } lin true)").unwrap_err();
    assert_eq!(err.rest, ": lin bool { x } lin true)");
}

#[test]
fn split_leaves_right_component_unused() {
    assert_eq!(
        check("split lin <lin true, lin false> as l, r { l }"),
        Err(TypingError::UnusedLinearAtScopeExit("r".to_string()))
    );
}

#[test]
fn free_disposes_of_a_linear_binding() {
    assert_eq!(check("let x : lin bool = lin true { free x; un false }"), Ok(un_bool()));
}

#[test]
fn branches_of_different_type() {
    assert_eq!(
        check("if un true { lin true } else { un false }"),
        Err(TypingError::BranchMismatch(lin_bool(), un_bool()))
    );
}

#[test]
fn unrestricted_truth_values_type_the_same_every_time() {
    for src in ["un true", "un false"] {
        assert_eq!(check(src), Ok(un_bool()));
        assert_eq!(check(src), Ok(un_bool()));
        let (_, expr) = parse_expr(src).unwrap();
        assert_eq!(typing_program(&expr), Some(Ok(un_bool())));
    }
}

#[test]
fn example_program_parses_to_a_let() {
    let (rest, expr) = parse_expr("let x : lin bool = lin true { x }").unwrap();
    assert_eq!(rest, "");
    assert!(matches!(expr, Expr::Let(_)));
    assert_eq!(typing_program(&expr), Some(Ok(lin_bool())));
}
