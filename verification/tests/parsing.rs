use lin_lambda::ast::{
    AppExpr, Expr, FnExpr, FreeExpr, IfExpr, LetExpr, PrimType, QValExpr, Qual, SplitExpr,
    TypeExpr, ValExpr,
};
use lin_lambda::grammar::ParseErrorKind;
use lin_lambda::parser::{parse_expr, ParseError};

fn var(name: &str) -> Expr {
    Expr::Var(name.to_string())
}

fn boolean(q: Qual, b: bool) -> Expr {
    Expr::QVal(QValExpr { qual: q, val: ValExpr::Bool(b) })
}

fn ty(q: Qual, prim: PrimType) -> TypeExpr {
    TypeExpr { qual: q, prim }
}

fn lin_bool() -> TypeExpr {
    ty(Qual::Lin, PrimType::Bool)
}

fn un_bool() -> TypeExpr {
    ty(Qual::Un, PrimType::Bool)
}

fn stopped<'a>(rest: &'a str, kind: ParseErrorKind) -> ParseError<'a> {
    ParseError { rest, kind }
}

#[test]
fn variable_is_a_run_of_letters() {
    assert_eq!(parse_expr("abc"), Ok(("", var("abc"))));
    assert_eq!(parse_expr("aB1c"), Ok(("1c", var("aB"))));
    assert_eq!(parse_expr("x y"), Ok((" y", var("x"))));
    assert_eq!(parse_expr("Zz_"), Ok(("_", var("Zz"))));
}

#[test]
fn leading_whitespace_is_skipped() {
    assert_eq!(parse_expr(" \t\r\n x"), Ok(("", var("x"))));
    assert_eq!(parse_expr("\n\nlin true"), Ok(("", boolean(Qual::Lin, true))));
    // Whitespace behind the expression is left.
    assert_eq!(parse_expr("x \n"), Ok((" \n", var("x"))));
}

#[test]
fn truth_values() {
    assert_eq!(parse_expr("lin true"), Ok(("", boolean(Qual::Lin, true))));
    assert_eq!(parse_expr("lin false"), Ok(("", boolean(Qual::Lin, false))));
    assert_eq!(parse_expr("un true"), Ok(("", boolean(Qual::Un, true))));
    assert_eq!(parse_expr("un false"), Ok(("", boolean(Qual::Un, false))));
    assert_eq!(parse_expr("un\ttrue!"), Ok(("!", boolean(Qual::Un, true))));
}

#[test]
fn pair_value() {
    let expected = Expr::QVal(QValExpr {
        qual: Qual::Lin,
        val: ValExpr::Pair(Box::new(boolean(Qual::Lin, true)), Box::new(var("y"))),
    });
    assert_eq!(parse_expr("lin <lin true, y>"), Ok(("", expected)));
    let expected = Expr::QVal(QValExpr {
        qual: Qual::Un,
        val: ValExpr::Pair(Box::new(var("a")), Box::new(var("b"))),
    });
    assert_eq!(parse_expr("un< a ,b >rest"), Ok(("rest", expected)));
}

#[test]
fn function_value() {
    let expected = Expr::QVal(QValExpr {
        qual: Qual::Un,
        val: ValExpr::Fun(FnExpr { var: "x".to_string(), ty: lin_bool(), expr: Box::new(var("x")) }),
    });
    assert_eq!(parse_expr("un fn x : lin bool { x }"), Ok(("", expected)));
    let expected = Expr::QVal(QValExpr {
        qual: Qual::Lin,
        val: ValExpr::Fun(
            FnExpr { var: "f".to_string(), ty: un_bool(), expr: Box::new(boolean(Qual::Un, true)) },
        ),
    });
    assert_eq!(parse_expr("lin fn f:un bool{un true}"), Ok(("", expected)));
}

#[test]
fn let_expression() {
    let expected = Expr::Let(LetExpr {
        var: "x".to_string(),
        ty: lin_bool(),
        expr1: Box::new(boolean(Qual::Lin, true)),
        expr2: Box::new(var("x")),
    });
    assert_eq!(parse_expr("let x : lin bool = lin true { x }"), Ok(("", expected)));
}

#[test]
fn identifier_that_begins_with_a_keyword_is_a_variable() {
    assert_eq!(parse_expr("unit"), Ok(("", var("unit"))));
    assert_eq!(parse_expr("linear"), Ok(("", var("linear"))));
    assert_eq!(parse_expr("letter"), Ok(("", var("letter"))));
    assert_eq!(parse_expr("lintrue"), Ok(("", var("lintrue"))));
    assert_eq!(parse_expr("unfalse!"), Ok(("!", var("unfalse"))));
    assert_eq!(parse_expr("letx:un bool=y{x}"), Ok((":un bool=y{x}", var("letx"))));
    assert_eq!(parse_expr("  un"), Err(stopped("", ParseErrorKind::UnexpectedEnd)));
    let expected = Expr::Let(LetExpr {
        var: "unit".to_string(),
        ty: un_bool(),
        expr1: Box::new(var("linear")),
        expr2: Box::new(var("unit")),
    });
    assert_eq!(parse_expr("let unit:un bool=linear{unit}"), Ok(("", expected)));
}

#[test]
fn keyword_inside_a_construct_must_be_the_whole_identifier() {
    assert_eq!(parse_expr("lin truex"), Err(stopped("truex", ParseErrorKind::ExpectedOneOf)));
    assert_eq!(parse_expr("un falsehood"), Err(stopped("falsehood", ParseErrorKind::ExpectedOneOf)));
    assert_eq!(
        parse_expr("un fnx : un bool { x }"),
        Err(stopped("fnx : un bool { x }", ParseErrorKind::ExpectedOneOf))
    );
    assert_eq!(
        parse_expr("let x : linbool = y { x }"),
        Err(stopped("linbool = y { x }", ParseErrorKind::ExpectedOneOf))
    );
    assert_eq!(
        parse_expr("let x : un boolean = y { x }"),
        Err(stopped("boolean = y { x }", ParseErrorKind::ExpectedOneOf))
    );
    assert_eq!(
        parse_expr("split p asl, r { l }"),
        Err(stopped("asl, r { l }", ParseErrorKind::ExpectedToken))
    );
    assert_eq!(
        parse_expr("if c { a } elsewhere { b }"),
        Err(stopped("elsewhere { b }", ParseErrorKind::ExpectedToken))
    );
    // Symbols end an identifier, so no whitespace is needed around them.
    assert_eq!(parse_expr("lin<lin true,un false>").map(|p| p.0), Ok(""));
    assert_eq!(parse_expr("if c{a}else{b}").map(|p| p.0), Ok(""));
    assert_eq!(parse_expr("split p as l,r{l}").map(|p| p.0), Ok(""));
}

#[test]
fn if_expression() {
    let expected = Expr::If(IfExpr {
        cond_expr: Box::new(boolean(Qual::Un, true)),
        then_expr: Box::new(boolean(Qual::Lin, true)),
        else_expr: Box::new(boolean(Qual::Un, false)),
    });
    assert_eq!(parse_expr("if un true { lin true } else { un false }"), Ok(("", expected)));
    let expected = Expr::If(IfExpr {
        cond_expr: Box::new(var("c")),
        then_expr: Box::new(var("a")),
        else_expr: Box::new(var("b")),
    });
    assert_eq!(parse_expr("if c{a}else{b}"), Ok(("", expected)));
}

#[test]
fn keyword_must_be_the_whole_identifier() {
    assert_eq!(parse_expr("iffy"), Ok(("", var("iffy"))));
    assert_eq!(parse_expr("splitter"), Ok(("", var("splitter"))));
    assert_eq!(parse_expr("freedom"), Ok(("", var("freedom"))));
    assert_eq!(parse_expr("fn"), Ok(("", var("fn"))));
    assert_eq!(parse_expr("as"), Ok(("", var("as"))));
    assert_eq!(parse_expr("else"), Ok(("", var("else"))));
    assert_eq!(parse_expr("true"), Ok(("", var("true"))));
}

#[test]
fn split_expression() {
    let pair = Expr::QVal(QValExpr {
        qual: Qual::Lin,
        val: ValExpr::Pair(
            Box::new(boolean(Qual::Lin, true)),
            Box::new(boolean(Qual::Lin, false)),
        ),
    });
    let expected = Expr::Split(SplitExpr {
        expr: Box::new(pair),
        left: "l".to_string(),
        right: "r".to_string(),
        body: Box::new(var("l")),
    });
    assert_eq!(parse_expr("split lin <lin true, lin false> as l, r { l }"), Ok(("", expected)));
}

#[test]
fn free_expression() {
    let expected = Expr::Free(FreeExpr {
        var: "x".to_string(),
        expr: Box::new(boolean(Qual::Un, false)),
    });
    assert_eq!(parse_expr("free x; un false"), Ok(("", expected)));
    let expected = Expr::Free(FreeExpr { var: "x".to_string(), expr: Box::new(var("y")) });
    assert_eq!(parse_expr("free\tx ;y"), Ok(("", expected)));
}

#[test]
fn free_needs_whitespace_behind_the_keyword() {
    assert_eq!(parse_expr("free;"), Err(stopped(";", ParseErrorKind::ExpectedToken)));
    assert_eq!(parse_expr("free"), Err(stopped("", ParseErrorKind::UnexpectedEnd)));
    assert_eq!(parse_expr("free 1"), Err(stopped("1", ParseErrorKind::ExpectedToken)));
}

#[test]
fn application() {
    let expected = Expr::App(AppExpr { expr1: Box::new(var("f")), expr2: Box::new(var("x")) });
    assert_eq!(parse_expr("(f x)"), Ok(("", expected)));
    let expected = Expr::App(AppExpr {
        expr1: Box::new(Expr::App(
            AppExpr { expr1: Box::new(var("f")), expr2: Box::new(var("x")) },
        )),
        expr2: Box::new(boolean(Qual::Un, true)),
    });
    assert_eq!(parse_expr("( (f x)\n un true )"), Ok(("", expected)));
}

#[test]
fn application_needs_whitespace_between_its_parts() {
    assert_eq!(parse_expr("((f x)(g y))"), Err(stopped("(g y))", ParseErrorKind::ExpectedToken)));
    assert_eq!(parse_expr("(f)"), Err(stopped(")", ParseErrorKind::ExpectedToken)));
    assert_eq!(parse_expr("(f x"), Err(stopped("", ParseErrorKind::UnexpectedEnd)));
}

#[test]
fn types() {
    let pair = ty(Qual::Lin, PrimType::Pair(Box::new(lin_bool()), Box::new(un_bool())));
    let arrow = ty(Qual::Un, PrimType::Arrow(Box::new(pair.clone()), Box::new(lin_bool())));
    let expected = Expr::Let(LetExpr {
        var: "f".to_string(),
        ty: arrow,
        expr1: Box::new(var("g")),
        expr2: Box::new(var("f")),
    });
    assert_eq!(
        parse_expr("let f : un (lin (lin bool * un bool) -> lin bool) = g { f }"),
        Ok(("", expected))
    );
    let expected = Expr::Let(LetExpr {
        var: "p".to_string(),
        ty: pair,
        expr1: Box::new(var("q")),
        expr2: Box::new(var("p")),
    });
    assert_eq!(parse_expr("let p:lin(lin bool*un bool)=q{p}"), Ok(("", expected)));
}

#[test]
fn type_errors_in_the_text() {
    assert_eq!(
        parse_expr("let x : bool = y { x }"),
        Err(stopped("bool = y { x }", ParseErrorKind::ExpectedOneOf))
    );
    assert_eq!(
        parse_expr("let x : lin int = y { x }"),
        Err(stopped("int = y { x }", ParseErrorKind::ExpectedOneOf))
    );
    assert_eq!(
        parse_expr("let x : lin (lin bool + lin bool) = y { x }"),
        Err(stopped("+ lin bool) = y { x }", ParseErrorKind::ExpectedOneOf))
    );
    assert_eq!(
        parse_expr("let x : lin (lin bool * lin bool = y { x }"),
        Err(stopped("= y { x }", ParseErrorKind::ExpectedToken))
    );
    assert_eq!(parse_expr("let x : lin"), Err(stopped("", ParseErrorKind::UnexpectedEnd)));
}

#[test]
fn nothing_to_read() {
    assert_eq!(parse_expr(""), Err(stopped("", ParseErrorKind::UnexpectedEnd)));
    assert_eq!(parse_expr("  \n"), Err(stopped("", ParseErrorKind::UnexpectedEnd)));
    assert_eq!(parse_expr("123"), Err(stopped("123", ParseErrorKind::ExpectedOneOf)));
    assert_eq!(parse_expr("  {x}"), Err(stopped("{x}", ParseErrorKind::ExpectedOneOf)));
}

#[test]
fn value_must_follow_a_qualifier() {
    assert_eq!(parse_expr("lin x"), Err(stopped("x", ParseErrorKind::ExpectedOneOf)));
    assert_eq!(parse_expr("un"), Err(stopped("", ParseErrorKind::UnexpectedEnd)));
    assert_eq!(parse_expr("lin 1"), Err(stopped("1", ParseErrorKind::ExpectedOneOf)));
}

#[test]
fn missing_tokens() {
    assert_eq!(
        parse_expr("let x lin bool = lin true { x }"),
        Err(stopped("lin bool = lin true { x }", ParseErrorKind::ExpectedToken))
    );
    assert_eq!(
        parse_expr("let x : lin bool = lin true x"),
        Err(stopped("x", ParseErrorKind::ExpectedToken))
    );
    assert_eq!(
        parse_expr("let x : lin bool = lin true { x"),
        Err(stopped("", ParseErrorKind::UnexpectedEnd))
    );
    assert_eq!(
        parse_expr("if c { a } { b }"),
        Err(stopped("{ b }", ParseErrorKind::ExpectedToken))
    );
    assert_eq!(
        parse_expr("split p l, r { l }"),
        Err(stopped("l, r { l }", ParseErrorKind::ExpectedToken))
    );
    assert_eq!(
        parse_expr("split p as l r { l }"),
        Err(stopped("r { l }", ParseErrorKind::ExpectedToken))
    );
    assert_eq!(
        parse_expr("split p as l, 1 { l }"),
        Err(stopped("1 { l }", ParseErrorKind::ExpectedToken))
    );
    assert_eq!(parse_expr("lin <a b>"), Err(stopped("b>", ParseErrorKind::ExpectedToken)));
    assert_eq!(parse_expr("lin <a, b"), Err(stopped("", ParseErrorKind::UnexpectedEnd)));
    assert_eq!(
        parse_expr("lin fn : lin bool { x }"),
        Err(stopped(": lin bool { x }", ParseErrorKind::ExpectedToken))
    );
}

#[test]
fn letters_are_ascii_letters_only() {
    assert_eq!(parse_expr("naïve"), Ok(("ïve", var("na"))));
    assert_eq!(parse_expr("é"), Err(stopped("é", ParseErrorKind::ExpectedOneOf)));
    // A no-break space is not whitespace.
    assert_eq!(parse_expr("\u{a0}x"), Err(stopped("\u{a0}x", ParseErrorKind::ExpectedOneOf)));
}

#[test]
fn nested_program() {
    let src = "let p : lin (lin bool * un bool) = lin <lin true, un false> {\n    split p as a, b {\n        if b { a } else { a }\n    }\n}";
    let (rest, expr) = parse_expr(src).unwrap();
    assert_eq!(rest, "");
    let pair_ty = ty(Qual::Lin, PrimType::Pair(Box::new(lin_bool()), Box::new(un_bool())));
    let expected = Expr::Let(LetExpr {
        var: "p".to_string(),
        ty: pair_ty,
        expr1: Box::new(Expr::QVal(QValExpr {
            qual: Qual::Lin,
            val: ValExpr::Pair(
                Box::new(boolean(Qual::Lin, true)),
                Box::new(boolean(Qual::Un, false)),
            ),
        })),
        expr2: Box::new(Expr::Split(SplitExpr {
            expr: Box::new(var("p")),
            left: "a".to_string(),
            right: "b".to_string(),
            body: Box::new(Expr::If(IfExpr {
                cond_expr: Box::new(var("b")),
                then_expr: Box::new(var("a")),
                else_expr: Box::new(var("a")),
            })),
        })),
    });
    assert_eq!(expr, expected);
}

#[test]
fn rendered_types_read_back() {
    let pair = ty(Qual::Lin, PrimType::Pair(Box::new(lin_bool()), Box::new(un_bool())));
    let arrow = ty(Qual::Un, PrimType::Arrow(Box::new(pair.clone()), Box::new(lin_bool())));
    assert_eq!(lin_bool().render(), "lin bool");
    assert_eq!(un_bool().render(), "un bool");
    assert_eq!(pair.render(), "lin (lin bool * un bool)");
    assert_eq!(arrow.render(), "un (lin (lin bool * un bool) -> lin bool)");
    for t in [lin_bool(), un_bool(), pair, arrow] {
        let src = format!("let x : {} = y {{ x }}", t.render());
        match parse_expr(&src) {
            Ok((_, Expr::Let(l))) => assert_eq!(l.ty, t),
            other => panic!("unexpected {:?}", other),
        }
    }
}

#[test]
fn error_points_into_the_source() {
    for src in [
        "",
        "  ",
        "let x : lin int = y { x }",
        "(f x",
        "((f x)(g y))",
        "if c { a } { b }",
        "lin <a b>",
        "free;",
        "let x : lin (lin bool + lin bool) = y { x }",
        "split p as l, 1 { l }",
        "  \n {",
    ] {
        let err = parse_expr(src).unwrap_err();
        assert!(src.ends_with(err.rest), "{:?} in {:?}", err, src);
        let at = src.len() - err.rest.len();
        assert_eq!(&src[at..], err.rest);
        assert_eq!(err.rest.is_empty(), err.kind == ParseErrorKind::UnexpectedEnd);
    }
    for src in ["x y", "lin true)", "let x : un bool = y { x } tail", "(f x) (g y)"] {
        let (rest, _) = parse_expr(src).unwrap();
        assert!(src.ends_with(rest));
        assert!(rest.len() < src.len());
    }
}
