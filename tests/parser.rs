use lianghua_rs::parser::{lex_all, BinaryOp, Expr, Parser, Stmt, UnaryOp};

fn parse(src: &str) -> Result<Vec<Stmt>, usize> {
    let mut p = Parser::new(lex_all(src));
    p.parse_main().map(|s| s.item).map_err(|e| e.idx)
}

fn id(s: &str) -> Expr {
    Expr::Ident(s.to_string())
}

fn bin(op: BinaryOp, l: Expr, r: Expr) -> Expr {
    Expr::Binary { op, lhs: Box::new(l), rhs: Box::new(r) }
}

fn call(name: &str, args: Vec<Expr>) -> Expr {
    Expr::Call { name: name.to_string(), args }
}

#[test]
fn parse_assignment_then_condition() {
    let got = parse("N := 20; MA(C, N) < C AND C > ABS(O)").unwrap();
    let want = vec![
        Stmt::Assign { name: "N".to_string(), value: Expr::Number("20".to_string()) },
        Stmt::Expr(bin(
            BinaryOp::And,
            bin(BinaryOp::Lt, call("MA", vec![id("C"), id("N")]), id("C")),
            bin(BinaryOp::Gt, id("C"), call("ABS", vec![id("O")])),
        )),
    ];
    assert_eq!(got, want);
}

#[test]
fn parse_precedence_and_left_assoc() {
    let got = parse("a - b - c * d").unwrap();
    let want = vec![Stmt::Expr(bin(
        BinaryOp::Sub,
        bin(BinaryOp::Sub, id("a"), id("b")),
        bin(BinaryOp::Mul, id("c"), id("d")),
    ))];
    assert_eq!(got, want);
}

#[test]
fn parse_or_binds_loosest() {
    let got = parse("a OR b AND c = d + e").unwrap();
    let want = vec![Stmt::Expr(bin(
        BinaryOp::Or,
        id("a"),
        bin(BinaryOp::And, id("b"), bin(BinaryOp::Eq, id("c"), bin(BinaryOp::Add, id("d"), id("e")))),
    ))];
    assert_eq!(got, want);
}

#[test]
fn parse_unary_binds_to_primary() {
    let got = parse("-a * !b").unwrap();
    let want = vec![Stmt::Expr(bin(
        BinaryOp::Mul,
        Expr::Unary { op: UnaryOp::Neg, rhs: Box::new(id("a")) },
        Expr::Unary { op: UnaryOp::Not, rhs: Box::new(id("b")) },
    ))];
    assert_eq!(got, want);
}

#[test]
fn parse_parens_and_empty_call() {
    let got = parse("(a + b) * F();").unwrap();
    let want = vec![Stmt::Expr(bin(
        BinaryOp::Mul,
        bin(BinaryOp::Add, id("a"), id("b")),
        call("F", vec![]),
    ))];
    assert_eq!(got, want);
}

#[test]
fn parse_empty_program() {
    assert_eq!(parse("").unwrap(), vec![]);
}

#[test]
fn parse_errors_report_token_index() {
    assert_eq!(parse(";"), Err(0));
    assert_eq!(parse("a;;b"), Err(2));
    assert_eq!(parse("a b"), Err(1));
    assert_eq!(parse("(a"), Err(3));
    assert_eq!(parse("(("), Err(2));
    assert_eq!(parse("F(a b)"), Err(3));
    assert_eq!(parse("a +"), Err(2));
    assert_eq!(parse(")"), Err(0));
}
