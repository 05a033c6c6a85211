use lang_front::error::ParseError;
use lang_front::lexer::Lexer;
use lang_front::lexer::TokenKind;
use lang_front::parser::parse;
use lang_front::parser::parse_expr;
use lang_front::parser::Expr;
use lang_front::parser::OpKind;
use lang_front::parser::Stmt;

fn parse_str(src: &str) -> Result<(Vec<Expr>, Vec<Stmt>), ParseError> {
    parse(&mut Lexer::new(src.as_bytes().to_vec()))
}

/// A little stack machine over a postfix range: panics on underflow, checks
/// that exactly one value remains. Variables evaluate to zero.
fn eval_range(exprs: &[Expr], start: usize, end: usize) -> i32 {
    let mut stack: Vec<i32> = Vec::new();
    for e in &exprs[start..end] {
        match e {
            Expr::Num(v) => stack.push(*v),
            Expr::Var(_) => stack.push(0),
            Expr::Op(op) => {
                let b = stack.pop().expect("stack underflow");
                let a = stack.pop().expect("stack underflow");
                stack.push(match op {
                    OpKind::Add => a + b,
                    OpKind::Sub => a - b,
                    OpKind::Mul => a * b,
                    OpKind::Div => a / b,
                });
            },
        }
    }
    assert_eq!(stack.len(), 1, "postfix range must leave exactly one value");
    stack[0]
}

#[test]
fn lexer_scans_tokens_lazily() {
    let mut lexer = Lexer::new("x1 = 12 + y;".as_bytes().to_vec());
    // peeking does not consume, and a second peek returns the same token
    let peeked = lexer.peek().unwrap().unwrap();
    let peeked_again = lexer.peek().unwrap().unwrap();
    assert_eq!(peeked, peeked_again);
    let first = lexer.next().unwrap().unwrap();
    assert_eq!(first, peeked);
    assert_eq!(first.kind, TokenKind::Name);
    assert_eq!(first.data.as_slice(), b"x1");
    assert_eq!(first.pos, 0);

    let eq = lexer.expect_specific_next(TokenKind::Eq).unwrap();
    assert_eq!(eq.pos, 3);

    let num = lexer.expect_next().unwrap();
    assert_eq!(num.kind, TokenKind::Num);
    assert_eq!(num.data.as_slice(), b"12");
    assert_eq!(num.pos, 5);

    let kinds_and_pos: &[(TokenKind, usize)] =
        &[(TokenKind::Plus, 8), (TokenKind::Name, 10), (TokenKind::Semicolon, 11)];
    for (kind, pos) in kinds_and_pos {
        let tok = lexer.next().unwrap().unwrap();
        assert_eq!(tok.kind, *kind);
        assert_eq!(tok.pos, *pos);
    }
    assert!(lexer.next().unwrap().is_none());
}

#[test]
fn single_operand() {
    let mut exprs: Vec<Expr> = Vec::new();
    let range = parse_expr(&mut exprs, &mut Lexer::new("1;".as_bytes().to_vec())).unwrap();
    assert_eq!(range.start, 0);
    assert_eq!(range.end, 1);
    assert_eq!(exprs[0], Expr::Num(1));
}

#[test]
fn single_statement() {
    let (exprs, stmts) = parse_str("a = 1 + 2;").unwrap();
    assert_eq!(
        exprs,
        vec![Expr::Num(1), Expr::Num(2), Expr::Op(OpKind::Add)]
    );
    assert_eq!(stmts.len(), 1);
    let Stmt::VarAssign { name, expr } = &stmts[0];
    assert_eq!(name.as_slice(), b"a");
    assert_eq!(expr.start, 0);
    assert_eq!(expr.end, 3);
}

#[test]
fn variables_in_expressions() {
    let (exprs, stmts) = parse_str("x = 2; y = x * x;").unwrap();
    assert_eq!(
        exprs,
        vec![
            Expr::Num(2),
            Expr::Var(b"x".to_vec()),
            Expr::Var(b"x".to_vec()),
            Expr::Op(OpKind::Mul),
        ]
    );
    assert_eq!(stmts.len(), 2);
}

#[test]
fn statement_ranges_contiguous() {
    let (exprs, stmts) = parse_str("a = 1 + 2; b = 3; c = 4 * 5 + 6;").unwrap();
    assert_eq!(stmts.len(), 3);
    let mut prev_end: usize = 0;
    for stmt in &stmts {
        let Stmt::VarAssign { name: _, expr } = stmt;
        assert_eq!(expr.start, prev_end);
        assert!(expr.start <= expr.end);
        prev_end = expr.end;
    }
    assert_eq!(prev_end, exprs.len());
}

#[test]
fn empty_source_is_no_statements() {
    let (exprs, stmts) = parse_str("").unwrap();
    assert!(exprs.is_empty());
    assert!(stmts.is_empty());
    let (exprs2, stmts2) = parse_str("   \n\t ").unwrap();
    assert!(exprs2.is_empty());
    assert!(stmts2.is_empty());
}

#[test]
fn missing_eq_is_syntax_error() {
    match parse_str("a 1 + 2;") {
        Err(ParseError::UnexpectedToken { pos, kind }) => {
            assert_eq!(pos, 2);
            assert_eq!(kind, TokenKind::Num);
        },
        other => panic!("expected UnexpectedToken, got {:?}", other),
    }
}

#[test]
fn missing_semicolon_is_syntax_error() {
    assert_eq!(parse_str("a = 1 + 2"), Err(ParseError::UnexpectedEof));
    // the next statement's name arrives where `;` was required
    match parse_str("a = 1 b = 2;") {
        Err(ParseError::UnexpectedToken { pos, kind }) => {
            assert_eq!(pos, 6);
            assert_eq!(kind, TokenKind::Name);
        },
        other => panic!("expected UnexpectedToken, got {:?}", other),
    }
}

#[test]
fn unscannable_byte_is_lexical_error() {
    assert_eq!(parse_str("a = $;"), Err(ParseError::Lexical { pos: 4 }));
    // the scanner is lazy: the fault is only reached after earlier tokens
    assert_eq!(parse_str("a = 1 + ?;"), Err(ParseError::Lexical { pos: 8 }));
}

#[test]
fn missing_operand_is_syntax_error() {
    match parse_str("a = ;") {
        Err(ParseError::UnexpectedToken { pos, kind }) => {
            assert_eq!(pos, 4);
            assert_eq!(kind, TokenKind::Semicolon);
        },
        other => panic!("expected UnexpectedToken, got {:?}", other),
    }
}

#[test]
fn oversized_literal_is_num_overflow() {
    assert_eq!(parse_str("a = 2147483647;").map(|_| ()), Ok(()));
    assert_eq!(
        parse_str("a = 2147483648;"),
        Err(ParseError::NumOverflow { pos: 4 })
    );
}

#[test]
fn non_assignment_statement_is_unsupported() {
    match parse_str("1 + 2;") {
        Err(ParseError::UnsupportedStmt { pos, kind }) => {
            assert_eq!(pos, 0);
            assert_eq!(kind, TokenKind::Num);
        },
        other => panic!("expected UnsupportedStmt, got {:?}", other),
    }
}

#[test]
fn leading_minus_parses_as_subtraction() {
    let mut exprs: Vec<Expr> = Vec::new();
    let range = parse_expr(&mut exprs, &mut Lexer::new("1 - 2;".as_bytes().to_vec())).unwrap();
    assert_eq!(range.start, 0);
    assert_eq!(range.end, 3);
    assert_eq!(
        exprs,
        vec![Expr::Num(1), Expr::Num(2), Expr::Op(OpKind::Sub)]
    );
}

#[test]
fn minus_in_chain_ends_the_expression() {
    // the main loop folds only `+`, `*` and `/`; a second `-` closes the
    // expression unconsumed, so the statement parser then rejects it
    match parse_str("a = 1 - 2 - 3;") {
        Err(ParseError::UnexpectedToken { pos, kind }) => {
            assert_eq!(pos, 10);
            assert_eq!(kind, TokenKind::Minus);
        },
        other => panic!("expected UnexpectedToken, got {:?}", other),
    }
}

#[test]
fn minus_before_multiplicative_chain() {
    let (exprs, _stmts) = parse_str("a = 1 - 2 * 3;").unwrap();
    assert_eq!(
        exprs,
        vec![
            Expr::Num(1),
            Expr::Num(2),
            Expr::Num(3),
            Expr::Op(OpKind::Mul),
            Expr::Op(OpKind::Sub),
        ]
    );
    assert_eq!(eval_range(&exprs, 0, exprs.len()), -5);
}

#[test]
fn postfix_ranges_evaluate_to_one_value() {
    let (exprs, stmts) = parse_str(
        "a = 1 + 2*3*4 + 5; b = 1 / 2 * 3 / 4; c = 7; d = 100 + 10 * 2;",
    )
    .unwrap();
    let expected: &[i32] = &[30, 0, 7, 120];
    assert_eq!(stmts.len(), expected.len());
    for (stmt, want) in stmts.iter().zip(expected.iter()) {
        let Stmt::VarAssign { name: _, expr } = stmt;
        assert_eq!(eval_range(&exprs, expr.start, expr.end), *want);
    }
}
