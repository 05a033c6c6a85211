use lang_front::lexer::Lexer;
use lang_front::parser::parse_expr;
use lang_front::parser::Expr;
use lang_front::parser::Expr::Num;
use lang_front::parser::Expr::Op;
use lang_front::parser::OpKind;

#[test]
fn parse_test() {
    // Syntax: v1;v2;op
    // 1 + 2          =>   12+
    // 1 + 2 + 3      =>   12+ 3 +
    // 1 + 2*3        =>   1 23* +
    // 1 * 2 * 3      =>   1 23* *
    // 1 + 2*3*4      =>   1 23* 4* +
    // 1 + 2*3*4 + 5  =>   1 23* 4* + 5+
    // 1 + 2*3 + 4*5  =>   1 23* + 45* +
    // 1 / 2 * 3      =>   12/ 3*
    // 1 / 2 * 3 * 4  =>   12/ 34**
    // 1 / 2 * 3 / 4  =>   12/ 3* 4/
    let map: &[(&str, &[Expr])] = &[
        ("1 + 2;", &[Num(1), Num(2), Op(OpKind::Add)]),
        ("1 + 2 + 3;", &[Num(1), Num(2), Op(OpKind::Add), Num(3), Op(OpKind::Add)]),
        ("1 + 2*3;", &[Num(1), Num(2), Num(3), Op(OpKind::Mul), Op(OpKind::Add)]),
        ("1 * 2 * 3;", &[Num(1), Num(2), Num(3), Op(OpKind::Mul), Op(OpKind::Mul)]),
        (
            "1 + 2*3*4;",
            &[Num(1), Num(2), Num(3), Op(OpKind::Mul), Num(4), Op(OpKind::Mul), Op(OpKind::Add)],
        ),
        (
            "1 + 2*3*4 + 5;",
            &[
                Num(1),
                Num(2),
                Num(3),
                Op(OpKind::Mul),
                Num(4),
                Op(OpKind::Mul),
                Op(OpKind::Add),
                Num(5),
                Op(OpKind::Add),
            ],
        ),
        (
            "1 + 2*3 + 4*5;",
            &[
                Num(1),
                Num(2),
                Num(3),
                Op(OpKind::Mul),
                Op(OpKind::Add),
                Num(4),
                Num(5),
                Op(OpKind::Mul),
                Op(OpKind::Add),
            ],
        ),
        ("1 / 2 * 3;", &[Num(1), Num(2), Op(OpKind::Div), Num(3), Op(OpKind::Mul)]),
        (
            "1 / 2 * 3 * 4;",
            &[Num(1), Num(2), Op(OpKind::Div), Num(3), Num(4), Op(OpKind::Mul), Op(OpKind::Mul)],
        ),
        (
            "1 / 2 * 3 / 4;",
            &[Num(1), Num(2), Op(OpKind::Div), Num(3), Op(OpKind::Mul), Num(4), Op(OpKind::Div)],
        ),
    ];

    let mut exprs: Vec<Expr> = Vec::new();
    for test in map {
        let range = parse_expr(&mut exprs, &mut Lexer::new(test.0.as_bytes().to_vec()))
            .expect("expression should parse");
        for x in range.start..range.end {
            assert_eq!(exprs[x], test.1[x]);
        }

        exprs.clear();
    }
}
