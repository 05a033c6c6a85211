//! The parser: a statement loop over the token stream, and an expression
//! sub-parser that linearizes infix arithmetic into postfix order, appending
//! into one shared expression buffer and handing out index ranges.
//!
//! The spec-level model mirrors the grammar exactly: `sp_parse` says, for any
//! token stream, either the full expression buffer and statement list the
//! parser returns, or the first fault it reports.

use vstd::prelude::*;

use crate::error::ParseError;
use crate::lexer::Lexer;
use crate::lexer::TokStream;
use crate::lexer::TokenKind;
use crate::lexer::is_digit;
use crate::lexer::sp_end_err;

verus! {

/// The four binary operators, in two precedence tiers: {Add, Sub} low,
/// {Mul, Div} high.
#[derive(Debug, Clone, Copy, PartialEq, Eq, Structural)]
pub enum OpKind {
    Sub,
    Add,
    Mul,
    Div,
}

/// One element of the flat postfix expression representation: a variable
/// reference, a decoded integer literal, or an operator applied to the two
/// preceding not-yet-consumed operand results.
#[derive(Debug, PartialEq)]
pub enum Expr {
    Var(Vec<u8>),
    Num(i32),
    Op(OpKind),
}

/// Mathematical image of an `Expr`.
#[verifier::ext_equal]
pub ghost enum ExprV {
    Var(Seq<u8>),
    Num(i32),
    Op(OpKind),
}

impl View for Expr {
    type V = ExprV;

    open spec fn view(&self) -> ExprV {
        match self {
            Expr::Var(name) => ExprV::Var(name@),
            Expr::Num(v) => ExprV::Num(*v),
            Expr::Op(op) => ExprV::Op(*op),
        }
    }
}

/// A half-open index range `[start, end)` into the shared expression buffer.
#[derive(Debug, Clone, Copy, PartialEq, Eq, Structural)]
pub struct ExprRange {
    pub start: usize,
    pub end: usize,
}

/// A parsed statement. Only variable assignment exists in this version: a
/// target name and the buffer range holding its postfix right-hand side.
#[derive(Debug, PartialEq)]
pub enum Stmt {
    VarAssign { name: Vec<u8>, expr: ExprRange },
}

/// Mathematical image of a `Stmt`.
#[verifier::ext_equal]
pub ghost struct StmtV {
    pub name: Seq<u8>,
    pub start: int,
    pub end: int,
}

impl View for Stmt {
    type V = StmtV;

    open spec fn view(&self) -> StmtV {
        match self {
            Stmt::VarAssign { name, expr } => StmtV {
                name: name@,
                start: expr.start as int,
                end: expr.end as int,
            },
        }
    }
}

/// The expression buffer as a sequence of mathematical expression nodes.
pub open spec fn exprs_view(s: Seq<Expr>) -> Seq<ExprV> {
    s.map_values(|e: Expr| e@)
}

/// The statement list as a sequence of mathematical statements.
pub open spec fn stmts_view(s: Seq<Stmt>) -> Seq<StmtV> {
    s.map_values(|st: Stmt| st@)
}

/// The stream after its first token is consumed.
pub open spec fn ts_tail(ts: TokStream) -> TokStream {
    TokStream { toks: ts.toks.skip(1), bad: ts.bad }
}

/// The value of a run of decimal digit bytes.
pub open spec fn digits_val(d: Seq<u8>) -> int
    decreases d.len(),
{
    if d.len() == 0 {
        0
    } else {
        digits_val(d.drop_last()) * 10 + (d.last() - 48)
    }
}

/// Reading one operand: a `Name` token becomes a variable node, a `Num`
/// token its decoded value (a fault if it exceeds `i32`), anything else is
/// a syntax fault.
pub open spec fn sp_read(ts: TokStream) -> Result<(ExprV, TokStream), ParseError> {
    if ts.toks.len() == 0 {
        Err(sp_end_err(ts))
    } else {
        let t = ts.toks[0];
        match t.kind {
            TokenKind::Name => Ok((ExprV::Var(t.data), ts_tail(ts))),
            TokenKind::Num => if digits_val(t.data) <= i32::MAX as int {
                Ok((ExprV::Num(digits_val(t.data) as i32), ts_tail(ts)))
            } else {
                Err(ParseError::NumOverflow { pos: t.pos as usize })
            },
            _ => Err(ParseError::UnexpectedToken { pos: t.pos as usize, kind: t.kind }),
        }
    }
}

/// The main expression loop, carrying the one pending operator `prev_op` and
/// the nodes emitted so far. Operator by operator it either folds the
/// incoming `*`/`/` immediately (it binds tighter than the pending operator)
/// or closes the pending chain first; any token that is not `+`, `*` or `/`
/// closes the chain and ends the expression without being consumed.
pub open spec fn sp_expr_loop(ts: TokStream, prev_op: OpKind, acc: Seq<ExprV>) -> Result<
    (Seq<ExprV>, TokStream),
    ParseError,
>
    decreases ts.toks.len(),
{
    if ts.toks.len() == 0 {
        Err(sp_end_err(ts))
    } else {
        let t = ts.toks[0];
        match t.kind {
            TokenKind::Plus => match sp_read(ts_tail(ts)) {
                Ok((e, rest)) => sp_expr_loop(
                    rest,
                    OpKind::Add,
                    acc.push(ExprV::Op(prev_op)).push(e),
                ),
                Err(err) => Err(err),
            },
            TokenKind::Star => match sp_read(ts_tail(ts)) {
                Ok((e, rest)) => if prev_op != OpKind::Div {
                    sp_expr_loop(rest, prev_op, acc.push(e).push(ExprV::Op(OpKind::Mul)))
                } else {
                    sp_expr_loop(rest, OpKind::Mul, acc.push(ExprV::Op(prev_op)).push(e))
                },
                Err(err) => Err(err),
            },
            TokenKind::Slash => match sp_read(ts_tail(ts)) {
                Ok((e, rest)) => if prev_op != OpKind::Mul {
                    sp_expr_loop(rest, prev_op, acc.push(e).push(ExprV::Op(OpKind::Div)))
                } else {
                    sp_expr_loop(rest, OpKind::Div, acc.push(ExprV::Op(prev_op)).push(e))
                },
                Err(err) => Err(err),
            },
            _ => Ok((acc.push(ExprV::Op(prev_op)), ts)),
        }
    }
}

/// One whole expression: `operand (op operand)*`. A single operand is its
/// own one-node postfix range; otherwise the first operator seeds `prev_op`
/// and the main loop takes over.
pub open spec fn sp_expr(ts: TokStream) -> Result<(Seq<ExprV>, TokStream), ParseError> {
    match sp_read(ts) {
        Err(e) => Err(e),
        Ok((e0, ts1)) => if ts1.toks.len() == 0 {
            Err(sp_end_err(ts1))
        } else {
            let op0 = match ts1.toks[0].kind {
                TokenKind::Plus => Some(OpKind::Add),
                TokenKind::Minus => Some(OpKind::Sub),
                TokenKind::Star => Some(OpKind::Mul),
                TokenKind::Slash => Some(OpKind::Div),
                _ => None,
            };
            match op0 {
                None => Ok((seq![e0], ts1)),
                Some(op) => match sp_read(ts_tail(ts1)) {
                    Err(e) => Err(e),
                    Ok((e1, ts2)) => sp_expr_loop(ts2, op, seq![e0, e1]),
                },
            }
        },
    }
}

/// The statement loop: each statement is `Name = expression ;`, its postfix
/// nodes appended to the shared buffer and its range recorded; end of input
/// is only accepted between statements.
pub open spec fn sp_parse_loop(ts: TokStream, ebuf: Seq<ExprV>, stmts: Seq<StmtV>) -> Result<
    (Seq<ExprV>, Seq<StmtV>),
    ParseError,
>
    decreases ts.toks.len(),
    via sp_parse_loop_decreases
{
    if ts.toks.len() == 0 {
        match ts.bad {
            Some(p) => Err(ParseError::Lexical { pos: p as usize }),
            None => Ok((ebuf, stmts)),
        }
    } else {
        let t = ts.toks[0];
        if t.kind != TokenKind::Name {
            Err(ParseError::UnsupportedStmt { pos: t.pos as usize, kind: t.kind })
        } else {
            let ts1 = ts_tail(ts);
            if ts1.toks.len() == 0 {
                Err(sp_end_err(ts1))
            } else if ts1.toks[0].kind != TokenKind::Eq {
                Err(
                    ParseError::UnexpectedToken {
                        pos: ts1.toks[0].pos as usize,
                        kind: ts1.toks[0].kind,
                    },
                )
            } else {
                match sp_expr(ts_tail(ts1)) {
                    Err(e) => Err(e),
                    Ok((es, ts2)) => if ts2.toks.len() == 0 {
                        Err(sp_end_err(ts2))
                    } else if ts2.toks[0].kind != TokenKind::Semicolon {
                        Err(
                            ParseError::UnexpectedToken {
                                pos: ts2.toks[0].pos as usize,
                                kind: ts2.toks[0].kind,
                            },
                        )
                    } else {
                        sp_parse_loop(
                            ts_tail(ts2),
                            ebuf + es,
                            stmts.push(
                                StmtV {
                                    name: t.data,
                                    start: ebuf.len() as int,
                                    end: ebuf.len() + es.len() as int,
                                },
                            ),
                        )
                    },
                }
            }
        }
    }
}

#[via_fn]
proof fn sp_parse_loop_decreases(ts: TokStream, ebuf: Seq<ExprV>, stmts: Seq<StmtV>) {
    if ts.toks.len() > 0 && ts.toks[0].kind == TokenKind::Name {
        let ts1 = ts_tail(ts);
        if ts1.toks.len() > 0 && ts1.toks[0].kind == TokenKind::Eq {
            lemma_sp_expr_consumes(ts_tail(ts1));
        }
    }
}

/// The whole parse of a token stream: the complete expression buffer and
/// statement list, or the first fault.
pub open spec fn sp_parse(ts: TokStream) -> Result<(Seq<ExprV>, Seq<StmtV>), ParseError> {
    sp_parse_loop(ts, Seq::empty(), Seq::empty())
}

/// The expression loop never hands tokens back: what it leaves is no longer
/// than what it was given.
pub proof fn lemma_sp_expr_loop_consumes(ts: TokStream, prev_op: OpKind, acc: Seq<ExprV>)
    ensures
        sp_expr_loop(ts, prev_op, acc) matches Ok((es, rest)) ==> rest.toks.len()
            <= ts.toks.len(),
    decreases ts.toks.len(),
{
    if ts.toks.len() > 0 {
        let t = ts.toks[0];
        match t.kind {
            TokenKind::Plus => match sp_read(ts_tail(ts)) {
                Ok((e, rest)) => lemma_sp_expr_loop_consumes(
                    rest,
                    OpKind::Add,
                    acc.push(ExprV::Op(prev_op)).push(e),
                ),
                Err(_) => {},
            },
            TokenKind::Star => match sp_read(ts_tail(ts)) {
                Ok((e, rest)) => if prev_op != OpKind::Div {
                    lemma_sp_expr_loop_consumes(rest, prev_op, acc.push(e).push(ExprV::Op(OpKind::Mul)));
                } else {
                    lemma_sp_expr_loop_consumes(rest, OpKind::Mul, acc.push(ExprV::Op(prev_op)).push(e));
                },
                Err(_) => {},
            },
            TokenKind::Slash => match sp_read(ts_tail(ts)) {
                Ok((e, rest)) => if prev_op != OpKind::Mul {
                    lemma_sp_expr_loop_consumes(rest, prev_op, acc.push(e).push(ExprV::Op(OpKind::Div)));
                } else {
                    lemma_sp_expr_loop_consumes(rest, OpKind::Div, acc.push(ExprV::Op(prev_op)).push(e));
                },
                Err(_) => {},
            },
            _ => {},
        }
    }
}

/// A nonempty all-digit run has a nonnegative value.
proof fn lemma_digits_val_nonneg(d: Seq<u8>)
    requires
        forall|k: int| 0 <= k < d.len() ==> is_digit(#[trigger] d[k]),
    ensures
        digits_val(d) >= 0,
    decreases d.len(),
{
    if d.len() > 0 {
        assert(forall|k: int|
            0 <= k < d.drop_last().len() ==> is_digit(#[trigger] d.drop_last()[k]));
        lemma_digits_val_nonneg(d.drop_last());
    }
}

/// Extending a digit run never shrinks its value: the value of a prefix is
/// a lower bound for the value of the whole run.
proof fn lemma_digits_val_prefix_le(d: Seq<u8>, i: int)
    requires
        forall|k: int| 0 <= k < d.len() ==> is_digit(#[trigger] d[k]),
        0 <= i <= d.len(),
    ensures
        digits_val(d.subrange(0, i)) <= digits_val(d),
    decreases d.len() - i,
{
    if i < d.len() {
        let a = d.subrange(0, i);
        let b = d.subrange(0, i + 1);
        assert(b.drop_last() =~= a);
        assert(forall|k: int| 0 <= k < a.len() ==> is_digit(#[trigger] a[k]));
        lemma_digits_val_nonneg(a);
        assert(digits_val(b) == digits_val(a) * 10 + (b.last() - 48));
        assert(digits_val(a) * 10 >= digits_val(a));
        lemma_digits_val_prefix_le(d, i + 1);
    } else {
        assert(d.subrange(0, i) =~= d);
    }
}

/// Decodes a `Num` token's digit run as a signed 32-bit integer; a value
/// beyond `i32::MAX` is a fatal fault reported with the literal's position.
fn parse_num(data: &Vec<u8>, pos: usize) -> (r: Result<i32, ParseError>)
    requires
        data@.len() > 0,
        forall|k: int| 0 <= k < data@.len() ==> is_digit(#[trigger] data@[k]),
    ensures
        match r {
            Ok(v) => digits_val(data@) <= i32::MAX as int && v as int == digits_val(data@),
            Err(e) => digits_val(data@) > i32::MAX as int && e == (ParseError::NumOverflow {
                pos,
            }),
        },
{
    let mut acc: u64 = 0;
    let mut i: usize = 0;
    while i < data.len()
        invariant
            0 <= i <= data@.len(),
            forall|k: int| 0 <= k < data@.len() ==> is_digit(#[trigger] data@[k]),
            acc as int == digits_val(data@.subrange(0, i as int)),
            acc <= i32::MAX as u64,
        decreases data@.len() - i,
    {
        let d = data[i];
        let acc2: u64 = acc * 10 + ((d - 48) as u64);
        proof {
            let a = data@.subrange(0, i as int);
            let b = data@.subrange(0, i as int + 1);
            assert(b.drop_last() =~= a);
            assert(b.last() == data@[i as int]);
            assert(acc2 as int == digits_val(b));
        }
        if acc2 > i32::MAX as u64 {
            proof {
                lemma_digits_val_prefix_le(data@, i as int + 1);
            }
            return Err(ParseError::NumOverflow { pos });
        }
        acc = acc2;
        i = i + 1;
    }
    proof {
        assert(data@.subrange(0, data@.len() as int) =~= data@);
    }
    Ok(acc as i32)
}

/// Reads one operand token and turns it into an expression node, as
/// `sp_read` says: any token that is not a `Name` or `Num` where an operand
/// is expected is a fatal fault.
fn expect_read(lex: &mut Lexer) -> (r: Result<Expr, ParseError>)
    requires
        old(lex).wf(),
    ensures
        final(lex).wf(),
        final(lex).src@ == old(lex).src@,
        match r {
            Ok(e) => {
                &&& sp_read(old(lex).remaining()) matches Ok((ev, rest)) && e@ == ev
                    && final(lex).remaining() == rest
            },
            Err(err) => sp_read(old(lex).remaining()) == Err::<(ExprV, TokStream), ParseError>(
                err,
            ),
        },
{
    let t = match lex.expect_next() {
        Ok(t) => t,
        Err(e) => {
            return Err(e);
        },
    };
    match t.kind {
        TokenKind::Name => Ok(Expr::Var(t.data)),
        TokenKind::Num => match parse_num(&t.data, t.pos) {
            Ok(v) => Ok(Expr::Num(v)),
            Err(e) => Err(e),
        },
        _ => Err(ParseError::UnexpectedToken { pos: t.pos, kind: t.kind }),
    }
}

/// Converts one infix arithmetic expression into postfix form, appended in
/// place to the shared buffer `expr_buf`, returning the half-open range it
/// occupies. The result and the tokens consumed are exactly those of
/// `sp_expr` on the tokens that remained; on a fault, nodes already pushed
/// stay in the buffer but the prefix that was there before is untouched.
pub fn parse_expr(expr_buf: &mut Vec<Expr>, lex: &mut Lexer) -> (r: Result<
    ExprRange,
    ParseError,
>)
    requires
        old(lex).wf(),
    ensures
        final(lex).wf(),
        final(lex).src@ == old(lex).src@,
        final(expr_buf)@.len() >= old(expr_buf)@.len(),
        exprs_view(final(expr_buf)@).subrange(0, old(expr_buf)@.len() as int) == exprs_view(
            old(expr_buf)@,
        ),
        match r {
            Ok(rng) => {
                &&& sp_expr(old(lex).remaining()) matches Ok((es, rest)) && exprs_view(
                    final(expr_buf)@,
                ) == exprs_view(old(expr_buf)@) + es && final(lex).remaining() == rest
                &&& rng.start == old(expr_buf)@.len()
                &&& rng.end == final(expr_buf)@.len()
            },
            Err(e) => sp_expr(old(lex).remaining()) == Err::<
                (Seq<ExprV>, TokStream),
                ParseError,
            >(e),
        },
{
    let ghost ts0 = lex.remaining();
    let ghost n0 = expr_buf@.len() as int;
    let ghost pre = exprs_view(expr_buf@);
    let start = expr_buf.len();

    let e0 = match expect_read(lex) {
        Ok(e) => e,
        Err(e) => {
            return Err(e);
        },
    };
    expr_buf.push(e0);
    proof {
        assert(exprs_view(expr_buf@).subrange(0, n0) =~= pre);
    }

    let t = match lex.expect_peek() {
        Ok(t) => t,
        Err(e) => {
            return Err(e);
        },
    };
    let mut prev_op = match t.kind {
        TokenKind::Plus => OpKind::Add,
        TokenKind::Minus => OpKind::Sub,
        TokenKind::Star => OpKind::Mul,
        TokenKind::Slash => OpKind::Div,
        _ => {
            proof {
                assert(exprs_view(expr_buf@).skip(n0) =~= seq![e0@]);
            }
            return Ok(ExprRange { start, end: expr_buf.len() });
        },
    };
    let _ = lex.next();

    let e1 = match expect_read(lex) {
        Ok(e) => e,
        Err(e) => {
            return Err(e);
        },
    };
    expr_buf.push(e1);
    proof {
        assert(exprs_view(expr_buf@).subrange(0, n0) =~= pre);
        assert(exprs_view(expr_buf@).skip(n0) =~= seq![e0@, e1@]);
    }

    loop
        invariant
            lex.wf(),
            lex.src@ == old(lex).src@,
            n0 == start as int,
            n0 == pre.len(),
            n0 <= expr_buf@.len(),
            pre == exprs_view(old(expr_buf)@),
            ts0 == old(lex).remaining(),
            exprs_view(expr_buf@).subrange(0, n0) == pre,
            sp_expr_loop(lex.remaining(), prev_op, exprs_view(expr_buf@).skip(n0)) == sp_expr(
                ts0,
            ),
        decreases lex.remaining().toks.len(),
    {
        let ghost rem = lex.remaining();
        let ghost acc = exprs_view(expr_buf@).skip(n0);
        let ghost prev0 = prev_op;
        let t = match lex.expect_peek() {
            Ok(t) => t,
            Err(e) => {
                return Err(e);
            },
        };
        match t.kind {
            TokenKind::Plus => {
                let _ = lex.next();
                expr_buf.push(Expr::Op(prev_op));
                proof {
                    assert(exprs_view(expr_buf@).subrange(0, n0) =~= pre);
                    assert(exprs_view(expr_buf@).skip(n0) =~= acc.push(ExprV::Op(prev_op)));
                }
                prev_op = OpKind::Add;
            },
            TokenKind::Star => {
                let _ = lex.next();
                if prev_op != OpKind::Div {
                    let e = match expect_read(lex) {
                        Ok(e) => e,
                        Err(e) => {
                            return Err(e);
                        },
                    };
                    expr_buf.push(e);
                    expr_buf.push(Expr::Op(OpKind::Mul));
                    proof {
                        assert(exprs_view(expr_buf@).subrange(0, n0) =~= pre);
                        assert(exprs_view(expr_buf@).skip(n0) =~= acc.push(e@).push(
                            ExprV::Op(OpKind::Mul),
                        ));
                    }
                    continue;
                }
                expr_buf.push(Expr::Op(prev_op));
                proof {
                    assert(exprs_view(expr_buf@).subrange(0, n0) =~= pre);
                    assert(exprs_view(expr_buf@).skip(n0) =~= acc.push(ExprV::Op(prev_op)));
                }
                prev_op = OpKind::Mul;
            },
            TokenKind::Slash => {
                let _ = lex.next();
                if prev_op != OpKind::Mul {
                    let e = match expect_read(lex) {
                        Ok(e) => e,
                        Err(e) => {
                            return Err(e);
                        },
                    };
                    expr_buf.push(e);
                    expr_buf.push(Expr::Op(OpKind::Div));
                    proof {
                        assert(exprs_view(expr_buf@).subrange(0, n0) =~= pre);
                        assert(exprs_view(expr_buf@).skip(n0) =~= acc.push(e@).push(
                            ExprV::Op(OpKind::Div),
                        ));
                    }
                    continue;
                }
                expr_buf.push(Expr::Op(prev_op));
                proof {
                    assert(exprs_view(expr_buf@).subrange(0, n0) =~= pre);
                    assert(exprs_view(expr_buf@).skip(n0) =~= acc.push(ExprV::Op(prev_op)));
                }
                prev_op = OpKind::Div;
            },
            _ => {
                expr_buf.push(Expr::Op(prev_op));
                proof {
                    assert(exprs_view(expr_buf@).subrange(0, n0) =~= pre);
                    assert(exprs_view(expr_buf@).skip(n0) =~= acc.push(ExprV::Op(prev_op)));
                    assert(exprs_view(expr_buf@) =~= pre + exprs_view(expr_buf@).skip(n0));
                }
                return Ok(ExprRange { start, end: expr_buf.len() });
            },
        }
        let e = match expect_read(lex) {
            Ok(e) => e,
            Err(e) => {
                return Err(e);
            },
        };
        expr_buf.push(e);
        proof {
            assert(exprs_view(expr_buf@).subrange(0, n0) =~= pre);
            assert(exprs_view(expr_buf@).skip(n0) =~= acc.push(ExprV::Op(prev0)).push(e@));
        }
    }
}

/// Drives the lexer over the whole input and returns the complete expression
/// buffer and statement sequence, exactly as `sp_parse` says, or the first
/// fault met. There is no partial result: on a fault the buffers are
/// dropped.
pub fn parse(lex: &mut Lexer) -> (r: Result<(Vec<Expr>, Vec<Stmt>), ParseError>)
    requires
        old(lex).wf(),
    ensures
        match r {
            Ok(out) => sp_parse(old(lex).remaining()) == Ok::<_, ParseError>(
                (exprs_view(out.0@), stmts_view(out.1@)),
            ),
            Err(e) => sp_parse(old(lex).remaining()) == Err::<
                (Seq<ExprV>, Seq<StmtV>),
                ParseError,
            >(e),
        },
{
    let mut expr_buf: Vec<Expr> = Vec::new();
    let mut stmt_buf: Vec<Stmt> = Vec::new();
    let ghost ts0 = lex.remaining();
    proof {
        assert(exprs_view(expr_buf@) =~= Seq::<ExprV>::empty());
        assert(stmts_view(stmt_buf@) =~= Seq::<StmtV>::empty());
    }

    loop
        invariant
            lex.wf(),
            ts0 == old(lex).remaining(),
            sp_parse_loop(lex.remaining(), exprs_view(expr_buf@), stmts_view(stmt_buf@))
                == sp_parse(ts0),
        decreases lex.remaining().toks.len(),
    {
        let ghost rem = lex.remaining();
        let ghost ebuf0 = exprs_view(expr_buf@);
        let ghost stmts0 = stmts_view(stmt_buf@);
        let tok_opt = match lex.next() {
            Ok(o) => o,
            Err(e) => {
                return Err(e);
            },
        };
        let tok = match tok_opt {
            Some(tok) => tok,
            None => {
                return Ok((expr_buf, stmt_buf));
            },
        };
        match tok.kind {
            TokenKind::Name => {
                match lex.expect_specific_next(TokenKind::Eq) {
                    Ok(_) => {},
                    Err(e) => {
                        return Err(e);
                    },
                }
                let rng = match parse_expr(&mut expr_buf, lex) {
                    Ok(rng) => rng,
                    Err(e) => {
                        return Err(e);
                    },
                };
                stmt_buf.push(Stmt::VarAssign { name: tok.data, expr: rng });
                proof {
                    assert(stmts_view(stmt_buf@) =~= stmts0.push(
                        StmtV {
                            name: rem.toks[0].data,
                            start: ebuf0.len() as int,
                            end: exprs_view(expr_buf@).len() as int,
                        },
                    ));
                    let es = (match sp_expr(ts_tail(ts_tail(rem))) {
                        Ok((es, r2)) => es,
                        Err(_) => Seq::<ExprV>::empty(),
                    });
                    assert(exprs_view(expr_buf@) =~= ebuf0 + es);
                    lemma_sp_expr_consumes(ts_tail(ts_tail(rem)));
                }
                match lex.expect_specific_next(TokenKind::Semicolon) {
                    Ok(_) => {},
                    Err(e) => {
                        return Err(e);
                    },
                }
            },
            _ => {
                return Err(ParseError::UnsupportedStmt { pos: tok.pos, kind: tok.kind });
            },
        }
    }
}

/// A successfully parsed expression consumed at least its first operand.
pub proof fn lemma_sp_expr_consumes(ts: TokStream)
    ensures
        sp_expr(ts) matches Ok((es, rest)) ==> rest.toks.len() < ts.toks.len(),
{
    match sp_read(ts) {
        Err(_) => {},
        Ok((e0, ts1)) => {
            if ts1.toks.len() > 0 {
                match sp_read(ts_tail(ts1)) {
                    Err(_) => {},
                    Ok((e1, ts2)) => {
                        lemma_sp_expr_loop_consumes(ts2, OpKind::Add, seq![e0, e1]);
                        lemma_sp_expr_loop_consumes(ts2, OpKind::Sub, seq![e0, e1]);
                        lemma_sp_expr_loop_consumes(ts2, OpKind::Mul, seq![e0, e1]);
                        lemma_sp_expr_loop_consumes(ts2, OpKind::Div, seq![e0, e1]);
                    },
                }
            }
        },
    }
}

} // verus!
