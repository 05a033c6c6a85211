//! The stack discipline of the postfix form: a spec-level stack machine that
//! tracks how deep the operand stack is while a postfix range is evaluated
//! left to right.

use vstd::prelude::*;

use crate::lexer::TokStream;
use crate::parser::ExprV;
use crate::parser::OpKind;
use crate::parser::StmtV;
use crate::parser::lemma_sp_expr_consumes;
use crate::parser::sp_expr;
use crate::parser::sp_expr_loop;
use crate::parser::sp_parse;
use crate::parser::sp_parse_loop;
use crate::parser::sp_read;
use crate::parser::ts_tail;

verus! {

/// Runs a postfix sequence against an operand stack of depth `d`: an operand
/// pushes one value, an operator pops two and pushes one. `None` means the
/// stack underflowed; `Some(m)` is the depth left when the sequence ends.
pub open spec fn run_depth(s: Seq<ExprV>, d: int) -> Option<int>
    decreases s.len(),
{
    if s.len() == 0 {
        Some(d)
    } else {
        match s[0] {
            ExprV::Op(op) => if d >= 2 {
                run_depth(s.skip(1), d - 1)
            } else {
                None
            },
            _ => run_depth(s.skip(1), d + 1),
        }
    }
}

/// Running a concatenation runs the first part, then the second from the
/// depth the first one left.
pub proof fn lemma_run_depth_append(a: Seq<ExprV>, b: Seq<ExprV>, d: int)
    ensures
        run_depth(a + b, d) == (match run_depth(a, d) {
            Some(m) => run_depth(b, m),
            None => None::<int>,
        }),
    decreases a.len(),
{
    if a.len() == 0 {
        assert(a + b =~= b);
    } else {
        assert((a + b).skip(1) =~= a.skip(1) + b);
        assert((a + b)[0] == a[0]);
        match a[0] {
            ExprV::Op(op) => {
                if d >= 2 {
                    lemma_run_depth_append(a.skip(1), b, d - 1);
                }
            },
            _ => {
                lemma_run_depth_append(a.skip(1), b, d + 1);
            },
        }
    }
}

/// Appending one node steps the depth: an operand raises it by one, an
/// operator needs two and lowers it by one.
proof fn lemma_run_depth_push(a: Seq<ExprV>, x: ExprV, d: int)
    ensures
        run_depth(a.push(x), d) == (match run_depth(a, d) {
            Some(m) => match x {
                ExprV::Op(op) => if m >= 2 {
                    Some(m - 1)
                } else {
                    None::<int>
                },
                _ => Some(m + 1),
            },
            None => None::<int>,
        }),
{
    assert(a.push(x) =~= a + seq![x]);
    lemma_run_depth_append(a, seq![x], d);
    assert forall|m: int| run_depth(seq![x], m) == (match x {
        ExprV::Op(op) => if m >= 2 {
            Some(m - 1)
        } else {
            None::<int>
        },
        _ => Some(m + 1),
    }) by {
        reveal_with_fuel(run_depth, 2);
        assert(seq![x].skip(1) =~= Seq::<ExprV>::empty());
    }
}

/// What `sp_read` yields is an operand node, never an operator.
proof fn lemma_sp_read_operand(ts: TokStream)
    ensures
        sp_read(ts) matches Ok((e, rest)) ==> !(e is Op),
{
}

/// The main expression loop keeps exactly two pending operand results and
/// closes them into one when it ends.
proof fn lemma_sp_expr_loop_depth(ts: TokStream, prev_op: OpKind, acc: Seq<ExprV>)
    requires
        run_depth(acc, 0) == Some(2int),
    ensures
        sp_expr_loop(ts, prev_op, acc) matches Ok((es, rest)) ==> run_depth(es, 0) == Some(1int),
    decreases ts.toks.len(),
{
    if ts.toks.len() > 0 {
        let t = ts.toks[0];
        lemma_sp_read_operand(ts_tail(ts));
        match t.kind {
            crate::lexer::TokenKind::Plus => match sp_read(ts_tail(ts)) {
                Ok((e, rest)) => {
                    lemma_run_depth_push(acc, ExprV::Op(prev_op), 0);
                    lemma_run_depth_push(acc.push(ExprV::Op(prev_op)), e, 0);
                    lemma_sp_expr_loop_depth(
                        rest,
                        OpKind::Add,
                        acc.push(ExprV::Op(prev_op)).push(e),
                    );
                },
                Err(_) => {},
            },
            crate::lexer::TokenKind::Star => match sp_read(ts_tail(ts)) {
                Ok((e, rest)) => if prev_op != OpKind::Div {
                    lemma_run_depth_push(acc, e, 0);
                    lemma_run_depth_push(acc.push(e), ExprV::Op(OpKind::Mul), 0);
                    lemma_sp_expr_loop_depth(rest, prev_op, acc.push(e).push(ExprV::Op(OpKind::Mul)));
                } else {
                    lemma_run_depth_push(acc, ExprV::Op(prev_op), 0);
                    lemma_run_depth_push(acc.push(ExprV::Op(prev_op)), e, 0);
                    lemma_sp_expr_loop_depth(
                        rest,
                        OpKind::Mul,
                        acc.push(ExprV::Op(prev_op)).push(e),
                    );
                },
                Err(_) => {},
            },
            crate::lexer::TokenKind::Slash => match sp_read(ts_tail(ts)) {
                Ok((e, rest)) => if prev_op != OpKind::Mul {
                    lemma_run_depth_push(acc, e, 0);
                    lemma_run_depth_push(acc.push(e), ExprV::Op(OpKind::Div), 0);
                    lemma_sp_expr_loop_depth(rest, prev_op, acc.push(e).push(ExprV::Op(OpKind::Div)));
                } else {
                    lemma_run_depth_push(acc, ExprV::Op(prev_op), 0);
                    lemma_run_depth_push(acc.push(ExprV::Op(prev_op)), e, 0);
                    lemma_sp_expr_loop_depth(
                        rest,
                        OpKind::Div,
                        acc.push(ExprV::Op(prev_op)).push(e),
                    );
                },
                Err(_) => {},
            },
            _ => {
                lemma_run_depth_push(acc, ExprV::Op(prev_op), 0);
            },
        }
    }
}

/// Law (round-trip evaluability of one expression): every postfix range the
/// expression parser produces, evaluated left to right by a stack machine,
/// never underflows the stack and leaves exactly one value.
pub proof fn lemma_expr_postfix_evaluable(ts: TokStream)
    ensures
        sp_expr(ts) matches Ok((es, rest)) ==> run_depth(es, 0) == Some(1int),
{
    lemma_sp_read_operand(ts);
    match sp_read(ts) {
        Err(_) => {},
        Ok((e0, ts1)) => {
            if ts1.toks.len() > 0 {
                reveal_with_fuel(run_depth, 3);
                assert(seq![e0].skip(1) =~= Seq::<ExprV>::empty());
                assert(run_depth(seq![e0], 0) == Some(1int));
                lemma_sp_read_operand(ts_tail(ts1));
                match sp_read(ts_tail(ts1)) {
                    Err(_) => {},
                    Ok((e1, ts2)) => {
                        assert(seq![e0, e1].skip(1) =~= seq![e1]);
                        assert(seq![e1].skip(1) =~= Seq::<ExprV>::empty());
                        assert(run_depth(seq![e0, e1], 0) == Some(2int));
                        lemma_sp_expr_loop_depth(ts2, OpKind::Add, seq![e0, e1]);
                        lemma_sp_expr_loop_depth(ts2, OpKind::Sub, seq![e0, e1]);
                        lemma_sp_expr_loop_depth(ts2, OpKind::Mul, seq![e0, e1]);
                        lemma_sp_expr_loop_depth(ts2, OpKind::Div, seq![e0, e1]);
                    },
                }
            }
        },
    }
}

/// The statement ranges slice the shared buffer into adjacent chunks: each
/// range starts where the previous one ended, the first starts at zero, and
/// the last ends at the buffer's length.
pub open spec fn ranges_contiguous(stmts: Seq<StmtV>, buf_len: int) -> bool {
    &&& forall|i: int|
        0 <= i < stmts.len() ==> 0 <= (#[trigger] stmts[i]).start <= stmts[i].end <= buf_len
    &&& forall|i: int|
        0 <= i && i + 1 < stmts.len() ==> (#[trigger] stmts[i]).end == stmts[i + 1].start
    &&& (stmts.len() > 0 ==> stmts[0].start == 0 && stmts[stmts.len() - 1].end == buf_len)
    &&& (stmts.len() == 0 ==> buf_len == 0)
}

/// Every statement's range, read back from the shared buffer, evaluates by
/// stack machine to exactly one value without underflow.
pub open spec fn stmt_ranges_evaluable(ebuf: Seq<ExprV>, stmts: Seq<StmtV>) -> bool {
    forall|i: int|
        0 <= i < stmts.len() ==> run_depth(
            ebuf.subrange((#[trigger] stmts[i]).start, stmts[i].end),
            0,
        ) == Some(1int)
}

/// Induction worker for the two parse-level laws, generalized over the
/// buffer and statements accumulated so far.
proof fn lemma_sp_parse_loop_props(ts: TokStream, ebuf0: Seq<ExprV>, stmts0: Seq<StmtV>)
    requires
        ranges_contiguous(stmts0, ebuf0.len() as int),
        stmt_ranges_evaluable(ebuf0, stmts0),
    ensures
        sp_parse_loop(ts, ebuf0, stmts0) matches Ok((ebuf, stmts)) ==> ranges_contiguous(
            stmts,
            ebuf.len() as int,
        ) && stmt_ranges_evaluable(ebuf, stmts),
    decreases ts.toks.len(),
{
    if ts.toks.len() > 0 && ts.toks[0].kind == crate::lexer::TokenKind::Name {
        let t = ts.toks[0];
        let ts1 = ts_tail(ts);
        if ts1.toks.len() > 0 && ts1.toks[0].kind == crate::lexer::TokenKind::Eq {
            lemma_sp_expr_consumes(ts_tail(ts1));
            lemma_expr_postfix_evaluable(ts_tail(ts1));
            match sp_expr(ts_tail(ts1)) {
                Err(_) => {},
                Ok((es, ts2)) => {
                    if ts2.toks.len() > 0 && ts2.toks[0].kind
                        == crate::lexer::TokenKind::Semicolon {
                        let ebuf1 = ebuf0 + es;
                        let stmts1 = stmts0.push(
                            StmtV {
                                name: t.data,
                                start: ebuf0.len() as int,
                                end: ebuf0.len() + es.len() as int,
                            },
                        );
                        assert(run_depth(es, 0) == Some(1int));
                        assert(es.len() > 0) by {
                            if es.len() == 0 {
                                assert(run_depth(es, 0) == Some(0int));
                            }
                        }
                        assert(ranges_contiguous(stmts1, ebuf1.len() as int));
                        assert forall|i: int| 0 <= i < stmts1.len() implies run_depth(
                            ebuf1.subrange((#[trigger] stmts1[i]).start, stmts1[i].end),
                            0,
                        ) == Some(1int) by {
                            if i < stmts0.len() {
                                assert(ebuf1.subrange(stmts0[i].start, stmts0[i].end)
                                    =~= ebuf0.subrange(stmts0[i].start, stmts0[i].end));
                            } else {
                                assert(ebuf1.subrange(
                                    ebuf0.len() as int,
                                    ebuf0.len() + es.len() as int,
                                ) =~= es);
                            }
                        }
                        lemma_sp_parse_loop_props(ts_tail(ts2), ebuf1, stmts1);
                    }
                },
            }
        }
    }
}

/// Law (statement range contiguity): for the statements of a successful
/// parse, each statement's range ends where the next one starts, the first
/// starts at zero, and the last ends at the buffer's length.
pub proof fn lemma_parse_ranges_contiguous(ts: TokStream)
    ensures
        sp_parse(ts) matches Ok((ebuf, stmts)) ==> ranges_contiguous(stmts, ebuf.len() as int),
{
    lemma_sp_parse_loop_props(ts, Seq::empty(), Seq::empty());
}

/// Law (round-trip evaluability): every postfix range a successful parse
/// hands out, evaluated by a stack machine applying its operators left to
/// right, never underflows the stack and yields exactly one remaining value.
pub proof fn lemma_parse_postfix_evaluable(ts: TokStream)
    ensures
        sp_parse(ts) matches Ok((ebuf, stmts)) ==> stmt_ranges_evaluable(ebuf, stmts),
{
    lemma_sp_parse_loop_props(ts, Seq::empty(), Seq::empty());
}

} // verus!
