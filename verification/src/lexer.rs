//! Lazy, on-demand scanner over raw source bytes.
//!
//! Tokens are produced one at a time; there is no pre-tokenization pass and
//! no rewind beyond a one-token lookahead buffer. The spec-level model of a
//! lexer state is `remaining()`: the stream of tokens still to come, together
//! with the position of the first unscannable byte, if the source ends in one.

use vstd::prelude::*;

use crate::error::ParseError;

verus! {

/// The classification of one lexeme.
#[derive(Debug, Clone, Copy, PartialEq, Eq, Structural)]
pub enum TokenKind {
    Name,
    Num,
    Plus,
    Minus,
    Star,
    Slash,
    Eq,
    Semicolon,
}

/// One classified lexeme: its kind, the exact source bytes it was scanned
/// from, and the byte offset where it starts.
#[derive(Debug, PartialEq)]
pub struct Token {
    pub kind: TokenKind,
    pub data: Vec<u8>,
    pub pos: usize,
}

/// Mathematical image of a `Token`.
#[verifier::ext_equal]
pub ghost struct TokenV {
    pub kind: TokenKind,
    pub data: Seq<u8>,
    pub pos: int,
}

impl View for Token {
    type V = TokenV;

    open spec fn view(&self) -> TokenV {
        TokenV { kind: self.kind, data: self.data@, pos: self.pos as int }
    }
}

impl Clone for Token {
    fn clone(&self) -> (r: Token)
        ensures
            r@ == self@,
    {
        let data = self.data.clone();
        proof {
            assert(data@ =~= self.data@);
        }
        Token { kind: self.kind, data, pos: self.pos }
    }
}

/// Whitespace, skipped between tokens.
pub open spec fn is_ws(b: u8) -> bool {
    b == 32 || b == 9 || b == 10 || b == 13
}

/// A decimal digit, the bytes an integer literal is made of.
pub open spec fn is_digit(b: u8) -> bool {
    48 <= b && b <= 57
}

/// An ASCII letter, the bytes an identifier may start with.
pub open spec fn is_alpha(b: u8) -> bool {
    (65 <= b && b <= 90) || (97 <= b && b <= 122)
}

/// A byte that may continue an identifier: alphanumeric runs starting
/// with a non-digit are classified as `Name`.
pub open spec fn is_name_byte(b: u8) -> bool {
    is_alpha(b) || is_digit(b)
}

/// The kind of a single-byte punctuation token, or `None` for a byte that
/// is no punctuation.
pub open spec fn punct_kind(b: u8) -> Option<TokenKind> {
    if b == 43 {
        Some(TokenKind::Plus)
    } else if b == 45 {
        Some(TokenKind::Minus)
    } else if b == 42 {
        Some(TokenKind::Star)
    } else if b == 47 {
        Some(TokenKind::Slash)
    } else if b == 61 {
        Some(TokenKind::Eq)
    } else if b == 59 {
        Some(TokenKind::Semicolon)
    } else {
        None
    }
}

/// Index of the first byte at or after `i` that is not whitespace
/// (the source length if all remaining bytes are whitespace).
pub open spec fn ws_end(s: Seq<u8>, i: int) -> int
    decreases s.len() - i,
{
    if i >= s.len() {
        s.len() as int
    } else if is_ws(s[i]) {
        ws_end(s, i + 1)
    } else {
        i
    }
}

/// Index of the first byte at or after `i` that is not a digit.
pub open spec fn num_end(s: Seq<u8>, i: int) -> int
    decreases s.len() - i,
{
    if i >= s.len() {
        s.len() as int
    } else if is_digit(s[i]) {
        num_end(s, i + 1)
    } else {
        i
    }
}

/// Index of the first byte at or after `i` that cannot continue a name.
pub open spec fn name_end(s: Seq<u8>, i: int) -> int
    decreases s.len() - i,
{
    if i >= s.len() {
        s.len() as int
    } else if is_name_byte(s[i]) {
        name_end(s, i + 1)
    } else {
        i
    }
}

/// What one scan step finds at position `i`: the end of the source, one
/// token, or an unscannable byte (its position).
#[verifier::ext_equal]
pub ghost enum Scan {
    End,
    Tok(TokenV),
    Bad(int),
}

/// The token (or end, or fault) that scanning finds at position `i`, after
/// skipping whitespace.
pub open spec fn scan_at(s: Seq<u8>, i: int) -> Scan {
    let j = ws_end(s, i);
    if j >= s.len() {
        Scan::End
    } else if is_digit(s[j]) {
        Scan::Tok(TokenV { kind: TokenKind::Num, data: s.subrange(j, num_end(s, j)), pos: j })
    } else if is_alpha(s[j]) {
        Scan::Tok(TokenV { kind: TokenKind::Name, data: s.subrange(j, name_end(s, j)), pos: j })
    } else {
        match punct_kind(s[j]) {
            Some(k) => Scan::Tok(TokenV { kind: k, data: s.subrange(j, j + 1), pos: j }),
            None => Scan::Bad(j),
        }
    }
}

/// The cursor position after the scan step at `i`.
pub open spec fn scan_next_pos(s: Seq<u8>, i: int) -> int {
    let j = ws_end(s, i);
    if j >= s.len() {
        j
    } else if is_digit(s[j]) {
        num_end(s, j)
    } else if is_alpha(s[j]) {
        name_end(s, j)
    } else {
        match punct_kind(s[j]) {
            Some(k) => j + 1,
            None => j,
        }
    }
}

/// A token stream: the tokens scanning yields in order, and, where the
/// source ends in a byte that begins no token, that byte's position.
#[verifier::ext_equal]
pub ghost struct TokStream {
    pub toks: Seq<TokenV>,
    pub bad: Option<int>,
}

/// The stream of all tokens from position `i` on.
pub open spec fn toks_from(s: Seq<u8>, i: int) -> TokStream
    decreases s.len() - i,
    when 0 <= i
    via toks_from_decreases
{
    match scan_at(s, i) {
        Scan::End => TokStream { toks: Seq::empty(), bad: None },
        Scan::Bad(p) => TokStream { toks: Seq::empty(), bad: Some(p) },
        Scan::Tok(t) => {
            let rest = toks_from(s, scan_next_pos(s, i));
            TokStream { toks: seq![t] + rest.toks, bad: rest.bad }
        },
    }
}

#[via_fn]
proof fn toks_from_decreases(s: Seq<u8>, i: int) {
    lemma_scan_progress(s, i);
}

/// Whitespace skipping stays within the source and lands on the first
/// non-whitespace byte.
pub proof fn lemma_ws_end_bounds(s: Seq<u8>, i: int)
    requires
        0 <= i <= s.len(),
    ensures
        i <= ws_end(s, i) <= s.len(),
        ws_end(s, i) < s.len() ==> !is_ws(s[ws_end(s, i)]),
    decreases s.len() - i,
{
    if i < s.len() && is_ws(s[i]) {
        lemma_ws_end_bounds(s, i + 1);
    }
}

/// A digit run ends within the source, and all its bytes are digits.
pub proof fn lemma_num_end_bounds(s: Seq<u8>, i: int)
    requires
        0 <= i <= s.len(),
    ensures
        i <= num_end(s, i) <= s.len(),
        forall|k: int| i <= k < num_end(s, i) ==> is_digit(s[k]),
        num_end(s, i) < s.len() ==> !is_digit(s[num_end(s, i)]),
    decreases s.len() - i,
{
    if i < s.len() && is_digit(s[i]) {
        lemma_num_end_bounds(s, i + 1);
    }
}

/// A name run ends within the source, and all its bytes are name bytes.
pub proof fn lemma_name_end_bounds(s: Seq<u8>, i: int)
    requires
        0 <= i <= s.len(),
    ensures
        i <= name_end(s, i) <= s.len(),
        forall|k: int| i <= k < name_end(s, i) ==> is_name_byte(s[k]),
        name_end(s, i) < s.len() ==> !is_name_byte(s[name_end(s, i)]),
    decreases s.len() - i,
{
    if i < s.len() && is_name_byte(s[i]) {
        lemma_name_end_bounds(s, i + 1);
    }
}

/// A scan step that yields a token advances the cursor, and never past the
/// end of the source.
pub proof fn lemma_scan_progress(s: Seq<u8>, i: int)
    requires
        0 <= i,
    ensures
        scan_at(s, i) is Tok ==> i < scan_next_pos(s, i) <= s.len(),
{
    if i <= s.len() {
        lemma_ws_end_bounds(s, i);
        let j = ws_end(s, i);
        if j < s.len() {
            lemma_num_end_bounds(s, j);
            lemma_name_end_bounds(s, j);
        }
    }
}

/// The fault that reading a mandatory token yields when the stream is
/// exhausted: the unscannable byte if the source ends in one, else
/// unexpected end of input.
pub open spec fn sp_end_err(ts: TokStream) -> ParseError {
    match ts.bad {
        Some(p) => ParseError::Lexical { pos: p as usize },
        None => ParseError::UnexpectedEof,
    }
}

/// A token is well formed when its data matches what its kind requires of
/// the source bytes; the parser's numeric decoding relies on a `Num`
/// token's data being a nonempty digit run.
pub open spec fn tok_wf(t: TokenV) -> bool {
    match t.kind {
        TokenKind::Num => t.data.len() > 0 && (forall|k: int|
            0 <= k < t.data.len() ==> is_digit(t.data[k])),
        _ => true,
    }
}

/// Every token of the stream is well formed.
pub open spec fn ts_wf(ts: TokStream) -> bool {
    forall|k: int| 0 <= k < ts.toks.len() ==> tok_wf(#[trigger] ts.toks[k])
}

/// Every stream the scanner yields consists of well-formed tokens.
pub proof fn lemma_toks_from_wf(s: Seq<u8>, i: int)
    requires
        0 <= i,
    ensures
        ts_wf(toks_from(s, i)),
    decreases s.len() - i,
{
    lemma_scan_progress(s, i);
    match scan_at(s, i) {
        Scan::Tok(t) => {
            if i <= s.len() {
                lemma_ws_end_bounds(s, i);
                let j = ws_end(s, i);
                if j < s.len() && is_digit(s[j]) {
                    lemma_num_end_bounds(s, j);
                }
            }
            lemma_toks_from_wf(s, scan_next_pos(s, i));
        },
        _ => {},
    }
}

/// The lazy scanner. `src` is the whole source, read into memory before
/// lexing begins; `pos` is the scan cursor; `peeked` is the one-token
/// lookahead buffer, holding a token already scanned but not yet consumed.
pub struct Lexer {
    pub src: Vec<u8>,
    pub pos: usize,
    pub peeked: Option<Token>,
}

impl Lexer {
    /// The cursor stays within the source, and a buffered token is well
    /// formed.
    pub open spec fn wf(self) -> bool {
        &&& self.pos <= self.src@.len()
        &&& match self.peeked {
            Some(t) => tok_wf(t@),
            None => true,
        }
    }

    /// The tokens still to come: the lookahead buffer, if filled, followed
    /// by everything the cursor has not yet passed.
    pub open spec fn remaining(self) -> TokStream {
        let base = toks_from(self.src@, self.pos as int);
        match self.peeked {
            Some(t) => TokStream { toks: seq![t@] + base.toks, bad: base.bad },
            None => base,
        }
    }

    /// Every token still to come is well formed.
    pub proof fn lemma_remaining_wf(self)
        requires
            self.wf(),
        ensures
            ts_wf(self.remaining()),
    {
        lemma_toks_from_wf(self.src@, self.pos as int);
        let base = toks_from(self.src@, self.pos as int);
        match self.peeked {
            Some(t) => {
                assert(forall|k: int|
                    0 <= k < self.remaining().toks.len() ==> tok_wf(
                        #[trigger] self.remaining().toks[k],
                    ));
            },
            None => {},
        }
    }

    pub fn new(src: Vec<u8>) -> (l: Lexer)
        ensures
            l.wf(),
            l.src@ == src@,
            l.remaining() == toks_from(src@, 0),
    {
        Lexer { src, pos: 0, peeked: None }
    }

    /// Scans one token at the cursor, ignoring the lookahead buffer: skips
    /// whitespace, classifies the next byte, and consumes the lexeme.
    fn scan_token(&mut self) -> (r: Result<Option<Token>, ParseError>)
        requires
            old(self).wf(),
            old(self).peeked is None,
        ensures
            final(self).wf(),
            final(self).src@ == old(self).src@,
            final(self).peeked is None,
            match r {
                Ok(Some(t)) => {
                    &&& scan_at(old(self).src@, old(self).pos as int) == Scan::Tok(t@)
                    &&& final(self).pos as int == scan_next_pos(old(self).src@, old(self).pos as int)
                },
                Ok(None) => {
                    &&& scan_at(old(self).src@, old(self).pos as int) is End
                    &&& final(self).pos == old(self).src@.len()
                },
                Err(e) => {
                    &&& scan_at(old(self).src@, old(self).pos as int) == Scan::Bad(
                        final(self).pos as int,
                    )
                    &&& e == (ParseError::Lexical { pos: final(self).pos })
                    &&& final(self).pos as int == scan_next_pos(old(self).src@, old(self).pos as int)
                },
            },
    {
        let ghost s = self.src@;
        let ghost p0 = self.pos as int;
        // skip whitespace
        while self.pos < self.src.len() && is_ws_byte(self.src[self.pos])
            invariant
                self.src@ == s,
                self.peeked is None,
                0 <= p0 <= self.pos as int <= s.len(),
                ws_end(s, p0) == ws_end(s, self.pos as int),
            decreases s.len() - self.pos,
        {
            self.pos = self.pos + 1;
        }
        let ghost j = self.pos as int;
        assert(ws_end(s, p0) == j);
        if self.pos == self.src.len() {
            return Ok(None);
        }
        let b = self.src[self.pos];
        let start = self.pos;
        if is_digit_byte(b) {
            let mut data: Vec<u8> = Vec::new();
            while self.pos < self.src.len() && is_digit_byte(self.src[self.pos])
                invariant
                    self.src@ == s,
                    self.peeked is None,
                    0 <= start as int <= self.pos as int <= s.len(),
                    num_end(s, start as int) == num_end(s, self.pos as int),
                    data@ == s.subrange(start as int, self.pos as int),
                decreases s.len() - self.pos,
            {
                data.push(self.src[self.pos]);
                proof {
                    assert(data@ =~= s.subrange(start as int, self.pos as int + 1));
                }
                self.pos = self.pos + 1;
            }
            assert(num_end(s, start as int) == self.pos as int);
            return Ok(Some(Token { kind: TokenKind::Num, data, pos: start }));
        }
        if is_alpha_byte(b) {
            let mut data: Vec<u8> = Vec::new();
            while self.pos < self.src.len() && is_name_byte_ex(self.src[self.pos])
                invariant
                    self.src@ == s,
                    self.peeked is None,
                    0 <= start as int <= self.pos as int <= s.len(),
                    name_end(s, start as int) == name_end(s, self.pos as int),
                    data@ == s.subrange(start as int, self.pos as int),
                decreases s.len() - self.pos,
            {
                data.push(self.src[self.pos]);
                proof {
                    assert(data@ =~= s.subrange(start as int, self.pos as int + 1));
                }
                self.pos = self.pos + 1;
            }
            assert(name_end(s, start as int) == self.pos as int);
            return Ok(Some(Token { kind: TokenKind::Name, data, pos: start }));
        }
        let kind = if b == 43 {
            TokenKind::Plus
        } else if b == 45 {
            TokenKind::Minus
        } else if b == 42 {
            TokenKind::Star
        } else if b == 47 {
            TokenKind::Slash
        } else if b == 61 {
            TokenKind::Eq
        } else if b == 59 {
            TokenKind::Semicolon
        } else {
            return Err(ParseError::Lexical { pos: self.pos });
        };
        self.pos = self.pos + 1;
        let mut data: Vec<u8> = Vec::new();
        data.push(b);
        proof {
            assert(data@ =~= s.subrange(j, j + 1));
        }
        Ok(Some(Token { kind, data, pos: start }))
    }

    /// Produces the next token if source remains, `Ok(None)` once the input
    /// is exhausted, or the lexical fault if the source continues with a
    /// byte that begins no token.
    pub fn next(&mut self) -> (r: Result<Option<Token>, ParseError>)
        requires
            old(self).wf(),
        ensures
            final(self).wf(),
            final(self).src@ == old(self).src@,
            ({
                let ts = old(self).remaining();
                match r {
                    Ok(Some(t)) => {
                        &&& ts.toks.len() > 0
                        &&& t@ == ts.toks[0]
                        &&& tok_wf(t@)
                        &&& final(self).remaining() == (TokStream {
                            toks: ts.toks.skip(1),
                            bad: ts.bad,
                        })
                    },
                    Ok(None) => ts.toks.len() == 0 && ts.bad is None && final(self).remaining()
                        == ts,
                    Err(e) => {
                        &&& ts.toks.len() == 0
                        &&& ts.bad matches Some(p) && e == (ParseError::Lexical { pos: p as usize })
                        &&& final(self).remaining() == ts
                    },
                }
            }),
    {
        proof {
            old(self).lemma_remaining_wf();
        }
        if self.peeked.is_some() {
            let t = self.peeked.as_ref().unwrap().clone();
            self.peeked = None;
            proof {
                let base = toks_from(self.src@, self.pos as int);
                assert((seq![t@] + base.toks).skip(1) =~= base.toks);
                assert(self.remaining() =~= (TokStream {
                    toks: old(self).remaining().toks.skip(1),
                    bad: old(self).remaining().bad,
                }));
            }
            return Ok(Some(t));
        }
        let ghost s = self.src@;
        let ghost p0 = self.pos as int;
        let r = self.scan_token();
        proof {
            lemma_scan_progress(s, p0);
        }
        match r {
            Ok(Some(t)) => {
                proof {
                    let rest = toks_from(s, scan_next_pos(s, p0));
                    assert(toks_from(s, p0) == (TokStream {
                        toks: seq![t@] + rest.toks,
                        bad: rest.bad,
                    }));
                    assert((seq![t@] + rest.toks).skip(1) =~= rest.toks);
                    assert(old(self).remaining().toks[0] == t@);
                    assert(tok_wf(old(self).remaining().toks[0]));
                    assert(self.remaining() =~= (TokStream {
                        toks: old(self).remaining().toks.skip(1),
                        bad: old(self).remaining().bad,
                    }));
                }
                Ok(Some(t))
            },
            Ok(None) => {
                proof {
                    assert(toks_from(s, p0) == (TokStream {
                        toks: Seq::<TokenV>::empty(),
                        bad: None::<int>,
                    }));
                    assert(self.remaining() =~= old(self).remaining());
                }
                Ok(None)
            },
            Err(e) => {
                proof {
                    let p = self.pos as int;
                    assert(toks_from(s, p0) == (TokStream {
                        toks: Seq::<TokenV>::empty(),
                        bad: Some(p),
                    }));
                    lemma_ws_end_bounds(s, p0);
                    assert(p == ws_end(s, p0) && p < s.len() && !is_ws(s[p]));
                    assert(ws_end(s, p) == p);
                    assert(scan_at(s, p) == Scan::Bad(p));
                    assert(self.remaining() =~= old(self).remaining());
                }
                Err(e)
            },
        }
    }

    /// Returns the next token without consuming it; a following `next`
    /// returns the identical token. Peeking twice without consuming returns
    /// the same buffered token.
    pub fn peek(&mut self) -> (r: Result<Option<Token>, ParseError>)
        requires
            old(self).wf(),
        ensures
            final(self).wf(),
            final(self).src@ == old(self).src@,
            final(self).remaining() == old(self).remaining(),
            ({
                let ts = old(self).remaining();
                match r {
                    Ok(Some(t)) => ts.toks.len() > 0 && t@ == ts.toks[0],
                    Ok(None) => ts.toks.len() == 0 && ts.bad is None,
                    Err(e) => {
                        &&& ts.toks.len() == 0
                        &&& ts.bad matches Some(p) && e == (ParseError::Lexical { pos: p as usize })
                    },
                }
            }),
    {
        if self.peeked.is_some() {
            let t = self.peeked.as_ref().unwrap().clone();
            return Ok(Some(t));
        }
        let ghost s = self.src@;
        let ghost p0 = self.pos as int;
        let r = self.scan_token();
        proof {
            lemma_scan_progress(s, p0);
        }
        match r {
            Ok(Some(t)) => {
                let out = t.clone();
                self.peeked = Some(t);
                proof {
                    let rest = toks_from(s, scan_next_pos(s, p0));
                    assert(toks_from(s, p0) == (TokStream {
                        toks: seq![out@] + rest.toks,
                        bad: rest.bad,
                    }));
                    lemma_toks_from_wf(s, p0);
                    assert(toks_from(s, p0).toks[0] == out@);
                    assert(self.remaining() =~= old(self).remaining());
                }
                Ok(Some(out))
            },
            Ok(None) => {
                proof {
                    assert(toks_from(s, p0) == (TokStream {
                        toks: Seq::<TokenV>::empty(),
                        bad: None::<int>,
                    }));
                    assert(self.remaining() =~= old(self).remaining());
                }
                Ok(None)
            },
            Err(e) => {
                proof {
                    let p = self.pos as int;
                    assert(toks_from(s, p0) == (TokStream {
                        toks: Seq::<TokenV>::empty(),
                        bad: Some(p),
                    }));
                    lemma_ws_end_bounds(s, p0);
                    assert(p == ws_end(s, p0) && p < s.len() && !is_ws(s[p]));
                    assert(ws_end(s, p) == p);
                    assert(scan_at(s, p) == Scan::Bad(p));
                    assert(self.remaining() =~= old(self).remaining());
                }
                Err(e)
            },
        }
    }

    /// Like `next`, but exhausted input is itself a fault: used wherever the
    /// grammar makes a token mandatory.
    pub fn expect_next(&mut self) -> (r: Result<Token, ParseError>)
        requires
            old(self).wf(),
        ensures
            final(self).wf(),
            final(self).src@ == old(self).src@,
            ({
                let ts = old(self).remaining();
                match r {
                    Ok(t) => {
                        &&& ts.toks.len() > 0
                        &&& t@ == ts.toks[0]
                        &&& tok_wf(t@)
                        &&& final(self).remaining() == (TokStream {
                            toks: ts.toks.skip(1),
                            bad: ts.bad,
                        })
                    },
                    Err(e) => ts.toks.len() == 0 && e == sp_end_err(ts)
                        && final(self).remaining() == ts,
                }
            }),
    {
        match self.next() {
            Ok(Some(t)) => Ok(t),
            Ok(None) => Err(ParseError::UnexpectedEof),
            Err(e) => Err(e),
        }
    }

    /// Like `peek`, but exhausted input is itself a fault.
    pub fn expect_peek(&mut self) -> (r: Result<Token, ParseError>)
        requires
            old(self).wf(),
        ensures
            final(self).wf(),
            final(self).src@ == old(self).src@,
            final(self).remaining() == old(self).remaining(),
            ({
                let ts = old(self).remaining();
                match r {
                    Ok(t) => ts.toks.len() > 0 && t@ == ts.toks[0],
                    Err(e) => ts.toks.len() == 0 && e == sp_end_err(ts),
                }
            }),
    {
        match self.peek() {
            Ok(Some(t)) => Ok(t),
            Ok(None) => Err(ParseError::UnexpectedEof),
            Err(e) => Err(e),
        }
    }

    /// Consumes the next token and faults (reporting the unexpected token)
    /// unless its kind is `kind`: used for mandatory punctuation.
    pub fn expect_specific_next(&mut self, kind: TokenKind) -> (r: Result<Token, ParseError>)
        requires
            old(self).wf(),
        ensures
            final(self).wf(),
            final(self).src@ == old(self).src@,
            ({
                let ts = old(self).remaining();
                match r {
                    Ok(t) => {
                        &&& ts.toks.len() > 0
                        &&& ts.toks[0].kind == kind
                        &&& t@ == ts.toks[0]
                        &&& final(self).remaining() == (TokStream {
                            toks: ts.toks.skip(1),
                            bad: ts.bad,
                        })
                    },
                    Err(e) => if ts.toks.len() == 0 {
                        e == sp_end_err(ts) && final(self).remaining() == ts
                    } else {
                        ts.toks[0].kind != kind && e == (ParseError::UnexpectedToken {
                            pos: ts.toks[0].pos as usize,
                            kind: ts.toks[0].kind,
                        })
                    },
                }
            }),
    {
        match self.expect_next() {
            Ok(t) => if t.kind == kind {
                Ok(t)
            } else {
                Err(ParseError::UnexpectedToken { pos: t.pos, kind: t.kind })
            },
            Err(e) => Err(e),
        }
    }
}

/// Exec mirror of `is_ws`.
fn is_ws_byte(b: u8) -> (r: bool)
    ensures
        r == is_ws(b),
{
    b == 32 || b == 9 || b == 10 || b == 13
}

/// Exec mirror of `is_digit`.
fn is_digit_byte(b: u8) -> (r: bool)
    ensures
        r == is_digit(b),
{
    48 <= b && b <= 57
}

/// Exec mirror of `is_alpha`.
fn is_alpha_byte(b: u8) -> (r: bool)
    ensures
        r == is_alpha(b),
{
    (65 <= b && b <= 90) || (97 <= b && b <= 122)
}

/// Exec mirror of `is_name_byte`.
fn is_name_byte_ex(b: u8) -> (r: bool)
    ensures
        r == is_name_byte(b),
{
    is_alpha_byte(b) || is_digit_byte(b)
}

} // verus!
