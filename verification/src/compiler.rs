//! The precedence-climbing compiler: parses the token stream and emits
//! bytecode, postfix, into a growing byte buffer.
//!
//! Number literals that denote an integer in `[0, 127]` are embedded as one
//! signed byte behind `NumberI8`; every other literal is embedded as the
//! eight-byte word supplied by the caller through a [`NumberTable`], since
//! turning decimal text into a binary64 word is the caller's business.
//!
//! The compiler's behaviour is specified by a functional mirror,
//! [`spec_compile`], a total function on the source bytes, the number
//! table and the parser state. Each method is proved to advance the
//! parse exactly as the mirror says.

use vstd::prelude::*;

use crate::decimal::{classify, spec_classify, NumClass};
use crate::encoding::{push_le_bytes, spec_le_bytes};
use crate::lexer::{
    lemma_scan_bounds, spec_priority, spec_scan, Error as LexerError, FuncType, Lexer, Priority,
    Token, TokenV,
};

verus! {

/// An opcode tag. The byte codes run from `Number` = 0 to `NumberI8` = 8 in
/// declaration order.
#[derive(Debug, Clone, Copy, PartialEq, Eq, Structural)]
pub enum Op {
    Number,
    Plus,
    Minus,
    Mult,
    Div,
    Negate,
    Func,
    Ans,
    NumberI8,
}

impl Op {
    /// The byte under which the opcode is stored.
    pub open spec fn spec_code(self) -> u8 {
        match self {
            Op::Number => 0,
            Op::Plus => 1,
            Op::Minus => 2,
            Op::Mult => 3,
            Op::Div => 4,
            Op::Negate => 5,
            Op::Func => 6,
            Op::Ans => 7,
            Op::NumberI8 => 8,
        }
    }

    pub fn code(&self) -> (c: u8)
        ensures
            c == self.spec_code(),
    {
        match self {
            Op::Number => 0,
            Op::Plus => 1,
            Op::Minus => 2,
            Op::Mult => 3,
            Op::Div => 4,
            Op::Negate => 5,
            Op::Func => 6,
            Op::Ans => 7,
            Op::NumberI8 => 8,
        }
    }

    /// Decode an opcode byte.
    pub fn try_from(value: u8) -> (r: Result<Op, InvalidOpcode>)
        ensures
            value <= 8 ==> (r matches Ok(o) && o.spec_code() == value),
            value > 8 ==> (r matches Err(e) && e.0 == value),
    {
        match value {
            0 => Ok(Op::Number),
            1 => Ok(Op::Plus),
            2 => Ok(Op::Minus),
            3 => Ok(Op::Mult),
            4 => Ok(Op::Div),
            5 => Ok(Op::Negate),
            6 => Ok(Op::Func),
            7 => Ok(Op::Ans),
            8 => Ok(Op::NumberI8),
            x => Err(InvalidOpcode(x)),
        }
    }
}

/// Error value for a byte that names no opcode.
#[derive(Debug)]
pub struct InvalidOpcode(pub u8);

/// A token snapshot that owns its digit bytes, as errors carry one past the
/// borrowed source buffer.
#[derive(Debug, Clone, PartialEq, Eq)]
pub enum OwnedToken {
    Number(Vec<u8>),
    LeftParen,
    RightParen,
    Plus,
    Minus,
    Mult,
    Div,
    Func(FuncType),
    Comma,
    Ans,
}

impl View for OwnedToken {
    type V = TokenV;

    open spec fn view(&self) -> TokenV {
        match self {
            OwnedToken::Number(d) => TokenV::Number(d@),
            OwnedToken::LeftParen => TokenV::LeftParen,
            OwnedToken::RightParen => TokenV::RightParen,
            OwnedToken::Plus => TokenV::Plus,
            OwnedToken::Minus => TokenV::Minus,
            OwnedToken::Mult => TokenV::Mult,
            OwnedToken::Div => TokenV::Div,
            OwnedToken::Func(f) => TokenV::Func(*f),
            OwnedToken::Comma => TokenV::Comma,
            OwnedToken::Ans => TokenV::Ans,
        }
    }
}

/// Compilation errors.
#[derive(Debug, Clone, PartialEq, Eq)]
pub enum Error {
    FromLexer(LexerError),
    InvalidNumber(Vec<u8>),
    InvalidTokenBefore { prev: OwnedToken, current: Option<OwnedToken> },
    UnterminedGroup,
    InvalidToken(OwnedToken),
    MissingFunctionParen,
    MissingCommaInFunctionCall,
}

impl Error {
    /// A stable rendering of the error kind for display.
    pub fn describe(&self) -> (r: String)
        ensures
            r@ == (match self {
                Error::FromLexer(_) => "lexical error"@,
                Error::InvalidNumber(_) => "invalid number"@,
                Error::InvalidTokenBefore { .. } => "invalid token before"@,
                Error::UnterminedGroup => "untermined group"@,
                Error::InvalidToken(_) => "invalid token"@,
                Error::MissingFunctionParen => "missing function parenthesis"@,
                Error::MissingCommaInFunctionCall => "missing comma in function call"@,
            }),
    {
        match self {
            Error::FromLexer(_) => "lexical error".to_owned(),
            Error::InvalidNumber(_) => "invalid number".to_owned(),
            Error::InvalidTokenBefore { .. } => "invalid token before".to_owned(),
            Error::UnterminedGroup => "untermined group".to_owned(),
            Error::InvalidToken(_) => "invalid token".to_owned(),
            Error::MissingFunctionParen => "missing function parenthesis".to_owned(),
            Error::MissingCommaInFunctionCall => "missing comma in function call".to_owned(),
        }
    }
}

/// Mathematical image of a compilation error.
pub ghost enum CompErrV {
    FromLexer(LexerError),
    InvalidNumber(Seq<u8>),
    InvalidTokenBefore { prev: TokenV, current: Option<TokenV> },
    UnterminedGroup,
    InvalidToken(TokenV),
    MissingFunctionParen,
    MissingCommaInFunctionCall,
}

impl View for Error {
    type V = CompErrV;

    open spec fn view(&self) -> CompErrV {
        match self {
            Error::FromLexer(e) => CompErrV::FromLexer(*e),
            Error::InvalidNumber(d) => CompErrV::InvalidNumber(d@),
            Error::InvalidTokenBefore { prev, current } => CompErrV::InvalidTokenBefore {
                prev: prev@,
                current: match current {
                    Some(t) => Some(t@),
                    None => None,
                },
            },
            Error::UnterminedGroup => CompErrV::UnterminedGroup,
            Error::InvalidToken(t) => CompErrV::InvalidToken(t@),
            Error::MissingFunctionParen => CompErrV::MissingFunctionParen,
            Error::MissingCommaInFunctionCall => CompErrV::MissingCommaInFunctionCall,
        }
    }
}

/// The caller-supplied binary64 words of number literals, keyed by the raw
/// digit bytes. The first entry for a key wins.
pub struct NumberTable {
    entries: Vec<(Vec<u8>, u64)>,
}

/// First-match lookup in the table's image.
pub open spec fn spec_lookup(t: Seq<(Seq<u8>, u64)>, d: Seq<u8>) -> Option<u64>
    decreases t.len(),
{
    if t.len() == 0 {
        None
    } else if t[0].0 == d {
        Some(t[0].1)
    } else {
        spec_lookup(t.skip(1), d)
    }
}

impl View for NumberTable {
    type V = Seq<(Seq<u8>, u64)>;

    closed spec fn view(&self) -> Seq<(Seq<u8>, u64)> {
        self.entries@.map_values(|e: (Vec<u8>, u64)| (e.0@, e.1))
    }
}

impl NumberTable {
    pub fn new() -> (t: NumberTable)
        ensures
            t@ == Seq::<(Seq<u8>, u64)>::empty(),
    {
        NumberTable { entries: Vec::new() }
    }

    /// Record the word for one literal's digit bytes.
    pub fn insert(&mut self, digits: Vec<u8>, bits: u64)
        ensures
            final(self)@ == old(self)@.push((digits@, bits)),
    {
        let ghost pre = self@;
        self.entries.push((digits, bits));
        proof {
            assert(self@ =~= pre.push((self.entries@.last().0@, self.entries@.last().1)));
        }
    }

    /// The word recorded for these digit bytes, if any.
    pub fn lookup(&self, digits: &[u8]) -> (r: Option<u64>)
        ensures
            r == spec_lookup(self@, digits@),
    {
        let mut i: usize = 0;
        proof {
            assert(self@.skip(0) =~= self@);
        }
        while i < self.entries.len()
            invariant
                0 <= i <= self.entries@.len(),
                spec_lookup(self@, digits@) == spec_lookup(self@.skip(i as int), digits@),
            decreases self.entries@.len() - i,
        {
            proof {
                assert(self@.skip(i as int)[0] == (self.entries@[i as int].0@,
                    self.entries@[i as int].1));
                assert(self@.skip(i as int).skip(1) =~= self@.skip(i + 1));
            }
            if bytes_eq(self.entries[i].0.as_slice(), digits) {
                return Some(self.entries[i].1);
            }
            i += 1;
        }
        proof {
            assert(self@.skip(i as int).len() == 0);
        }
        None
    }
}

/// Byte-for-byte slice equality.
fn bytes_eq(a: &[u8], b: &[u8]) -> (r: bool)
    ensures
        r == (a@ == b@),
{
    if a.len() != b.len() {
        proof {
            assert(a@ != b@);
        }
        return false;
    }
    let mut i: usize = 0;
    while i < a.len()
        invariant
            0 <= i <= a@.len(),
            a@.len() == b@.len(),
            forall|m: int| 0 <= m < i ==> a@[m] == b@[m],
        decreases a@.len() - i,
    {
        if a[i] != b[i] {
            return false;
        }
        i += 1;
    }
    proof {
        assert(a@ =~= b@);
    }
    true
}

/// Copy a slice into an owned vector.
fn slice_to_vec(s: &[u8]) -> (v: Vec<u8>)
    ensures
        v@ == s@,
{
    let mut v: Vec<u8> = Vec::new();
    let mut i: usize = 0;
    while i < s.len()
        invariant
            0 <= i <= s@.len(),
            v@ == s@.subrange(0, i as int),
        decreases s@.len() - i,
    {
        v.push(s[i]);
        proof {
            assert(v@ =~= s@.subrange(0, i + 1));
        }
        i += 1;
    }
    proof {
        assert(v@ =~= s@);
    }
    v
}

/// Parser state of the mirror: the lexer cursor and the two token slots.
pub ghost struct CState {
    pub pos: int,
    pub prev: Option<TokenV>,
    pub cur: Option<TokenV>,
}

/// Termination measure of a parse: twice the bytes left, plus one while a
/// token is pending. Every parser step lowers it.
pub open spec fn cm(src: Seq<u8>, st: CState) -> int {
    (if 0 <= st.pos <= src.len() {
        2 * (src.len() - st.pos)
    } else {
        0
    }) + (if st.cur is Some {
        1int
    } else {
        0int
    })
}

/// Shift the token slots and scan the next token; end of input clears the
/// current slot, any other lexical error surfaces.
pub open spec fn spec_advance(src: Seq<u8>, st: CState) -> Result<CState, CompErrV> {
    let (r, ni) = spec_scan(src, st.pos);
    match r {
        Ok(t) => Ok(CState { pos: ni, prev: st.cur, cur: Some(t) }),
        Err(e) => if e == LexerError::Eof {
            Ok(CState { pos: ni, prev: st.cur, cur: None })
        } else {
            Err(CompErrV::FromLexer(e))
        },
    }
}

/// Demand that the current token is `target` and advance past it, else fail
/// with `err`.
pub open spec fn spec_consume(
    src: Seq<u8>,
    st: CState,
    target: TokenV,
    err: CompErrV,
) -> Result<CState, CompErrV> {
    match st.cur {
        Some(t) => if t == target {
            spec_advance(src, st)
        } else {
            Err(err)
        },
        None => Err(err),
    }
}

/// The bytes emitted for one number literal: the compact form for a small
/// integer, the tabulated eight-byte word otherwise. A malformed literal, or
/// one the table does not know, is rejected.
pub open spec fn spec_emit_number(d: Seq<u8>, table: Seq<(Seq<u8>, u64)>) -> Result<
    Seq<u8>,
    CompErrV,
> {
    match spec_classify(d) {
        NumClass::Malformed => Err(CompErrV::InvalidNumber(d)),
        NumClass::Small(n) => Ok(seq![8u8, n]),
        NumClass::Big => match spec_lookup(table, d) {
            Some(bits) => Ok(seq![0u8] + spec_le_bytes(bits)),
            None => Err(CompErrV::InvalidNumber(d)),
        },
    }
}

/// The error used on the never-taken branches of the mirror's forward-motion
/// guards: real parses only move forward, and `Eof` never leaves the lexer
/// wrapped.
pub open spec fn spec_stuck() -> CompErrV {
    CompErrV::FromLexer(LexerError::Eof)
}

/// One parse at priority `pri` and above: a prefix production, then the
/// climb loop.
pub open spec fn spec_expression(
    src: Seq<u8>,
    table: Seq<(Seq<u8>, u64)>,
    st: CState,
    pri: Priority,
) -> Result<(CState, Seq<u8>), CompErrV>
    decreases cm(src, st), 0int, 0int,
{
    match spec_advance(src, st) {
        Err(e) => Err(e),
        Ok(st1) => {
            let prefix: Result<(CState, Seq<u8>), CompErrV> = match st1.prev {
                None => Ok((st1, Seq::<u8>::empty())),
                Some(TokenV::Minus) => if cm(src, st1) < cm(src, st) {
                    spec_emit_unary(src, table, st1)
                } else {
                    Err(spec_stuck())
                },
                Some(TokenV::Number(d)) => match spec_emit_number(d, table) {
                    Ok(b) => Ok((st1, b)),
                    Err(e) => Err(e),
                },
                Some(TokenV::LeftParen) => if cm(src, st1) < cm(src, st) {
                    spec_parse_group(src, table, st1)
                } else {
                    Err(spec_stuck())
                },
                Some(TokenV::Func(f)) => if cm(src, st1) < cm(src, st) {
                    spec_parse_fn(src, table, st1, f)
                } else {
                    Err(spec_stuck())
                },
                Some(TokenV::Ans) => Ok((st1, seq![7u8])),
                Some(t) => Err(CompErrV::InvalidTokenBefore { prev: t, current: st1.cur }),
            };
            match prefix {
                Err(e) => Err(e),
                Ok((st2, e1)) => if cm(src, st2) < cm(src, st) {
                    match spec_expr_loop(src, table, st2, pri) {
                        Err(e) => Err(e),
                        Ok((st3, e2)) => Ok((st3, e1 + e2)),
                    }
                } else {
                    Ok((st2, e1))
                },
            }
        },
    }
}

/// The climb loop: while a token of priority at least `pri` is pending,
/// parse one infix production.
pub open spec fn spec_expr_loop(
    src: Seq<u8>,
    table: Seq<(Seq<u8>, u64)>,
    st: CState,
    pri: Priority,
) -> Result<(CState, Seq<u8>), CompErrV>
    decreases cm(src, st), 0int, 0int,
{
    match st.cur {
        None => Ok((st, Seq::<u8>::empty())),
        Some(cur_tok) => if spec_priority(cur_tok).spec_level() >= pri.spec_level() {
            match spec_advance(src, st) {
                Err(e) => Err(e),
                Ok(st1) => {
                    let one: Result<(CState, Seq<u8>), CompErrV> = match st1.prev {
                        None => Ok((st1, Seq::<u8>::empty())),
                        Some(t) => if t == TokenV::Div || t == TokenV::Plus || t == TokenV::Mult
                            || t == TokenV::Minus {
                            if cm(src, st1) < cm(src, st) {
                                spec_parse_binary(src, table, st1, t)
                            } else {
                                Err(spec_stuck())
                            }
                        } else {
                            Err(CompErrV::InvalidToken(t))
                        },
                    };
                    match one {
                        Err(e) => Err(e),
                        Ok((st2, e1)) => if cm(src, st2) < cm(src, st) {
                            match spec_expr_loop(src, table, st2, pri) {
                                Err(e) => Err(e),
                                Ok((st3, e2)) => Ok((st3, e1 + e2)),
                            }
                        } else {
                            Ok((st2, e1))
                        },
                    }
                },
            }
        } else {
            Ok((st, Seq::<u8>::empty()))
        },
    }
}

/// One infix production for the binary operator `t`: the right operand one
/// rung higher, then the operator's opcode.
pub open spec fn spec_parse_binary(
    src: Seq<u8>,
    table: Seq<(Seq<u8>, u64)>,
    st: CState,
    t: TokenV,
) -> Result<(CState, Seq<u8>), CompErrV>
    decreases cm(src, st), 1int, 0int,
{
    match spec_expression(src, table, st, spec_priority(t).spec_next()) {
        Err(e) => Err(e),
        Ok((st1, e1)) => match t {
            TokenV::Minus => Ok((st1, e1 + seq![2u8])),
            TokenV::Plus => Ok((st1, e1 + seq![1u8])),
            TokenV::Div => Ok((st1, e1 + seq![4u8])),
            TokenV::Mult => Ok((st1, e1 + seq![3u8])),
            _ => Err(CompErrV::InvalidToken(t)),
        },
    }
}

/// A parenthesised group: a full expression, then the closing parenthesis.
pub open spec fn spec_parse_group(
    src: Seq<u8>,
    table: Seq<(Seq<u8>, u64)>,
    st: CState,
) -> Result<(CState, Seq<u8>), CompErrV>
    decreases cm(src, st), 1int, 0int,
{
    match spec_expression(src, table, st, Priority::Term) {
        Err(e) => Err(e),
        Ok((st1, e1)) => match spec_consume(
            src,
            st1,
            TokenV::RightParen,
            CompErrV::UnterminedGroup,
        ) {
            Err(e) => Err(e),
            Ok(st2) => Ok((st2, e1)),
        },
    }
}

/// The `n + 1` comma-separated operands of a function call.
pub open spec fn spec_fn_args(
    src: Seq<u8>,
    table: Seq<(Seq<u8>, u64)>,
    st: CState,
    n: nat,
) -> Result<(CState, Seq<u8>), CompErrV>
    decreases cm(src, st), 1int, n,
{
    if n == 0 {
        spec_expression(src, table, st, Priority::Term)
    } else {
        match spec_expression(src, table, st, Priority::Term) {
            Err(e) => Err(e),
            Ok((st1, e1)) => match spec_consume(
                src,
                st1,
                TokenV::Comma,
                CompErrV::MissingCommaInFunctionCall,
            ) {
                Err(e) => Err(e),
                Ok(st2) => if cm(src, st2) <= cm(src, st) {
                    match spec_fn_args(src, table, st2, (n - 1) as nat) {
                        Err(e) => Err(e),
                        Ok((st3, e2)) => Ok((st3, e1 + e2)),
                    }
                } else {
                    Err(spec_stuck())
                },
            },
        }
    }
}

/// A function call: the opening parenthesis, the operands, the closing
/// parenthesis, then the function opcode and its one-byte code.
pub open spec fn spec_parse_fn(
    src: Seq<u8>,
    table: Seq<(Seq<u8>, u64)>,
    st: CState,
    f: FuncType,
) -> Result<(CState, Seq<u8>), CompErrV>
    decreases cm(src, st), 1int, 0int,
{
    match spec_consume(src, st, TokenV::LeftParen, CompErrV::MissingFunctionParen) {
        Err(e) => Err(e),
        Ok(st1) => if cm(src, st1) < cm(src, st) {
            match spec_fn_args(src, table, st1, (f.spec_arity() - 1) as nat) {
                Err(e) => Err(e),
                Ok((st2, e1)) => match spec_consume(
                    src,
                    st2,
                    TokenV::RightParen,
                    CompErrV::MissingFunctionParen,
                ) {
                    Err(e) => Err(e),
                    Ok(st3) => Ok((st3, e1 + seq![6u8, f.spec_code()])),
                },
            }
        } else {
            Err(spec_stuck())
        },
    }
}

/// The unary minus: its operand at `Unary` priority, then `Negate`.
pub open spec fn spec_emit_unary(
    src: Seq<u8>,
    table: Seq<(Seq<u8>, u64)>,
    st: CState,
) -> Result<(CState, Seq<u8>), CompErrV>
    decreases cm(src, st), 1int, 0int,
{
    match spec_expression(src, table, st, Priority::Unary) {
        Err(e) => Err(e),
        Ok((st1, e1)) => Ok((st1, e1 + seq![5u8])),
    }
}

/// A whole compilation from cursor `pos`: one expression at `Term`, and no
/// token may be left over. Returns the final state and everything emitted.
pub open spec fn spec_compile(
    src: Seq<u8>,
    table: Seq<(Seq<u8>, u64)>,
    pos: int,
) -> Result<(CState, Seq<u8>), CompErrV> {
    let st0 = CState { pos, prev: None, cur: None };
    match spec_advance(src, st0) {
        Err(e) => Err(e),
        Ok(st1) => match spec_expression(src, table, st1, Priority::Term) {
            Err(e) => Err(e),
            Ok((st2, e)) => match st2.cur {
                Some(t) => Err(CompErrV::InvalidToken(t)),
                None => Ok((st2, e)),
            },
        },
    }
}


/// View of an optional token.
pub open spec fn opt_tok_view<'a>(t: Option<Token<'a>>) -> Option<TokenV> {
    match t {
        Some(x) => Some(x@),
        None => None,
    }
}

/// The compiler: the two token slots and the growing bytecode buffer,
/// reused across compilations.
pub struct Compiler<'a> {
    prev_token: Option<Token<'a>>,
    current_token: Option<Token<'a>>,
    chunk: Vec<u8>,
}

/// The mirror state that a compiler and its lexer stand in.
pub open spec fn st_of<'a>(c: Compiler<'a>, l: Lexer<'a>) -> CState {
    CState { pos: l.pos(), prev: c.spec_prev(), cur: c.spec_cur() }
}

/// Owned snapshot of a token.
fn to_owned_token(t: &Token<'_>) -> (o: OwnedToken)
    ensures
        o@ == t@,
{
    match t {
        Token::Number(d) => OwnedToken::Number(slice_to_vec(d)),
        Token::LeftParen => OwnedToken::LeftParen,
        Token::RightParen => OwnedToken::RightParen,
        Token::Plus => OwnedToken::Plus,
        Token::Minus => OwnedToken::Minus,
        Token::Mult => OwnedToken::Mult,
        Token::Div => OwnedToken::Div,
        Token::Func(f) => OwnedToken::Func(*f),
        Token::Comma => OwnedToken::Comma,
        Token::Ans => OwnedToken::Ans,
    }
}

/// Token equality, payload included.
fn token_eq(a: &Token<'_>, b: &Token<'_>) -> (r: bool)
    ensures
        r == (a@ == b@),
{
    match (a, b) {
        (Token::Number(x), Token::Number(y)) => bytes_eq(x, y),
        (Token::LeftParen, Token::LeftParen) => true,
        (Token::RightParen, Token::RightParen) => true,
        (Token::Plus, Token::Plus) => true,
        (Token::Minus, Token::Minus) => true,
        (Token::Mult, Token::Mult) => true,
        (Token::Div, Token::Div) => true,
        (Token::Func(f), Token::Func(g)) => f == g,
        (Token::Comma, Token::Comma) => true,
        (Token::Ans, Token::Ans) => true,
        _ => false,
    }
}

/// Starting capacity of the bytecode buffer.
const INITIAL_CHUNK_SIZE: usize = 100;

impl<'a> Default for Compiler<'a> {
    fn default() -> (c: Self)
        ensures
            c.spec_chunk() == Seq::<u8>::empty(),
            c.spec_prev() is None,
            c.spec_cur() is None,
    {
        Compiler {
            chunk: Vec::with_capacity(INITIAL_CHUNK_SIZE),
            prev_token: None,
            current_token: None,
        }
    }
}

impl<'a> Compiler<'a> {
    pub closed spec fn spec_prev(&self) -> Option<TokenV> {
        opt_tok_view(self.prev_token)
    }

    pub closed spec fn spec_cur(&self) -> Option<TokenV> {
        opt_tok_view(self.current_token)
    }

    pub closed spec fn spec_chunk(&self) -> Seq<u8> {
        self.chunk@
    }

    /// The bytecode emitted so far.
    pub fn opcodes(&self) -> (r: &[u8])
        ensures
            r@ == self.spec_chunk(),
    {
        self.chunk.as_slice()
    }

    /// Clear the buffer and the token slots; capacity is kept.
    pub fn reset(&mut self)
        ensures
            final(self).spec_chunk() == Seq::<u8>::empty(),
            final(self).spec_prev() is None,
            final(self).spec_cur() is None,
    {
        self.chunk.clear();
        self.prev_token = None;
        self.current_token = None;
    }

    /// Shift the token slots and scan; the end of input clears the current
    /// slot, any other lexical error surfaces.
    fn advance(&mut self, lexer: &mut Lexer<'a>) -> (r: Result<(), Error>)
        requires
            old(lexer).wf(),
        ensures
            final(lexer).spec_src() == old(lexer).spec_src(),
            final(lexer).wf(),
            final(self).spec_chunk() == old(self).spec_chunk(),
            match spec_advance(old(lexer).spec_src(), st_of(*old(self), *old(lexer))) {
                Ok(st1) => {
                    let src = old(lexer).spec_src();
                    &&& r is Ok
                    &&& st_of(*final(self), *final(lexer)) == st1
                    &&& cm(src, st1) <= cm(src, st_of(*old(self), *old(lexer)))
                    &&& (old(self).spec_cur() is Some ==> cm(src, st1) < cm(
                        src,
                        st_of(*old(self), *old(lexer)),
                    ))
                    &&& (st1.cur is Some ==> cm(src, st1) < cm(
                        src,
                        st_of(*old(self), *old(lexer)),
                    ))
                },
                Err(e) => r matches Err(x) && x@ == e,
            },
    {
        proof {
            lemma_scan_bounds(old(lexer).spec_src(), old(lexer).pos());
        }
        self.prev_token = self.current_token;
        let tok = lexer.scan();
        match tok {
            Ok(t) => {
                self.current_token = Some(t);
                Ok(())
            },
            Err(e) => {
                self.current_token = None;
                if matches!(e, LexerError::Eof) {
                    Ok(())
                } else {
                    Err(Error::FromLexer(e))
                }
            },
        }
    }

    /// Demand the current token and advance past it, else fail with `err`.
    fn consume(&mut self, lexer: &mut Lexer<'a>, target: Token<'a>, err: Error) -> (r: Result<
        (),
        Error,
    >)
        requires
            old(lexer).wf(),
        ensures
            final(lexer).spec_src() == old(lexer).spec_src(),
            final(lexer).wf(),
            final(self).spec_chunk() == old(self).spec_chunk(),
            match spec_consume(
                old(lexer).spec_src(),
                st_of(*old(self), *old(lexer)),
                target@,
                err@,
            ) {
                Ok(st1) => {
                    let src = old(lexer).spec_src();
                    &&& r is Ok
                    &&& st_of(*final(self), *final(lexer)) == st1
                    &&& cm(src, st1) < cm(src, st_of(*old(self), *old(lexer)))
                },
                Err(e) => r matches Err(x) && x@ == e,
            },
    {
        let matched: bool = match &self.current_token {
            Some(tok) => token_eq(tok, &target),
            None => false,
        };
        if matched {
            self.advance(lexer)
        } else {
            Err(err)
        }
    }

    /// Emit the bytes of one number literal.
    fn emit_number(&mut self, digits: &[u8], numbers: &NumberTable) -> (r: Result<(), Error>)
        ensures
            final(self).spec_prev() == old(self).spec_prev(),
            final(self).spec_cur() == old(self).spec_cur(),
            match spec_emit_number(digits@, numbers@) {
                Ok(bytes) => r is Ok && final(self).spec_chunk() == old(self).spec_chunk()
                    + bytes,
                Err(e) => r matches Err(x) && x@ == e
                    && final(self).spec_chunk() == old(self).spec_chunk(),
            },
    {
        match classify(digits) {
            NumClass::Malformed => Err(Error::InvalidNumber(slice_to_vec(digits))),
            NumClass::Small(n) => {
                self.chunk.push(8);
                self.chunk.push(n);
                proof {
                    assert(self.spec_chunk() =~= old(self).spec_chunk() + seq![8u8, n]);
                }
                Ok(())
            },
            NumClass::Big => match numbers.lookup(digits) {
                Some(bits) => {
                    self.chunk.push(0);
                    push_le_bytes(&mut self.chunk, bits);
                    proof {
                        assert(self.spec_chunk() =~= old(self).spec_chunk() + (seq![0u8]
                            + spec_le_bytes(bits)));
                    }
                    Ok(())
                },
                None => Err(Error::InvalidNumber(slice_to_vec(digits))),
            },
        }
    }
}


impl<'a> Compiler<'a> {
    /// One parse at priority `priority` and above: the prefix production,
    /// then the climb loop over pending infix operators.
    #[verifier::rlimit(100)]
    #[verifier::spinoff_prover]
    fn expression(
        &mut self,
        lexer: &mut Lexer<'a>,
        numbers: &NumberTable,
        priority: Priority,
    ) -> (r: Result<(), Error>)
        requires
            old(lexer).wf(),
        ensures
            final(lexer).spec_src() == old(lexer).spec_src(),
            final(lexer).wf(),
            match spec_expression(
                old(lexer).spec_src(),
                numbers@,
                st_of(*old(self), *old(lexer)),
                priority,
            ) {
                Ok((st1, e)) => {
                    let src = old(lexer).spec_src();
                    &&& r is Ok
                    &&& st_of(*final(self), *final(lexer)) == st1
                    &&& final(self).spec_chunk() == old(self).spec_chunk() + e
                    &&& cm(src, st1) <= cm(src, st_of(*old(self), *old(lexer)))
                    &&& (st1.cur is Some ==> cm(src, st1) < cm(
                        src,
                        st_of(*old(self), *old(lexer)),
                    ))
                },
                Err(er) => r matches Err(x) && x@ == er && old(self).spec_chunk().is_prefix_of(
                    final(self).spec_chunk(),
                ),
            },
        decreases cm(old(lexer).spec_src(), st_of(*old(self), *old(lexer))), 0int, 0int,
    {
        let ghost src = old(lexer).spec_src();
        let ghost st0 = st_of(*old(self), *old(lexer));
        let ghost chunk0 = old(self).spec_chunk();

        if let Err(e) = self.advance(lexer) {
            return Err(e);
        }
        let ghost st1 = st_of(*self, *lexer);

        let prefix_r: Result<(), Error> = match self.prev_token {
            None => Ok(()),
            Some(Token::Minus) => self.emit_unary(lexer, numbers),
            Some(Token::Number(num_str)) => self.emit_number(num_str, numbers),
            Some(Token::LeftParen) => self.parse_group(lexer, numbers),
            Some(Token::Func(func_type)) => self.parse_fn(lexer, numbers, func_type),
            Some(Token::Ans) => {
                self.chunk.push(7);
                proof {
                    assert(self.spec_chunk() =~= chunk0 + seq![7u8]);
                }
                Ok(())
            },
            Some(t) => {
                let cur_owned: Option<OwnedToken> = match &self.current_token {
                    Some(c) => Some(to_owned_token(c)),
                    None => None,
                };
                Err(Error::InvalidTokenBefore { prev: to_owned_token(&t), current: cur_owned })
            },
        };
        if let Err(e) = prefix_r {
            proof {
                assert(chunk0.is_prefix_of(self.spec_chunk()));
            }
            return Err(e);
        }
        let ghost st2 = st_of(*self, *lexer);
        let ghost e1 = self.spec_chunk().skip(chunk0.len() as int);
        proof {
            assert(self.spec_chunk() =~= chunk0 + e1);
        }

        if self.current_token.is_some() {
            proof {
                // A pending token means the prefix moved the parse forward.
                assert(cm(src, st2) < cm(src, st0));
            }
            if let Err(e) = self.climb(lexer, numbers, priority) {
                return Err(e);
            }
            proof {
                match spec_expr_loop(src, numbers@, st2, priority) {
                    Ok((sf, e2)) => {
                        assert(self.spec_chunk() =~= chunk0 + (e1 + e2));
                    },
                    Err(_) => {
                        assert(false);
                    },
                }
            }
        } else {
            proof {
                assert(spec_expr_loop(src, numbers@, st2, priority) == Ok::<
                    (CState, Seq<u8>),
                    CompErrV,
                >((st2, Seq::<u8>::empty())));
                assert(self.spec_chunk() =~= chunk0 + (e1 + Seq::<u8>::empty()));
                assert(self.spec_chunk() =~= chunk0 + e1);
            }
        }
        Ok(())
    }

    /// The climb loop: while a token of priority at least `priority` is
    /// pending, parse one infix production.
    #[verifier::loop_isolation(false)]
    #[verifier::rlimit(100)]
    #[verifier::spinoff_prover]
    fn climb(
        &mut self,
        lexer: &mut Lexer<'a>,
        numbers: &NumberTable,
        priority: Priority,
    ) -> (r: Result<(), Error>)
        requires
            old(lexer).wf(),
        ensures
            final(lexer).spec_src() == old(lexer).spec_src(),
            final(lexer).wf(),
            match spec_expr_loop(
                old(lexer).spec_src(),
                numbers@,
                st_of(*old(self), *old(lexer)),
                priority,
            ) {
                Ok((st1, e)) => {
                    let src = old(lexer).spec_src();
                    &&& r is Ok
                    &&& st_of(*final(self), *final(lexer)) == st1
                    &&& final(self).spec_chunk() == old(self).spec_chunk() + e
                    &&& cm(src, st1) <= cm(src, st_of(*old(self), *old(lexer)))
                    &&& (st1 == st_of(*old(self), *old(lexer)) || cm(src, st1) < cm(
                        src,
                        st_of(*old(self), *old(lexer)),
                    ))
                },
                Err(er) => r matches Err(x) && x@ == er && old(self).spec_chunk().is_prefix_of(
                    final(self).spec_chunk(),
                ),
            },
        decreases cm(old(lexer).spec_src(), st_of(*old(self), *old(lexer))), 1int, 0int,
    {
        let ghost src = old(lexer).spec_src();
        let ghost st2 = st_of(*old(self), *old(lexer));
        let ghost chunk2 = old(self).spec_chunk();
        let ghost mut acc: Seq<u8> = Seq::<u8>::empty();
        proof {
            assert(self.spec_chunk() =~= chunk2 + acc);
        }

        loop
            invariant
                lexer.wf(),
                lexer.spec_src() == src,
                self.spec_chunk() == chunk2 + acc,
                cm(src, st_of(*self, *lexer)) <= cm(src, st2),
                (st_of(*self, *lexer) == st2 && acc == Seq::<u8>::empty()) || cm(
                    src,
                    st_of(*self, *lexer),
                ) < cm(src, st2),
                spec_expr_loop(src, numbers@, st2, priority) == (match spec_expr_loop(
                    src,
                    numbers@,
                    st_of(*self, *lexer),
                    priority,
                ) {
                    Ok((sf, e)) => Ok::<(CState, Seq<u8>), CompErrV>((sf, acc + e)),
                    Err(x) => Err::<(CState, Seq<u8>), CompErrV>(x),
                }),
            decreases cm(src, st_of(*self, *lexer)),
        {
            let go: bool = match &self.current_token {
                Some(t) => t.priority().at_least(&priority),
                None => false,
            };
            if !go {
                proof {
                    assert(acc + Seq::<u8>::empty() =~= acc);
                }
                break;
            }
            let ghost stl = st_of(*self, *lexer);
            let ghost acc_old = acc;
            if let Err(e) = self.advance(lexer) {
                return Err(e);
            }
            let ghost prev_op = self.prev_token;
            let one_r: Result<(), Error> = match self.prev_token {
                None => Ok(()),
                Some(t) => {
                    if matches!(t, Token::Div | Token::Plus | Token::Mult | Token::Minus) {
                        self.parse_binary(lexer, numbers, t)
                    } else {
                        Err(Error::InvalidToken(to_owned_token(&t)))
                    }
                },
            };
            match one_r {
                Err(e) => {
                    return Err(e);
                },
                Ok(()) => {
                    proof {
                        match spec_advance(src, stl) {
                            Ok(st1l) => {
                                match prev_op {
                                    Some(t) => {
                                        assert(cm(src, st1l) < cm(src, stl));
                                        match spec_parse_binary(src, numbers@, st1l, t@) {
                                            Ok((s2l, e1l)) => {
                                                assert(cm(src, s2l) <= cm(src, st1l));
                                                assert(cm(src, s2l) < cm(src, stl));
                                                acc = acc_old + e1l;
                                                assert(self.spec_chunk() =~= chunk2 + acc);
                                                match spec_expr_loop(
                                                    src,
                                                    numbers@,
                                                    s2l,
                                                    priority,
                                                ) {
                                                    Ok((sf, e2)) => {
                                                        assert(acc + e2 =~= acc_old + (e1l
                                                            + e2));
                                                    },
                                                    Err(_) => {},
                                                }
                                            },
                                            Err(_) => {
                                                assert(false);
                                            },
                                        }
                                    },
                                    None => {
                                        assert(false);
                                    },
                                }
                            },
                            Err(_) => {
                                assert(false);
                            },
                        }
                    }
                },
            }
        }
        Ok(())
    }

    /// One infix production for the binary operator `tok`: the right
    /// operand one rung higher, then the operator's opcode.
    fn parse_binary(
        &mut self,
        lexer: &mut Lexer<'a>,
        numbers: &NumberTable,
        tok: Token<'a>,
    ) -> (r: Result<(), Error>)
        requires
            old(lexer).wf(),
        ensures
            final(lexer).spec_src() == old(lexer).spec_src(),
            final(lexer).wf(),
            match spec_parse_binary(
                old(lexer).spec_src(),
                numbers@,
                st_of(*old(self), *old(lexer)),
                tok@,
            ) {
                Ok((st1, e)) => {
                    let src = old(lexer).spec_src();
                    &&& r is Ok
                    &&& st_of(*final(self), *final(lexer)) == st1
                    &&& final(self).spec_chunk() == old(self).spec_chunk() + e
                    &&& cm(src, st1) <= cm(src, st_of(*old(self), *old(lexer)))
                    &&& (st1.cur is Some ==> cm(src, st1) < cm(
                        src,
                        st_of(*old(self), *old(lexer)),
                    ))
                },
                Err(er) => r matches Err(x) && x@ == er && old(self).spec_chunk().is_prefix_of(
                    final(self).spec_chunk(),
                ),
            },
        decreases cm(old(lexer).spec_src(), st_of(*old(self), *old(lexer))), 1int, 0int,
    {
        let ghost chunk0 = old(self).spec_chunk();
        let next_pri = tok.priority().next();
        if let Err(e) = self.expression(lexer, numbers, next_pri) {
            return Err(e);
        }
        let ghost eexp = self.spec_chunk().skip(chunk0.len() as int);
        proof {
            assert(self.spec_chunk() =~= chunk0 + eexp);
        }
        match tok {
            Token::Minus => {
                self.chunk.push(2);
                proof {
                    assert(self.spec_chunk() =~= chunk0 + (eexp + seq![2u8]));
                }
                Ok(())
            },
            Token::Plus => {
                self.chunk.push(1);
                proof {
                    assert(self.spec_chunk() =~= chunk0 + (eexp + seq![1u8]));
                }
                Ok(())
            },
            Token::Div => {
                self.chunk.push(4);
                proof {
                    assert(self.spec_chunk() =~= chunk0 + (eexp + seq![4u8]));
                }
                Ok(())
            },
            Token::Mult => {
                self.chunk.push(3);
                proof {
                    assert(self.spec_chunk() =~= chunk0 + (eexp + seq![3u8]));
                }
                Ok(())
            },
            t => Err(Error::InvalidToken(to_owned_token(&t))),
        }
    }

    /// A parenthesised group: a full expression, then the closing
    /// parenthesis.
    fn parse_group(&mut self, lexer: &mut Lexer<'a>, numbers: &NumberTable) -> (r: Result<
        (),
        Error,
    >)
        requires
            old(lexer).wf(),
        ensures
            final(lexer).spec_src() == old(lexer).spec_src(),
            final(lexer).wf(),
            match spec_parse_group(
                old(lexer).spec_src(),
                numbers@,
                st_of(*old(self), *old(lexer)),
            ) {
                Ok((st1, e)) => {
                    let src = old(lexer).spec_src();
                    &&& r is Ok
                    &&& st_of(*final(self), *final(lexer)) == st1
                    &&& final(self).spec_chunk() == old(self).spec_chunk() + e
                    &&& cm(src, st1) <= cm(src, st_of(*old(self), *old(lexer)))
                    &&& (st1.cur is Some ==> cm(src, st1) < cm(
                        src,
                        st_of(*old(self), *old(lexer)),
                    ))
                },
                Err(er) => r matches Err(x) && x@ == er && old(self).spec_chunk().is_prefix_of(
                    final(self).spec_chunk(),
                ),
            },
        decreases cm(old(lexer).spec_src(), st_of(*old(self), *old(lexer))), 1int, 0int,
    {
        if let Err(e) = self.expression(lexer, numbers, Priority::Term) {
            return Err(e);
        }
        if let Err(e) = self.consume(lexer, Token::RightParen, Error::UnterminedGroup) {
            return Err(e);
        }
        Ok(())
    }

    /// A function call: the opening parenthesis, the comma-separated
    /// operands, the closing parenthesis, then the function opcode.
    #[verifier::loop_isolation(false)]
    #[verifier::rlimit(100)]
    #[verifier::spinoff_prover]
    fn parse_fn(
        &mut self,
        lexer: &mut Lexer<'a>,
        numbers: &NumberTable,
        func_type: FuncType,
    ) -> (r: Result<(), Error>)
        requires
            old(lexer).wf(),
        ensures
            final(lexer).spec_src() == old(lexer).spec_src(),
            final(lexer).wf(),
            match spec_parse_fn(
                old(lexer).spec_src(),
                numbers@,
                st_of(*old(self), *old(lexer)),
                func_type,
            ) {
                Ok((st1, e)) => {
                    let src = old(lexer).spec_src();
                    &&& r is Ok
                    &&& st_of(*final(self), *final(lexer)) == st1
                    &&& final(self).spec_chunk() == old(self).spec_chunk() + e
                    &&& cm(src, st1) <= cm(src, st_of(*old(self), *old(lexer)))
                    &&& (st1.cur is Some ==> cm(src, st1) < cm(
                        src,
                        st_of(*old(self), *old(lexer)),
                    ))
                },
                Err(er) => r matches Err(x) && x@ == er && old(self).spec_chunk().is_prefix_of(
                    final(self).spec_chunk(),
                ),
            },
        decreases cm(old(lexer).spec_src(), st_of(*old(self), *old(lexer))), 1int, 0int,
    {
        let ghost src = old(lexer).spec_src();
        let ghost st0 = st_of(*old(self), *old(lexer));
        let ghost chunk0 = old(self).spec_chunk();

        if let Err(e) = self.consume(lexer, Token::LeftParen, Error::MissingFunctionParen) {
            return Err(e);
        }
        let ghost st_a = st_of(*self, *lexer);
        let ghost chunk_a = self.spec_chunk();
        let ghost n_total = (func_type.spec_arity() - 1) as nat;

        let arity: usize = func_type.arity();
        let mut idx: usize = 0;
        let ghost mut acc: Seq<u8> = Seq::<u8>::empty();
        proof {
            assert(self.spec_chunk() =~= chunk_a + acc);
        }
        while idx < arity - 1
            invariant
                lexer.wf(),
                lexer.spec_src() == src,
                arity == func_type.spec_arity(),
                0 <= idx < arity,
                chunk_a == chunk0,
                self.spec_chunk() == chunk_a + acc,
                cm(src, st_of(*self, *lexer)) <= cm(src, st_a),
                cm(src, st_a) < cm(src, st0),
                n_total == (func_type.spec_arity() - 1) as nat,
                spec_fn_args(src, numbers@, st_a, n_total) == (match spec_fn_args(
                    src,
                    numbers@,
                    st_of(*self, *lexer),
                    (n_total - idx) as nat,
                ) {
                    Ok((sf, e)) => Ok::<(CState, Seq<u8>), CompErrV>((sf, acc + e)),
                    Err(x) => Err::<(CState, Seq<u8>), CompErrV>(x),
                }),
            decreases arity - idx,
        {
            let ghost stl = st_of(*self, *lexer);
            let ghost acc_old = acc;
            if let Err(e) = self.expression(lexer, numbers, Priority::Term) {
                return Err(e);
            }
            if let Err(e) = self.consume(
                lexer,
                Token::Comma,
                Error::MissingCommaInFunctionCall,
            ) {
                return Err(e);
            }
            proof {
                let m = (n_total - idx) as nat;
                match spec_expression(src, numbers@, stl, Priority::Term) {
                    Ok((s_e, e_e)) => {
                        match spec_consume(
                            src,
                            s_e,
                            TokenV::Comma,
                            CompErrV::MissingCommaInFunctionCall,
                        ) {
                            Ok(s_c) => {
                                assert(cm(src, s_c) <= cm(src, stl));
                                acc = acc_old + e_e;
                                assert(self.spec_chunk() =~= chunk_a + acc);
                                match spec_fn_args(src, numbers@, s_c, (m - 1) as nat) {
                                    Ok((sf, e2)) => {
                                        assert(acc + e2 =~= acc_old + (e_e + e2));
                                    },
                                    Err(_) => {},
                                }
                            },
                            Err(_) => {
                                assert(false);
                            },
                        }
                    },
                    Err(_) => {
                        assert(false);
                    },
                }
            }
            idx += 1;
        }
        let ghost stl = st_of(*self, *lexer);
        if let Err(e) = self.expression(lexer, numbers, Priority::Term) {
            return Err(e);
        }
        proof {
            acc = self.spec_chunk().skip(chunk_a.len() as int);
            assert(self.spec_chunk() =~= chunk_a + acc);
        }
        if let Err(e) = self.consume(lexer, Token::RightParen, Error::MissingFunctionParen) {
            return Err(e);
        }
        self.chunk.push(6);
        self.chunk.push(func_type.code());
        proof {
            assert(self.spec_chunk() =~= chunk0 + (acc + seq![6u8, func_type.spec_code()]));
        }
        Ok(())
    }

    /// The unary minus: its operand at `Unary` priority, then `Negate`.
    fn emit_unary(&mut self, lexer: &mut Lexer<'a>, numbers: &NumberTable) -> (r: Result<
        (),
        Error,
    >)
        requires
            old(lexer).wf(),
        ensures
            final(lexer).spec_src() == old(lexer).spec_src(),
            final(lexer).wf(),
            match spec_emit_unary(
                old(lexer).spec_src(),
                numbers@,
                st_of(*old(self), *old(lexer)),
            ) {
                Ok((st1, e)) => {
                    let src = old(lexer).spec_src();
                    &&& r is Ok
                    &&& st_of(*final(self), *final(lexer)) == st1
                    &&& final(self).spec_chunk() == old(self).spec_chunk() + e
                    &&& cm(src, st1) <= cm(src, st_of(*old(self), *old(lexer)))
                    &&& (st1.cur is Some ==> cm(src, st1) < cm(
                        src,
                        st_of(*old(self), *old(lexer)),
                    ))
                },
                Err(er) => r matches Err(x) && x@ == er && old(self).spec_chunk().is_prefix_of(
                    final(self).spec_chunk(),
                ),
            },
        decreases cm(old(lexer).spec_src(), st_of(*old(self), *old(lexer))), 1int, 0int,
    {
        let ghost chunk0 = old(self).spec_chunk();
        if let Err(e) = self.expression(lexer, numbers, Priority::Unary) {
            return Err(e);
        }
        let ghost eexp = self.spec_chunk().skip(chunk0.len() as int);
        proof {
            assert(self.spec_chunk() =~= chunk0 + eexp);
        }
        self.chunk.push(5);
        proof {
            assert(self.spec_chunk() =~= chunk0 + (eexp + seq![5u8]));
        }
        Ok(())
    }

    /// Compile one whole expression from the lexer, appending its bytecode
    /// to the buffer. No token may be left over. The compiler must be fresh
    /// or freshly reset.
    pub fn compile(&mut self, lexer: &mut Lexer<'a>, numbers: &NumberTable) -> (r: Result<
        (),
        Error,
    >)
        requires
            old(lexer).wf(),
            old(self).spec_prev() is None,
            old(self).spec_cur() is None,
        ensures
            final(lexer).spec_src() == old(lexer).spec_src(),
            final(lexer).wf(),
            match spec_compile(old(lexer).spec_src(), numbers@, old(lexer).pos()) {
                Ok((st1, e)) => r is Ok && st_of(*final(self), *final(lexer)) == st1
                    && final(self).spec_chunk() == old(self).spec_chunk() + e,
                Err(er) => r matches Err(x) && x@ == er && old(self).spec_chunk().is_prefix_of(
                    final(self).spec_chunk(),
                ),
            },
    {
        if let Err(e) = self.advance(lexer) {
            return Err(e);
        }
        if let Err(e) = self.expression(lexer, numbers, Priority::Term) {
            return Err(e);
        }
        match &self.current_token {
            Some(t) => Err(Error::InvalidToken(to_owned_token(t))),
            None => Ok(()),
        }
    }
}

} // verus!
