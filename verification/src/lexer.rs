//! Tokenizer for the expression language: yields one token at a time from a
//! byte buffer, on demand.

use vstd::prelude::*;

verus! {

/// The five built-in functions.
#[derive(Copy, Clone, PartialEq, Eq, Structural, Debug)]
pub enum FuncType {
    Sqrt,
    Log,
    Sin,
    Cos,
    Pow,
}

impl FuncType {
    /// Number of arguments the function takes.
    pub open spec fn spec_arity(self) -> nat {
        match self {
            FuncType::Pow => 2,
            FuncType::Sqrt | FuncType::Log | FuncType::Cos | FuncType::Sin => 1,
        }
    }

    pub fn arity(&self) -> (n: usize)
        ensures
            n == self.spec_arity(),
    {
        match self {
            FuncType::Pow => 2,
            FuncType::Sqrt | FuncType::Log | FuncType::Cos | FuncType::Sin => 1,
        }
    }

    /// The one-byte code under which the function is embedded in bytecode.
    pub open spec fn spec_code(self) -> u8 {
        match self {
            FuncType::Sqrt => 0,
            FuncType::Log => 1,
            FuncType::Sin => 2,
            FuncType::Cos => 3,
            FuncType::Pow => 4,
        }
    }

    pub fn code(&self) -> (c: u8)
        ensures
            c == self.spec_code(),
    {
        match self {
            FuncType::Sqrt => 0,
            FuncType::Log => 1,
            FuncType::Sin => 2,
            FuncType::Cos => 3,
            FuncType::Pow => 4,
        }
    }

    /// Decode a one-byte function code.
    pub fn try_from(value: u8) -> (r: Result<FuncType, InvalidFuncCode>)
        ensures
            value <= 4 ==> (r matches Ok(f) && f.spec_code() == value),
            value > 4 ==> (r matches Err(e) && e.0 == value),
    {
        match value {
            0 => Ok(FuncType::Sqrt),
            1 => Ok(FuncType::Log),
            2 => Ok(FuncType::Sin),
            3 => Ok(FuncType::Cos),
            4 => Ok(FuncType::Pow),
            x => Err(InvalidFuncCode(x)),
        }
    }
}

/// Error value for a byte that names no function.
#[derive(Debug)]
pub struct InvalidFuncCode(pub u8);

/// A lexical token. `Number` borrows the raw digit slice from the source
/// buffer.
#[derive(Copy, Clone, PartialEq, Eq, Debug)]
pub enum Token<'a> {
    Number(&'a [u8]),
    LeftParen,
    RightParen,
    Plus,
    Minus,
    Mult,
    Div,
    Func(FuncType),
    Comma,
    Ans,
}

/// Mathematical image of a token: the digit payload is a byte sequence.
pub ghost enum TokenV {
    Number(Seq<u8>),
    LeftParen,
    RightParen,
    Plus,
    Minus,
    Mult,
    Div,
    Func(FuncType),
    Comma,
    Ans,
}

impl<'a> View for Token<'a> {
    type V = TokenV;

    open spec fn view(&self) -> TokenV {
        match self {
            Token::Number(d) => TokenV::Number(d@),
            Token::LeftParen => TokenV::LeftParen,
            Token::RightParen => TokenV::RightParen,
            Token::Plus => TokenV::Plus,
            Token::Minus => TokenV::Minus,
            Token::Mult => TokenV::Mult,
            Token::Div => TokenV::Div,
            Token::Func(f) => TokenV::Func(*f),
            Token::Comma => TokenV::Comma,
            Token::Ans => TokenV::Ans,
        }
    }
}

/// The precedence ladder. Adjacency on this ladder drives the
/// precedence-climbing parser.
#[derive(Copy, Clone, PartialEq, Eq, Structural, Debug)]
pub enum Priority {
    Null,
    Comma,
    Number,
    Term,
    Factor,
    Unary,
    Group,
}

impl Priority {
    /// Rank of the priority on the ladder, `Null` lowest.
    pub open spec fn spec_level(self) -> int {
        match self {
            Priority::Null => 0,
            Priority::Comma => 1,
            Priority::Number => 2,
            Priority::Term => 3,
            Priority::Factor => 4,
            Priority::Unary => 5,
            Priority::Group => 6,
        }
    }

    pub fn level(&self) -> (n: u8)
        ensures
            n as int == self.spec_level(),
    {
        match self {
            Priority::Null => 0,
            Priority::Comma => 1,
            Priority::Number => 2,
            Priority::Term => 3,
            Priority::Factor => 4,
            Priority::Unary => 5,
            Priority::Group => 6,
        }
    }

    pub open spec fn spec_next(self) -> Priority {
        match self {
            Priority::Null => Priority::Comma,
            Priority::Comma => Priority::Number,
            Priority::Number => Priority::Term,
            Priority::Term => Priority::Factor,
            Priority::Factor => Priority::Unary,
            Priority::Unary => Priority::Group,
            Priority::Group => Priority::Group,
        }
    }

    /// One rung up the ladder; `Group` is a fixed point.
    pub fn next(&self) -> (p: Priority)
        ensures
            p == self.spec_next(),
    {
        match self {
            Priority::Null => Priority::Comma,
            Priority::Comma => Priority::Number,
            Priority::Number => Priority::Term,
            Priority::Term => Priority::Factor,
            Priority::Factor => Priority::Unary,
            Priority::Unary => Priority::Group,
            Priority::Group => Priority::Group,
        }
    }

    /// Whether `self` sits at or above `other` on the ladder.
    pub fn at_least(&self, other: &Priority) -> (b: bool)
        ensures
            b == (self.spec_level() >= other.spec_level()),
    {
        self.level() >= other.level()
    }
}

/// Priority of a token, at the spec level.
pub open spec fn spec_priority(t: TokenV) -> Priority {
    match t {
        TokenV::Ans => Priority::Number,
        TokenV::Number(_) => Priority::Number,
        TokenV::Func(_) => Priority::Factor,
        TokenV::LeftParen => Priority::Group,
        TokenV::RightParen => Priority::Null,
        TokenV::Plus => Priority::Term,
        TokenV::Minus => Priority::Term,
        TokenV::Mult => Priority::Factor,
        TokenV::Div => Priority::Factor,
        TokenV::Comma => Priority::Comma,
    }
}

impl<'a> Token<'a> {
    pub fn priority(&self) -> (p: Priority)
        ensures
            p == spec_priority(self@),
    {
        match self {
            Token::Ans => Priority::Number,
            Token::Number(_) => Priority::Number,
            Token::Func(_) => Priority::Factor,
            Token::LeftParen => Priority::Group,
            Token::RightParen => Priority::Null,
            Token::Plus => Priority::Term,
            Token::Minus => Priority::Term,
            Token::Mult => Priority::Factor,
            Token::Div => Priority::Factor,
            Token::Comma => Priority::Comma,
        }
    }
}

/// Lexical errors. `Eof` is a control signal: the input is exhausted.
#[derive(Debug, Copy, Clone, PartialEq, Eq)]
pub enum Error {
    Eof,
    InvalidChar(char),
    InvalidNumberFormat(char),
}

impl Error {
    /// A stable rendering of the error kind for display.
    pub fn describe(&self) -> (r: String)
        ensures
            r@ == (match self {
                Error::Eof => "end of input"@,
                Error::InvalidChar(_) => "invalid character"@,
                Error::InvalidNumberFormat(_) => "invalid number format"@,
            }),
    {
        match self {
            Error::Eof => "end of input".to_owned(),
            Error::InvalidChar(_) => "invalid character".to_owned(),
            Error::InvalidNumberFormat(_) => "invalid number format".to_owned(),
        }
    }
}

/// ASCII whitespace, as skipped between tokens.
pub open spec fn is_ws_byte(c: u8) -> bool {
    c == 32 || c == 9 || c == 10 || c == 12 || c == 13
}

/// ASCII decimal digit.
pub open spec fn is_digit_byte(c: u8) -> bool {
    48 <= c && c <= 57
}

/// Index of the first non-whitespace byte at or after `i` (the length if
/// none).
pub open spec fn spec_skip_ws(src: Seq<u8>, i: int) -> int
    decreases src.len() - i,
{
    if i < 0 {
        i
    } else if i >= src.len() {
        src.len() as int
    } else if is_ws_byte(src[i]) {
        spec_skip_ws(src, i + 1)
    } else {
        i
    }
}

/// One step of number mode, scanning from `i` with the literal begun at
/// `begin`; `dot` and `exp` record whether a point or an exponent was seen,
/// `prev` is the previous byte of the literal. Returns the scan outcome and
/// the cursor afterwards.
pub open spec fn spec_num_loop(
    src: Seq<u8>,
    begin: int,
    i: int,
    dot: bool,
    exp: bool,
    prev: Option<u8>,
) -> (Result<TokenV, Error>, int)
    decreases src.len() - i,
{
    if i < 0 || i >= src.len() {
        (Ok(TokenV::Number(src.subrange(begin, src.len() as int))), src.len() as int)
    } else {
        let c = src[i];
        if c == 46 {  // '.'
            if dot || exp {
                (Err(Error::InvalidNumberFormat('.')), i)
            } else {
                spec_num_loop(src, begin, i + 1, true, exp, Some(c))
            }
        } else if c == 45 {  // '-'
            match prev {
                Some(p) => if p != 101 {
                    (Err(Error::InvalidNumberFormat('-')), i)
                } else {
                    spec_num_loop(src, begin, i + 1, dot, exp, Some(c))
                },
                None => spec_num_loop(src, begin, i + 1, dot, exp, Some(c)),
            }
        } else if c == 101 {  // 'e'
            if exp || (match prev {
                Some(p) => p != 46 && !is_digit_byte(p),
                None => false,
            }) {
                (Err(Error::InvalidNumberFormat('e')), i)
            } else {
                spec_num_loop(src, begin, i + 1, dot, true, Some(c))
            }
        } else if !is_digit_byte(c) {
            if (match prev {
                Some(p) => p == 101 || p == 46,
                None => false,
            }) {
                (Err(Error::InvalidNumberFormat(c as char)), i)
            } else {
                (Ok(TokenV::Number(src.subrange(begin, i))), i)
            }
        } else {
            spec_num_loop(src, begin, i + 1, dot, exp, Some(c))
        }
    }
}

/// Whether the bytes of `w` stand at index `i` of `src`.
pub open spec fn spec_word_at(src: Seq<u8>, i: int, w: Seq<u8>) -> bool {
    0 <= i && i + w.len() <= src.len() && src.subrange(i, i + w.len()) == w
}

/// Keyword dispatch for a byte that may begin a function name.
pub open spec fn spec_parse_fn(src: Seq<u8>, i: int, c: u8) -> (Result<TokenV, Error>, int) {
    if c == 115 {  // 's'
        if spec_word_at(src, i, seq![115u8, 105u8, 110u8]) {
            (Ok(TokenV::Func(FuncType::Sin)), i + 3)
        } else if spec_word_at(src, i, seq![115u8, 113u8, 114u8, 116u8]) {
            (Ok(TokenV::Func(FuncType::Sqrt)), i + 4)
        } else {
            (Err(Error::InvalidChar('s')), i)
        }
    } else if c == 99 {  // 'c'
        if spec_word_at(src, i, seq![99u8, 111u8, 115u8]) {
            (Ok(TokenV::Func(FuncType::Cos)), i + 3)
        } else {
            (Err(Error::InvalidChar('c')), i)
        }
    } else if c == 108 {  // 'l'
        if spec_word_at(src, i, seq![108u8, 111u8, 103u8]) {
            (Ok(TokenV::Func(FuncType::Log)), i + 3)
        } else {
            (Err(Error::InvalidChar('l')), i)
        }
    } else if c == 112 {  // 'p'
        if spec_word_at(src, i, seq![112u8, 111u8, 119u8]) {
            (Ok(TokenV::Func(FuncType::Pow)), i + 3)
        } else {
            (Err(Error::InvalidChar('p')), i)
        }
    } else {
        (Err(Error::InvalidChar(c as char)), i)
    }
}

/// One whole scan step from cursor `i`: the token or error, and the cursor
/// afterwards.
pub open spec fn spec_scan(src: Seq<u8>, i: int) -> (Result<TokenV, Error>, int) {
    let j = spec_skip_ws(src, i);
    if j >= src.len() {
        (Err(Error::Eof), src.len() as int)
    } else {
        let c = src[j];
        if is_digit_byte(c) {
            spec_num_loop(src, j, j, false, false, None)
        } else if c == 40 {
            (Ok(TokenV::LeftParen), j + 1)
        } else if c == 41 {
            (Ok(TokenV::RightParen), j + 1)
        } else if c == 43 {
            (Ok(TokenV::Plus), j + 1)
        } else if c == 45 {
            (Ok(TokenV::Minus), j + 1)
        } else if c == 42 {
            (Ok(TokenV::Mult), j + 1)
        } else if c == 47 {
            (Ok(TokenV::Div), j + 1)
        } else if c == 44 {
            (Ok(TokenV::Comma), j + 1)
        } else if c == 97 && spec_word_at(src, j, seq![97u8, 110u8, 115u8]) {
            (Ok(TokenV::Ans), j + 3)
        } else {
            spec_parse_fn(src, j, c)
        }
    }
}

/// Image of a scan result, with the token replaced by its view.
pub open spec fn res_view<'a>(r: Result<Token<'a>, Error>) -> Result<TokenV, Error> {
    match r {
        Ok(t) => Ok(t@),
        Err(e) => Err(e),
    }
}

/// The lexer: a borrowed source buffer and a byte cursor.
pub struct Lexer<'a> {
    src: &'a [u8],
    src_index: usize,
}

impl<'a> Lexer<'a> {
    /// The source bytes.
    pub closed spec fn spec_src(&self) -> Seq<u8> {
        self.src@
    }

    /// The cursor.
    pub closed spec fn pos(&self) -> int {
        self.src_index as int
    }

    /// The cursor never passes the end of the buffer.
    pub open spec fn wf(&self) -> bool {
        0 <= self.pos() <= self.spec_src().len()
    }

    pub fn new(src: &'a [u8]) -> (l: Lexer<'a>)
        ensures
            l.spec_src() == src@,
            l.pos() == 0,
            l.wf(),
    {
        Lexer { src, src_index: 0 }
    }

    fn advance(&mut self)
        requires
            old(self).pos() < old(self).spec_src().len(),
        ensures
            final(self).spec_src() == old(self).spec_src(),
            final(self).pos() == old(self).pos() + 1,
    {
        // Binding the length shows the bumped cursor still fits.
        let n: usize = self.src.len();
        self.src_index += 1;
    }

    fn consume_token(&mut self, t: Token<'a>, bytes: usize) -> (r: Token<'a>)
        requires
            old(self).pos() + bytes <= old(self).spec_src().len(),
        ensures
            r == t,
            final(self).spec_src() == old(self).spec_src(),
            final(self).pos() == old(self).pos() + bytes,
            final(self).wf(),
    {
        let mut k: usize = 0;
        while k < bytes
            invariant
                k <= bytes,
                self.spec_src() == old(self).spec_src(),
                self.pos() == old(self).pos() + k,
                old(self).pos() + bytes <= old(self).spec_src().len(),
            decreases bytes - k,
        {
            self.advance();
            k += 1;
        }
        t
    }

    fn peek(&self) -> (r: Option<u8>)
        ensures
            self.pos() < self.spec_src().len() ==> r == Some(self.spec_src()[self.pos()]),
            self.pos() >= self.spec_src().len() ==> r is None,
    {
        if self.src_index < self.src.len() {
            Some(self.src[self.src_index])
        } else {
            None
        }
    }

    /// Whether the three bytes stand at the cursor.
    fn word3(&self, w0: u8, w1: u8, w2: u8) -> (r: bool)
        requires
            self.wf(),
        ensures
            r == spec_word_at(self.spec_src(), self.pos(), seq![w0, w1, w2]),
    {
        if self.src.len() - self.src_index < 3 {
            return false;
        }
        let r = self.src[self.src_index] == w0 && self.src[self.src_index + 1] == w1
            && self.src[self.src_index + 2] == w2;
        proof {
            if r {
                assert(self.spec_src().subrange(self.pos(), self.pos() + 3) =~= seq![w0, w1, w2]);
            } else {
                assert(self.spec_src().subrange(self.pos(), self.pos() + 3) !~= seq![w0, w1, w2]);
            }
        }
        r
    }

    /// Whether the four bytes stand at the cursor.
    fn word4(&self, w0: u8, w1: u8, w2: u8, w3: u8) -> (r: bool)
        requires
            self.wf(),
        ensures
            r == spec_word_at(self.spec_src(), self.pos(), seq![w0, w1, w2, w3]),
    {
        if self.src.len() - self.src_index < 4 {
            return false;
        }
        let r = self.src[self.src_index] == w0 && self.src[self.src_index + 1] == w1
            && self.src[self.src_index + 2] == w2 && self.src[self.src_index + 3] == w3;
        proof {
            if r {
                assert(self.spec_src().subrange(self.pos(), self.pos() + 4) =~= seq![w0, w1, w2, w3]);
            } else {
                assert(self.spec_src().subrange(self.pos(), self.pos() + 4) !~= seq![w0, w1, w2, w3]);
            }
        }
        r
    }

    fn skip_whitespace(&mut self) -> (r: Result<u8, Error>)
        requires
            old(self).wf(),
        ensures
            final(self).spec_src() == old(self).spec_src(),
            final(self).pos() == spec_skip_ws(old(self).spec_src(), old(self).pos()),
            final(self).wf(),
            final(self).pos() < final(self).spec_src().len() ==> r == Ok::<u8, Error>(
                final(self).spec_src()[final(self).pos()],
            ),
            final(self).pos() >= final(self).spec_src().len() ==> r == Err::<u8, Error>(
                Error::Eof,
            ),
    {
        loop
            invariant
                self.wf(),
                self.spec_src() == old(self).spec_src(),
                old(self).pos() <= self.pos(),
                spec_skip_ws(self.spec_src(), old(self).pos()) == spec_skip_ws(
                    self.spec_src(),
                    self.pos(),
                ),
            decreases self.spec_src().len() - self.pos(),
        {
            match self.peek() {
                None => {
                    return Err(Error::Eof);
                },
                Some(c) => {
                    if c == 32u8 || c == 9u8 || c == 10u8 || c == 12u8 || c == 13u8 {
                        // Binding the length shows the bumped cursor fits.
                        let n: usize = self.src.len();
                        self.src_index += 1;
                    } else {
                        return Ok(self.src[self.src_index]);
                    }
                },
            }
        }
    }

    fn consume_number(&mut self) -> (r: Result<Token<'a>, Error>)
        requires
            old(self).wf(),
        ensures
            final(self).spec_src() == old(self).spec_src(),
            ({
                let (sr, ni) = spec_num_loop(
                    old(self).spec_src(),
                    old(self).pos(),
                    old(self).pos(),
                    false,
                    false,
                    None,
                );
                res_view(r) == sr && final(self).pos() == ni
            }),
            final(self).wf(),
    {
        let w: &'a [u8] = self.src;
        let begin: usize = self.src_index;
        let mut dot: bool = false;
        let mut exponent: bool = false;
        let mut prev: Option<u8> = None;

        loop
            invariant
                self.wf(),
                self.src == old(self).src,
                begin == old(self).pos(),
                w == old(self).src,
                begin <= self.pos(),
                spec_num_loop(self.spec_src(), begin as int, self.pos(), dot, exponent, prev)
                    == spec_num_loop(
                    old(self).spec_src(),
                    begin as int,
                    begin as int,
                    false,
                    false,
                    None,
                ),
            decreases self.spec_src().len() - self.pos(),
        {
            match self.peek() {
                None => {
                    return Ok(Token::Number(&w[begin..self.src_index]));
                },
                Some(c) => {
                    if c == 46u8 {
                        if dot || exponent {
                            return Err(Error::InvalidNumberFormat('.'));
                        }
                        dot = true;
                    } else if c == 45u8 {
                        let bad: bool = match prev {
                            Some(p) => p != 101u8,
                            None => false,
                        };
                        if bad {
                            return Err(Error::InvalidNumberFormat('-'));
                        }
                    } else if c == 101u8 {
                        let bad: bool = match prev {
                            Some(p) => p != 46u8 && !(48 <= p && p <= 57),
                            None => false,
                        };
                        if exponent || bad {
                            return Err(Error::InvalidNumberFormat('e'));
                        }
                        exponent = true;
                    } else if !(48 <= c && c <= 57) {
                        let bad: bool = match prev {
                            Some(p) => p == 101u8 || p == 46u8,
                            None => false,
                        };
                        if bad {
                            return Err(Error::InvalidNumberFormat(c as char));
                        }
                        return Ok(Token::Number(&w[begin..self.src_index]));
                    }
                    self.advance();
                    prev = Some(c);
                },
            }
        }
    }

    fn parse_fn(&mut self, first_ch: u8) -> (r: Result<Token<'a>, Error>)
        requires
            old(self).wf(),
        ensures
            final(self).spec_src() == old(self).spec_src(),
            ({
                let (sr, ni) = spec_parse_fn(old(self).spec_src(), old(self).pos(), first_ch);
                res_view(r) == sr && final(self).pos() == ni
            }),
            final(self).wf(),
    {
        match first_ch {
            115u8 => {
                if self.word3(115, 105, 110) {
                    return Ok(self.consume_token(Token::Func(FuncType::Sin), 3));
                }
                if self.word4(115, 113, 114, 116) {
                    return Ok(self.consume_token(Token::Func(FuncType::Sqrt), 4));
                }
                Err(Error::InvalidChar('s'))
            },
            99u8 => {
                if self.word3(99, 111, 115) {
                    return Ok(self.consume_token(Token::Func(FuncType::Cos), 3));
                }
                Err(Error::InvalidChar('c'))
            },
            108u8 => {
                if self.word3(108, 111, 103) {
                    return Ok(self.consume_token(Token::Func(FuncType::Log), 3));
                }
                Err(Error::InvalidChar('l'))
            },
            112u8 => {
                if self.word3(112, 111, 119) {
                    return Ok(self.consume_token(Token::Func(FuncType::Pow), 3));
                }
                Err(Error::InvalidChar('p'))
            },
            _ => Err(Error::InvalidChar(first_ch as char)),
        }
    }

    /// Scan one token, or report why none can be had. `Err(Eof)` signals a
    /// consumed input; any other error leaves the cursor at the offending
    /// byte.
    pub fn scan(&mut self) -> (r: Result<Token<'a>, Error>)
        requires
            old(self).wf(),
        ensures
            final(self).spec_src() == old(self).spec_src(),
            ({
                let (sr, ni) = spec_scan(old(self).spec_src(), old(self).pos());
                res_view(r) == sr && final(self).pos() == ni
            }),
            final(self).wf(),
    {
        let c = match self.skip_whitespace() {
            Ok(c) => c,
            Err(e) => {
                return Err(e);
            },
        };
        if 48 <= c && c <= 57 {
            return self.consume_number();
        }
        match c {
            40u8 => Ok(self.consume_token(Token::LeftParen, 1)),
            41u8 => Ok(self.consume_token(Token::RightParen, 1)),
            43u8 => Ok(self.consume_token(Token::Plus, 1)),
            45u8 => Ok(self.consume_token(Token::Minus, 1)),
            42u8 => Ok(self.consume_token(Token::Mult, 1)),
            47u8 => Ok(self.consume_token(Token::Div, 1)),
            44u8 => Ok(self.consume_token(Token::Comma, 1)),
            ch => {
                if ch == 97u8 && self.word3(97, 110, 115) {
                    return Ok(self.consume_token(Token::Ans, 3));
                }
                self.parse_fn(ch)
            },
        }
    }
}


/// Whitespace skipping stays within the buffer and never moves backward.
pub proof fn lemma_skip_ws_bounds(src: Seq<u8>, i: int)
    requires
        0 <= i <= src.len(),
    ensures
        i <= spec_skip_ws(src, i) <= src.len(),
    decreases src.len() - i,
{
    if i < src.len() && is_ws_byte(src[i]) {
        lemma_skip_ws_bounds(src, i + 1);
    }
}

/// Number mode stays within the buffer and never moves backward.
pub proof fn lemma_num_loop_bounds(
    src: Seq<u8>,
    begin: int,
    i: int,
    dot: bool,
    exp: bool,
    prev: Option<u8>,
)
    requires
        0 <= i <= src.len(),
    ensures
        ({
            let (r, ni) = spec_num_loop(src, begin, i, dot, exp, prev);
            &&& i <= ni <= src.len()
            &&& (r matches Err(e) ==> e is InvalidNumberFormat)
        }),
    decreases src.len() - i,
{
    if i < src.len() {
        let c = src[i];
        if c == 46 {
            if !(dot || exp) {
                lemma_num_loop_bounds(src, begin, i + 1, true, exp, Some(c));
            }
        } else if c == 45 {
            match prev {
                Some(p) => if p == 101 {
                    lemma_num_loop_bounds(src, begin, i + 1, dot, exp, Some(c));
                },
                None => {
                    lemma_num_loop_bounds(src, begin, i + 1, dot, exp, Some(c));
                },
            }
        } else if c == 101 {
            if !(exp || (match prev {
                Some(p) => p != 46 && !is_digit_byte(p),
                None => false,
            })) {
                lemma_num_loop_bounds(src, begin, i + 1, dot, true, Some(c));
            }
        } else if is_digit_byte(c) {
            lemma_num_loop_bounds(src, begin, i + 1, dot, exp, Some(c));
        }
    }
}

/// One scan stays within the buffer; a token moves the cursor strictly
/// forward, and the end of input parks it at the end.
pub proof fn lemma_scan_bounds(src: Seq<u8>, i: int)
    requires
        0 <= i <= src.len(),
    ensures
        ({
            let (r, ni) = spec_scan(src, i);
            &&& i <= ni <= src.len()
            &&& (r is Ok ==> ni > i)
            &&& (r == Err::<TokenV, Error>(Error::Eof) ==> ni == src.len())
            &&& (r is Err && r != Err::<TokenV, Error>(Error::Eof) ==> ni >= i)
        }),
{
    lemma_skip_ws_bounds(src, i);
    let j = spec_skip_ws(src, i);
    if j < src.len() {
        let c = src[j];
        if is_digit_byte(c) {
            lemma_num_loop_bounds(src, j, j + 1, false, false, Some(c));
        }
    }
}

} // verus!
