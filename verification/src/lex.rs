use crate::text::{number, push_char, push_number};
use vstd::prelude::*;
use vstd::string::*;
use vstd::utf8::encode_utf8;

verus! {

/// The kinds of token a source text is made of.
#[derive(Debug, Clone, Copy, PartialEq, Eq, Structural)]
pub enum TokenType {
    /// `+`
    Increment,
    /// `-`
    Decrement,
    /// `>`
    MoveRight,
    /// `<`
    MoveLeft,
    /// `[`
    LoopStart,
    /// `]`
    LoopEnd,
    /// `.`
    Print,
    /// `,`
    Read,
    /// End of the source text.
    Eof,
}

/// One token with the place it was read at: the byte offset into the source
/// and the line and column, both counted from 1.
#[derive(Debug, Clone, Copy, PartialEq, Eq, Structural)]
pub struct Token {
    pub token_type: TokenType,
    pub pos: usize,
    pub line: usize,
    pub col: usize,
}

impl Token {
    pub fn new(token_type: TokenType, pos: usize, line: usize, col: usize) -> (token: Token)
        ensures
            token == (Token { token_type, pos, line, col }),
    {
        Token { token_type, pos, line, col }
    }

    pub fn token_type(&self) -> (kind: TokenType)
        ensures
            kind == self.token_type,
    {
        self.token_type
    }

    pub fn pos(&self) -> (pos: usize)
        ensures
            pos == self.pos,
    {
        self.pos
    }

    pub fn line(&self) -> (line: usize)
        ensures
            line == self.line,
    {
        self.line
    }

    pub fn col(&self) -> (col: usize)
        ensures
            col == self.col,
    {
        self.col
    }
}

/// Why a source text could not be turned into tokens.
#[derive(Debug, Clone, Copy, PartialEq, Eq, Structural)]
pub enum LexError {
    /// A byte outside comments that is neither a command nor white space.
    UnexpectedChar { ch: u8, line: usize, col: usize },
}

/// The text of a lexical error, with the offending byte shown as the
/// character of that code.
pub open spec fn lex_message(e: LexError) -> Seq<char> {
    match e {
        LexError::UnexpectedChar { ch, line, col } => "Unexpected character `"@.push(ch as char)
            + "` at col "@ + number(col) + " on line "@ + number(line),
    }
}

impl LexError {
    /// The error as a line of text for the user.
    pub fn message(&self) -> (text: String)
        ensures
            text@ == lex_message(*self),
    {
        match self {
            LexError::UnexpectedChar { ch, line, col } => {
                let mut text = "Unexpected character `".to_owned();
                push_char(&mut text, *ch as char);
                text.append("` at col ");
                push_number(&mut text, *col);
                text.append(" on line ");
                push_number(&mut text, *line);
                text
            },
        }
    }
}

/// The bytes the lexer knows, by their ASCII codes.
pub const PLUS: u8 = 43;

pub const MINUS: u8 = 45;

pub const GREATER: u8 = 62;

pub const LESS: u8 = 60;

pub const OPEN: u8 = 91;

pub const CLOSE: u8 = 93;

pub const DOT: u8 = 46;

pub const COMMA: u8 = 44;

pub const SLASH: u8 = 47;

pub const SPACE: u8 = 32;

pub const TAB: u8 = 9;

pub const RETURN: u8 = 13;

pub const NEWLINE: u8 = 10;

/// The byte that closes the lexer's buffer. It is no part of the language, so
/// looking one byte ahead of the last byte of the text finds nothing.
pub const SENTINEL: u8 = 0;

/// The command a byte stands for, if it is one of the eight command characters.
pub open spec fn command_of(b: u8) -> Option<TokenType> {
    if b == PLUS {
        Some(TokenType::Increment)
    } else if b == MINUS {
        Some(TokenType::Decrement)
    } else if b == GREATER {
        Some(TokenType::MoveRight)
    } else if b == LESS {
        Some(TokenType::MoveLeft)
    } else if b == OPEN {
        Some(TokenType::LoopStart)
    } else if b == CLOSE {
        Some(TokenType::LoopEnd)
    } else if b == DOT {
        Some(TokenType::Print)
    } else if b == COMMA {
        Some(TokenType::Read)
    } else {
        None
    }
}

/// Space, tab, carriage return and newline.
pub open spec fn is_blank(b: u8) -> bool {
    b == SPACE || b == TAB || b == RETURN || b == NEWLINE
}

/// Two slashes stand at `p` and `p + 1`.
pub open spec fn pair_at(s: Seq<u8>, p: int) -> bool {
    0 <= p && p + 1 < s.len() && s[p] == SLASH && s[p + 1] == SLASH
}

/// A comment that began earlier on its line reaches position `p`.
pub open spec fn comment_open(s: Seq<u8>, p: int) -> bool
    decreases p,
{
    if p <= 0 || p > s.len() {
        false
    } else {
        s[p - 1] != NEWLINE && (pair_at(s, p - 1) || comment_open(s, p - 1))
    }
}

/// The byte at `p` belongs to a comment: it is the first slash of `//`, or
/// follows one on the same line.
pub open spec fn in_comment(s: Seq<u8>, p: int) -> bool {
    pair_at(s, p) || comment_open(s, p)
}

/// The byte at `p` is a command character outside comments.
pub open spec fn meaningful(s: Seq<u8>, p: int) -> bool {
    0 <= p < s.len() && !in_comment(s, p) && command_of(s[p]) is Some
}

/// The byte at `p` is outside comments and neither a command nor white space.
pub open spec fn offending(s: Seq<u8>, p: int) -> bool {
    0 <= p < s.len() && !in_comment(s, p) && command_of(s[p]) is None && !is_blank(s[p])
}

/// No byte in `[from, to)` is offending.
pub open spec fn clean_between(s: Seq<u8>, from: int, to: int) -> bool {
    forall|q: int| from <= q < to ==> !offending(s, q)
}

/// The line of position `p`: one more than the number of newlines before it.
pub open spec fn line_of(s: Seq<u8>, p: int) -> int
    decreases p,
{
    if p <= 0 || p > s.len() {
        1
    } else if s[p - 1] == NEWLINE {
        line_of(s, p - 1) + 1
    } else {
        line_of(s, p - 1)
    }
}

/// The column of position `p`: one more than the number of bytes between the
/// last newline before `p` and `p`.
pub open spec fn col_of(s: Seq<u8>, p: int) -> int
    decreases p,
{
    if p <= 0 || p > s.len() {
        1
    } else if s[p - 1] == NEWLINE {
        1
    } else {
        col_of(s, p - 1) + 1
    }
}

/// The token read from the command character at `p`.
pub open spec fn token_at(s: Seq<u8>, p: int) -> Token {
    Token {
        token_type: command_of(s[p]).unwrap(),
        pos: p as usize,
        line: line_of(s, p) as usize,
        col: col_of(s, p) as usize,
    }
}

/// The token that closes the stream, placed at position `p`.
pub open spec fn eof_at(s: Seq<u8>, p: int) -> Token {
    Token {
        token_type: TokenType::Eof,
        pos: p as usize,
        line: line_of(s, p) as usize,
        col: col_of(s, p) as usize,
    }
}

/// The error reported for the offending byte at `p`.
pub open spec fn error_at(s: Seq<u8>, p: int) -> LexError {
    LexError::UnexpectedChar { ch: s[p], line: line_of(s, p) as usize, col: col_of(s, p) as usize }
}

/// The tokens of the meaningful bytes in `[from, to)`, in source order.
pub open spec fn tokens_between(s: Seq<u8>, from: int, to: int) -> Seq<Token>
    decreases to - from,
{
    if to <= from {
        Seq::empty()
    } else if meaningful(s, to - 1) {
        tokens_between(s, from, to - 1).push(token_at(s, to - 1))
    } else {
        tokens_between(s, from, to - 1)
    }
}

/// The whole token stream of a source without offending bytes: one token per
/// meaningful byte, then the closing token.
pub open spec fn lexed(s: Seq<u8>) -> Seq<Token> {
    tokens_between(s, 0, s.len() as int).push(eof_at(s, s.len() as int))
}

/// Lines and columns never exceed the position by more than one.
pub proof fn lemma_place_bounds(s: Seq<u8>, p: int)
    requires
        0 <= p <= s.len(),
    ensures
        1 <= line_of(s, p) <= p + 1,
        1 <= col_of(s, p) <= p + 1,
    decreases p,
{
    if p > 0 {
        lemma_place_bounds(s, p - 1);
    }
}

/// A stretch without meaningful bytes adds no token.
pub proof fn lemma_tokens_skip(s: Seq<u8>, from: int, mid: int, to: int)
    requires
        from <= mid <= to,
        forall|q: int| mid <= q < to ==> !meaningful(s, q),
    ensures
        tokens_between(s, from, to) == tokens_between(s, from, mid),
    decreases to - mid,
{
    if mid < to {
        lemma_tokens_skip(s, from, mid, to - 1);
    }
}

/// A stretch of source gives no more tokens than it has bytes.
pub proof fn lemma_tokens_len(s: Seq<u8>, from: int, to: int)
    requires
        from <= to,
    ensures
        tokens_between(s, from, to).len() <= to - from,
    decreases to - from,
{
    if from < to {
        lemma_tokens_len(s, from, to - 1);
    }
}

/// The tokens of a stretch of source mark its meaningful bytes, one token for
/// each and in the order of the text: every token stands at a meaningful byte
/// and is the token of that byte, the places of the tokens rise, and every
/// meaningful byte of the stretch has its token.
pub proof fn lemma_one_token_per_meaningful_byte(s: Seq<u8>, from: int, to: int)
    requires
        0 <= from <= to <= s.len() <= usize::MAX,
    ensures
        forall|i: int|
            0 <= i < tokens_between(s, from, to).len() ==> {
                &&& from <= (#[trigger] tokens_between(s, from, to)[i]).pos < to
                &&& meaningful(s, tokens_between(s, from, to)[i].pos as int)
                &&& tokens_between(s, from, to)[i] == token_at(
                    s,
                    tokens_between(s, from, to)[i].pos as int,
                )
            },
        forall|i: int, j: int|
            0 <= i < j < tokens_between(s, from, to).len() ==> (#[trigger] tokens_between(
                s,
                from,
                to,
            )[i]).pos < (#[trigger] tokens_between(s, from, to)[j]).pos,
        forall|p: int|
            from <= p < to && #[trigger] meaningful(s, p) ==> exists|i: int|
                0 <= i < tokens_between(s, from, to).len() && (#[trigger] tokens_between(
                    s,
                    from,
                    to,
                )[i]).pos == p,
    decreases to - from,
{
    if from < to {
        lemma_one_token_per_meaningful_byte(s, from, to - 1);
        let before = tokens_between(s, from, to - 1);
        let all = tokens_between(s, from, to);
        assert forall|p: int| from <= p < to && #[trigger] meaningful(s, p) implies exists|i: int|
            0 <= i < all.len() && (#[trigger] all[i]).pos == p by {
            if p < to - 1 {
                let i = choose|i: int| 0 <= i < before.len() && (#[trigger] before[i]).pos == p;
                assert(all[i] == before[i]);
            } else {
                assert(all[all.len() - 1].pos == p);
            }
        }
    }
}

/// The command a byte stands for, if it stands for one.
fn command(b: u8) -> (kind: Option<TokenType>)
    ensures
        kind == command_of(b),
{
    if b == PLUS {
        Some(TokenType::Increment)
    } else if b == MINUS {
        Some(TokenType::Decrement)
    } else if b == GREATER {
        Some(TokenType::MoveRight)
    } else if b == LESS {
        Some(TokenType::MoveLeft)
    } else if b == OPEN {
        Some(TokenType::LoopStart)
    } else if b == CLOSE {
        Some(TokenType::LoopEnd)
    } else if b == DOT {
        Some(TokenType::Print)
    } else if b == COMMA {
        Some(TokenType::Read)
    } else {
        None
    }
}

/// A lexer over one source text. It reads the text byte by byte, from a
/// buffer that a sentinel closes, and keeps the tokens found so far.
pub struct Lexer {
    input: String,
    bytes: Vec<u8>,
    current: usize,
    tokens: Vec<Token>,
    line: usize,
    col: usize,
}

impl Lexer {
    /// The bytes of the source text.
    pub closed spec fn source(&self) -> Seq<u8> {
        encode_utf8(self.input@)
    }

    /// The position of the next byte to read.
    pub closed spec fn position(&self) -> int {
        self.current as int
    }

    /// The tokens found so far.
    pub closed spec fn emitted(&self) -> Seq<Token> {
        self.tokens@
    }

    /// The buffer holds the bytes of the text and the sentinel behind them.
    spec fn buffered(&self) -> bool {
        self.bytes@ == self.source().push(SENTINEL)
    }

    /// The buffer is filled, the lexer's line and column are those of its
    /// position, and it does not stand inside a comment (it may stand at the
    /// newline or at the end of the text that ends one).
    pub closed spec fn wf(&self) -> bool {
        let s = self.source();
        &&& self.buffered()
        &&& self.current <= s.len()
        &&& self.line == line_of(s, self.current as int)
        &&& self.col == col_of(s, self.current as int)
        &&& (comment_open(s, self.current as int) ==> self.current == s.len()
            || s[self.current as int] == NEWLINE)
    }

    pub fn new(input: String) -> (lexer: Lexer)
        ensures
            lexer.wf(),
            lexer.source() == encode_utf8(input@),
            lexer.position() == 0,
            lexer.emitted() == Seq::<Token>::empty(),
    {
        let mut bytes = input.as_str().as_bytes_vec();
        bytes.push(SENTINEL);
        Self { input, bytes, current: 0, tokens: Vec::new(), line: 1, col: 1 }
    }

    /// The length of the text. The sentinel behind it has a place in the
    /// buffer too, so the length is less than the largest `usize`.
    fn len(&self) -> (n: usize)
        requires
            self.buffered(),
        ensures
            n == self.source().len(),
            n < usize::MAX,
    {
        self.bytes.len() - 1
    }

    /// The byte at `i`, or the sentinel just behind the text.
    fn byte_at(&self, i: usize) -> (b: u8)
        requires
            self.buffered(),
            i <= self.source().len(),
        ensures
            i < self.source().len() ==> b == self.source()[i as int],
            i == self.source().len() ==> b == SENTINEL,
    {
        self.bytes[i]
    }

    /// Steps over one byte that is not a newline.
    fn advance(&mut self)
        requires
            old(self).current < old(self).source().len(),
            old(self).source().len() < usize::MAX,
            old(self).source()[old(self).current as int] != NEWLINE,
            old(self).line == line_of(old(self).source(), old(self).current as int),
            old(self).col == col_of(old(self).source(), old(self).current as int),
        ensures
            final(self).input == old(self).input,
            final(self).bytes == old(self).bytes,
            final(self).tokens == old(self).tokens,
            final(self).current == old(self).current + 1,
            final(self).line == line_of(final(self).source(), final(self).current as int),
            final(self).col == col_of(final(self).source(), final(self).current as int),
    {
        proof {
            lemma_place_bounds(self.source(), self.current as int);
        }
        self.current += 1;
        self.col += 1;
    }

    /// Steps over a newline.
    fn newline(&mut self)
        requires
            old(self).buffered(),
            old(self).current < old(self).source().len(),
            old(self).source().len() < usize::MAX,
            old(self).source()[old(self).current as int] == NEWLINE,
            old(self).line == line_of(old(self).source(), old(self).current as int),
        ensures
            final(self).input == old(self).input,
            final(self).bytes == old(self).bytes,
            final(self).tokens == old(self).tokens,
            final(self).current == old(self).current + 1,
            final(self).wf(),
    {
        proof {
            lemma_place_bounds(self.source(), self.current as int);
        }
        self.line += 1;
        self.col = 1;
        self.current += 1;
    }

    /// Skips a comment: from its first slash up to, but not over, the next
    /// newline or the end of the text.
    fn comment(&mut self)
        requires
            old(self).wf(),
            pair_at(old(self).source(), old(self).current as int),
        ensures
            final(self).wf(),
            final(self).input == old(self).input,
            final(self).bytes == old(self).bytes,
            final(self).tokens == old(self).tokens,
            old(self).current + 2 <= final(self).current <= final(self).source().len(),
            forall|q: int|
                old(self).current <= q < final(self).current ==> in_comment(
                    final(self).source(),
                    q,
                ),
    {
        let n = self.len();
        self.advance();
        while self.current < n && self.byte_at(self.current) != NEWLINE
            invariant
                self.input == old(self).input,
                self.bytes == old(self).bytes,
                self.buffered(),
                self.tokens == old(self).tokens,
                n == self.source().len(),
                n < usize::MAX,
                old(self).current < self.current <= n,
                pair_at(self.source(), old(self).current as int),
                self.line == line_of(self.source(), self.current as int),
                self.col == col_of(self.source(), self.current as int),
                comment_open(self.source(), self.current as int),
                forall|q: int|
                    old(self).current <= q < self.current ==> in_comment(self.source(), q),
            decreases n - self.current,
        {
            self.advance();
        }
    }

    /// Reads the rest of the source. On success every byte from the starting
    /// position on has been read, one token stands for each meaningful byte,
    /// and a closing token ends the stream. On failure the lexer has stopped
    /// at the first offending byte and reports it.
    pub fn parse(&mut self) -> (res: Result<(), LexError>)
        requires
            old(self).wf(),
        ensures
            final(self).wf(),
            final(self).source() == old(self).source(),
            old(self).position() <= final(self).position(),
            clean_between(final(self).source(), old(self).position(), final(self).position()),
            res is Ok <==> clean_between(
                final(self).source(),
                old(self).position(),
                final(self).source().len() as int,
            ),
            match res {
                Ok(()) => {
                    &&& final(self).position() == final(self).source().len()
                    &&& final(self).emitted() == (old(self).emitted() + tokens_between(
                        final(self).source(),
                        old(self).position(),
                        final(self).position(),
                    )).push(eof_at(final(self).source(), final(self).position()))
                },
                Err(e) => {
                    &&& offending(final(self).source(), final(self).position())
                    &&& e == error_at(final(self).source(), final(self).position())
                    &&& final(self).emitted() == old(self).emitted() + tokens_between(
                        final(self).source(),
                        old(self).position(),
                        final(self).position(),
                    )
                },
            },
    {
        let n = self.len();
        let ghost s = self.source();
        let ghost start = self.current as int;
        while self.current < n
            invariant
                self.wf(),
                self.input == old(self).input,
                s == self.source(),
                n == s.len(),
                n < usize::MAX,
                start == old(self).current,
                start <= self.current <= n,
                clean_between(s, start, self.current as int),
                self.tokens@ == old(self).tokens@ + tokens_between(s, start, self.current as int),
            decreases n - self.current,
        {
            let c = self.byte_at(self.current);
            let ghost here = self.current as int;
            if c == NEWLINE {
                self.newline();
            } else if let Some(token_type) = command(c) {
                self.tokens.push(
                    Token { token_type, pos: self.current, line: self.line, col: self.col },
                );
                self.advance();
            } else if c == SPACE || c == TAB || c == RETURN {
                self.advance();
            } else if c == SLASH && self.byte_at(self.current + 1) == SLASH {
                self.comment();
                proof {
                    lemma_tokens_skip(s, start, here, self.current as int);
                }
            } else {
                assert(offending(s, here));
                return Err(LexError::UnexpectedChar { ch: c, line: self.line, col: self.col });
            }
        }
        self.tokens.push(
            Token { token_type: TokenType::Eof, pos: self.current, line: self.line, col: self.col },
        );
        Ok(())
    }

    /// A copy of the tokens found so far.
    pub fn tokens(&self) -> (tokens: Vec<Token>)
        ensures
            tokens@ == self.emitted(),
    {
        self.tokens.clone()
    }
}

} // verus!
