use crate::lex::{Token, TokenType};
use crate::text::{number, push_number};
use vstd::prelude::*;
use vstd::string::*;

verus! {

/// Why a token stream is not well bracketed. Each variant carries the line and
/// column of the bracket that has no partner.
#[derive(Debug, Clone, Copy, PartialEq, Eq, Structural)]
pub enum SyntaxError {
    /// A `[` that is never closed: the innermost one.
    UnmatchedOpen { line: usize, col: usize },
    /// A `]` with no `[` open before it: the first one.
    UnmatchedClose { line: usize, col: usize },
}

/// The text of a syntax error.
pub open spec fn syntax_message(e: SyntaxError) -> Seq<char> {
    match e {
        SyntaxError::UnmatchedOpen { line, col } => "Syntax Error: Unmatched LoopStart at col "@
            + number(col) + " on line "@ + number(line),
        SyntaxError::UnmatchedClose { line, col } => "Syntax Error: Unmatched LoopEnd at col "@
            + number(col) + " on line "@ + number(line),
    }
}

impl SyntaxError {
    /// The error as a line of text for the user.
    pub fn message(&self) -> (text: String)
        ensures
            text@ == syntax_message(*self),
    {
        let (mut text, line, col) = match self {
            SyntaxError::UnmatchedOpen { line, col } => (
                "Syntax Error: Unmatched LoopStart at col ".to_owned(),
                *line,
                *col,
            ),
            SyntaxError::UnmatchedClose { line, col } => (
                "Syntax Error: Unmatched LoopEnd at col ".to_owned(),
                *line,
                *col,
            ),
        };
        push_number(&mut text, col);
        text.append(" on line ");
        push_number(&mut text, line);
        text
    }
}

/// What a token adds to the nesting depth.
pub open spec fn weight(kind: TokenType) -> int {
    match kind {
        TokenType::LoopStart => 1,
        TokenType::LoopEnd => -1,
        _ => 0,
    }
}

/// The number of `[` less the number of `]` in `tokens`.
pub open spec fn depth(tokens: Seq<Token>) -> int
    decreases tokens.len(),
{
    if tokens.len() == 0 {
        0
    } else {
        depth(tokens.drop_last()) + weight(tokens.last().token_type)
    }
}

/// No beginning of `tokens` holds more `]` than `[`.
pub open spec fn never_underflows(tokens: Seq<Token>) -> bool {
    forall|k: int| 0 <= k <= tokens.len() ==> #[trigger] depth(tokens.take(k)) >= 0
}

/// Every `[` has its `]` and every `]` its `[`.
pub open spec fn balanced(tokens: Seq<Token>) -> bool {
    never_underflows(tokens) && depth(tokens) == 0
}

/// The validator's pass over `tokens`, begun with the brackets in `stack`
/// open: the brackets still open at the end, innermost last, or the first `]`
/// that found none open.
pub open spec fn scan(stack: Seq<Token>, tokens: Seq<Token>) -> Result<Seq<Token>, Token>
    decreases tokens.len(),
{
    if tokens.len() == 0 {
        Ok(stack)
    } else {
        match scan(stack, tokens.drop_last()) {
            Err(close) => Err(close),
            Ok(open) => match tokens.last().token_type {
                TokenType::LoopStart => Ok(open.push(tokens.last())),
                TokenType::LoopEnd => if open.len() == 0 {
                    Err(tokens.last())
                } else {
                    Ok(open.drop_last())
                },
                _ => Ok(open),
            },
        }
    }
}

/// The validator's answer.
pub open spec fn verdict(stack: Seq<Token>, tokens: Seq<Token>) -> Result<(), SyntaxError> {
    match scan(stack, tokens) {
        Err(close) => Err(SyntaxError::UnmatchedClose { line: close.line, col: close.col }),
        Ok(open) => if open.len() == 0 {
            Ok(())
        } else {
            Err(SyntaxError::UnmatchedOpen { line: open.last().line, col: open.last().col })
        },
    }
}

/// Once a `]` has found no bracket open, more tokens do not change the answer.
pub proof fn lemma_scan_error_stays(stack: Seq<Token>, tokens: Seq<Token>, k: int)
    requires
        0 <= k <= tokens.len(),
        scan(stack, tokens.take(k)) is Err,
    ensures
        scan(stack, tokens) == scan(stack, tokens.take(k)),
    decreases tokens.len(),
{
    if k == tokens.len() {
        assert(tokens.take(k) =~= tokens);
    } else {
        assert(tokens.drop_last().take(k) =~= tokens.take(k));
        lemma_scan_error_stays(stack, tokens.drop_last(), k);
    }
}

/// The validator: it checks that loops are closed and properly nested.
pub struct SyntaxParser {
    stack: Vec<Token>,
}

impl SyntaxParser {
    /// The brackets that are open in the middle of a pass, innermost last.
    pub closed spec fn pending(&self) -> Seq<Token> {
        self.stack@
    }

    pub fn new() -> (parser: SyntaxParser)
        ensures
            parser.pending() == Seq::<Token>::empty(),
    {
        Self { stack: Vec::new() }
    }

    /// Checks the brackets of `tokens` in one pass. A `]` that finds no `[`
    /// open ends the pass with `UnmatchedClose` at its place. A `[` still
    /// open at the end gives `UnmatchedOpen` at the place of the innermost
    /// one. Every pass judges its stream by itself: it begins with no bracket
    /// open, whatever the parser has seen before, and leaves none behind.
    pub fn parse(&mut self, tokens: &Vec<Token>) -> (res: Result<(), SyntaxError>)
        ensures
            res == verdict(Seq::empty(), tokens@),
            final(self).pending() == Seq::<Token>::empty(),
    {
        self.stack.clear();
        let ghost before = Seq::<Token>::empty();
        let mut i: usize = 0;
        assert(tokens@.take(0) =~= Seq::<Token>::empty());
        while i < tokens.len()
            invariant
                i <= tokens.len(),
                before == Seq::<Token>::empty(),
                scan(before, tokens@.take(i as int)) == Ok::<Seq<Token>, Token>(self.stack@),
            decreases tokens.len() - i,
        {
            let token = tokens[i];
            proof {
                assert(tokens@.take(i + 1).drop_last() =~= tokens@.take(i as int));
            }
            match token.token_type() {
                TokenType::LoopStart => {
                    self.stack.push(token);
                },
                TokenType::LoopEnd => {
                    if self.stack.len() == 0 {
                        proof {
                            lemma_scan_error_stays(before, tokens@, i + 1);
                            assert(self.stack@ =~= Seq::<Token>::empty());
                        }
                        return Err(
                            SyntaxError::UnmatchedClose { line: token.line(), col: token.col() },
                        );
                    }
                    self.stack.pop();
                },
                _ => {},
            }
            i += 1;
        }
        assert(tokens@.take(i as int) =~= tokens@);
        if self.stack.len() > 0 {
            let innermost = self.stack[self.stack.len() - 1];
            self.stack.clear();
            return Err(
                SyntaxError::UnmatchedOpen { line: innermost.line(), col: innermost.col() },
            );
        }
        assert(self.stack@ =~= Seq::<Token>::empty());
        Ok(())
    }
}

} // verus!
