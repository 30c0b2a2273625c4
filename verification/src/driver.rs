use crate::brackets::{lemma_concat_never_underflows, lemma_scan_by_depth};
use crate::exe::{agrees, Outcome, Runner};
use crate::fasm::{assembly, emission_start, FasmGenerator};
use crate::ir::{fits, lemma_short_stream_fits, lowered, Representation};
use crate::lex::{
    clean_between, error_at, is_blank, lemma_tokens_len, lex_message, lexed, offending, LexError,
    Lexer, Token, NEWLINE, RETURN, SPACE, TAB,
};
use crate::machine::{fresh_machine, run_ir, run_tokens};
use crate::parse::{syntax_message, verdict, SyntaxError, SyntaxParser};
use crate::shape::{lemma_loops_close_by_depth, lemma_lowered_depth, lemma_lowered_runnable};
use crate::tape::TAPE_LEN;
use vstd::prelude::*;
use vstd::string::*;
use vstd::utf8::encode_utf8;

verus! {

/// Why a source text is not a program.
#[derive(Debug, Clone, Copy, PartialEq, Eq, Structural)]
pub enum Error {
    /// The text holds a byte that is no part of the language.
    Lex(LexError),
    /// The brackets do not match.
    Syntax(SyntaxError),
}

/// The text of an error.
pub open spec fn error_message(e: Error) -> Seq<char> {
    match e {
        Error::Lex(e) => lex_message(e),
        Error::Syntax(e) => syntax_message(e),
    }
}

impl Error {
    /// The error as a line of text for the user.
    pub fn message(&self) -> (text: String)
        ensures
            text@ == error_message(*self),
    {
        match self {
            Error::Lex(e) => e.message(),
            Error::Syntax(e) => e.message(),
        }
    }
}

/// The place of the first offending byte of `s`, where there is one.
pub open spec fn first_offender(s: Seq<u8>) -> int {
    choose|p: int| offending(s, p) && clean_between(s, 0, p)
}

/// The tokens of a source text, or the reason it has none: the first
/// offending byte, or else the validator's complaint.
pub open spec fn program_of(s: Seq<u8>) -> Result<Seq<Token>, Error> {
    if !clean_between(s, 0, s.len() as int) {
        Err(Error::Lex(error_at(s, first_offender(s))))
    } else {
        match verdict(Seq::empty(), lexed(s)) {
            Err(e) => Err(Error::Syntax(e)),
            Ok(()) => Ok(lexed(s)),
        }
    }
}

/// An offending byte with none before it is the first one.
pub proof fn lemma_first_offender(s: Seq<u8>, p: int)
    requires
        offending(s, p),
        clean_between(s, 0, p),
    ensures
        first_offender(s) == p,
        !clean_between(s, 0, s.len() as int),
{
    let q = first_offender(s);
    assert(offending(s, q) && clean_between(s, 0, q));
    if q < p {
        assert(!offending(s, q));
    }
    if p < q {
        assert(!offending(s, p));
    }
}

/// The tokens of a source text of less than `i32::MAX` bytes can be lowered.
pub proof fn lemma_short_source_fits(s: Seq<u8>)
    requires
        s.len() < i32::MAX,
    ensures
        program_of(s) matches Ok(tokens) ==> fits(tokens),
{
    lemma_tokens_len(s, 0, s.len() as int);
    lemma_short_stream_fits(lexed(s));
}

/// Turns a source text into tokens and checks their brackets.
pub fn tokenize(source: String) -> (res: Result<Vec<Token>, Error>)
    ensures
        match res {
            Ok(tokens) => program_of(encode_utf8(source@)) == Ok::<Seq<Token>, Error>(tokens@),
            Err(e) => program_of(encode_utf8(source@)) == Err::<Seq<Token>, Error>(e),
        },
{
    let ghost s = encode_utf8(source@);
    let mut lexer = Lexer::new(source);
    match lexer.parse() {
        Err(e) => {
            proof {
                lemma_first_offender(s, lexer.position());
            }
            Err(Error::Lex(e))
        },
        Ok(()) => {
            let tokens = lexer.tokens();
            assert(tokens@ =~= lexed(s));
            let mut parser = SyntaxParser::new();
            match parser.parse(&tokens) {
                Err(e) => Err(Error::Syntax(e)),
                Ok(()) => Ok(tokens),
            }
        },
    }
}

/// Compiles a source text to assembly: tokens, bracket check, lowering,
/// code generation.
pub fn compile(source: String) -> (res: Result<String, Error>)
    requires
        program_of(encode_utf8(source@)) matches Ok(tokens) ==> fits(tokens),
    ensures
        match res {
            Ok(text) => program_of(encode_utf8(source@)) matches Ok(tokens) && text@ == assembly(
                lowered(tokens),
            ),
            Err(e) => program_of(encode_utf8(source@)) == Err::<Seq<Token>, Error>(e),
        },
{
    match tokenize(source) {
        Err(e) => Err(e),
        Ok(tokens) => {
            let mut rep = Representation::new();
            rep.parse(&tokens);
            let mut generator = FasmGenerator::new();
            proof {
                lemma_scan_by_depth(tokens@);
                lemma_lowered_depth(tokens@);
                lemma_loops_close_by_depth(emission_start(), lowered(tokens@));
            }
            Ok(generator.generate(rep.instructions.as_slice()))
        },
    }
}

/// Runs a source text on a fresh tape for at most `limit` steps, with
/// `input` as the bytes to read.
pub fn run(source: String, input: &[u8], limit: usize) -> (res: Result<Outcome, Error>)
    ensures
        match res {
            Ok(out) => program_of(encode_utf8(source@)) matches Ok(tokens) && agrees(
                out,
                run_tokens(tokens, fresh_machine(), input@, limit as nat),
            ),
            Err(e) => program_of(encode_utf8(source@)) == Err::<Seq<Token>, Error>(e),
        },
{
    match tokenize(source) {
        Err(e) => Err(e),
        Ok(tokens) => {
            proof {
                lemma_scan_by_depth(tokens@);
            }
            let mut runner = Runner::new(tokens);
            Ok(runner.run(input, limit))
        },
    }
}

/// Runs a source text on a fresh tape by way of its instructions, for at
/// most `limit` steps, with `input` as the bytes to read.
pub fn run_lowered(source: String, input: &[u8], limit: usize) -> (res: Result<Outcome, Error>)
    requires
        program_of(encode_utf8(source@)) matches Ok(tokens) ==> fits(tokens),
    ensures
        match res {
            Ok(out) => program_of(encode_utf8(source@)) matches Ok(tokens) && agrees(
                out,
                run_ir(lowered(tokens), fresh_machine(), input@, limit as nat),
            ),
            Err(e) => program_of(encode_utf8(source@)) == Err::<Seq<Token>, Error>(e),
        },
{
    match tokenize(source) {
        Err(e) => Err(e),
        Ok(tokens) => {
            let mut rep = Representation::new();
            rep.parse(&tokens);
            proof {
                lemma_scan_by_depth(tokens@);
                lemma_lowered_runnable(tokens@);
            }
            let mut runner = Runner::new(Vec::new());
            Ok(runner.run_ins(&rep.instructions, input, limit))
        },
    }
}

/// Takes one more line into a session: the line is turned into tokens and
/// checked by itself, its tokens are appended to the session's program, and
/// the session runs on from where it stood. A line that is no program
/// leaves the session as it was.
pub fn run_incremental(session: &mut Runner, line: String, input: &[u8], limit: usize) -> (res:
    Result<Outcome, Error>)
    requires
        old(session).wf(),
    ensures
        final(session).wf(),
        match res {
            Ok(out) => program_of(encode_utf8(line@)) matches Ok(tokens) && {
                &&& final(session).program() == old(session).program() + tokens
                &&& final(session).machine() == run_tokens(
                    old(session).program() + tokens,
                    old(session).machine(),
                    input@,
                    limit as nat,
                ).machine
                &&& agrees(
                    out,
                    run_tokens(
                        old(session).program() + tokens,
                        old(session).machine(),
                        input@,
                        limit as nat,
                    ),
                )
            },
            Err(e) => {
                &&& program_of(encode_utf8(line@)) == Err::<Seq<Token>, Error>(e)
                &&& final(session).program() == old(session).program()
                &&& final(session).machine() == old(session).machine()
            },
        },
{
    match tokenize(line) {
        Err(e) => Err(e),
        Ok(tokens) => {
            let mut tokens = tokens;
            proof {
                lemma_scan_by_depth(tokens@);
                lemma_concat_never_underflows(session.program(), tokens@);
            }
            session.add(&mut tokens);
            Ok(session.run(input, limit))
        },
    }
}

/// What a line typed at the prompt asks for.
#[derive(Debug, Clone, Copy, PartialEq, Eq, Structural)]
pub enum Command {
    /// Leave the session.
    Exit,
    /// Show this many cells from the start of the tape.
    Print(usize),
    /// The line is source text.
    Source,
}

/// The first place at or after `from` that holds no white space.
pub open spec fn solid_start(s: Seq<u8>, from: int) -> int
    decreases s.len() - from,
{
    if 0 <= from < s.len() && is_blank(s[from]) {
        solid_start(s, from + 1)
    } else {
        from
    }
}

/// The end of the text before `to` once white space is taken off its end.
pub open spec fn solid_end(s: Seq<u8>, to: int) -> int
    decreases to,
{
    if 0 < to <= s.len() && is_blank(s[to - 1]) {
        solid_end(s, to - 1)
    } else {
        to
    }
}

/// The ASCII codes of the digits `0` and `9`.
pub const ZERO: u8 = 48;

pub const NINE: u8 = 57;

pub open spec fn is_digit(b: u8) -> bool {
    ZERO <= b <= NINE
}

/// The first place at or after `from` that holds no digit.
pub open spec fn digits_end(s: Seq<u8>, from: int) -> int
    decreases s.len() - from,
{
    if 0 <= from < s.len() && is_digit(s[from]) {
        digits_end(s, from + 1)
    } else {
        from
    }
}

/// The number that the digits in `[from, to)` write.
pub open spec fn number_between(s: Seq<u8>, from: int, to: int) -> nat
    decreases to - from,
{
    if to <= from {
        0
    } else {
        (number_between(s, from, to - 1) * 10 + (s[to - 1] - ZERO)) as nat
    }
}

/// How many cells to show by default.
pub const DEFAULT_COUNT: usize = 10;

/// The number of cells a `print` line asks for, its argument beginning at
/// `from`: the number its leading digits write, but no more than the tape
/// holds, and the default where there are no digits or they write zero.
pub open spec fn print_count(s: Seq<u8>, from: int) -> usize {
    let digits = solid_start(s, from);
    let value = number_between(s, digits, digits_end(s, digits));
    if value == 0 {
        DEFAULT_COUNT
    } else if value > TAPE_LEN {
        TAPE_LEN
    } else {
        value as usize
    }
}

/// The characters of `word`, taken as bytes, stand in `s` from `at` on.
pub open spec fn word_at(s: Seq<u8>, at: int, word: Seq<char>) -> bool {
    &&& 0 <= at
    &&& at + word.len() <= s.len()
    &&& forall|i: int| 0 <= i < word.len() ==> s[at + i] == word[i] as u8
}

/// What a line asks for. White space around it does not count. `exit` alone
/// is `Exit`; `print`, alone or followed by white space and an argument, is
/// `Print`; every other line is source text.
pub open spec fn command_of_line(s: Seq<u8>) -> Command {
    let from = solid_start(s, 0);
    let to = solid_end(s, s.len() as int);
    if to - from == "exit"@.len() && word_at(s, from, "exit"@) {
        Command::Exit
    } else if word_at(s, from, "print"@) && (to - from == "print"@.len() || (to - from
        > "print"@.len() && is_blank(s[from + "print"@.len()]))) {
        Command::Print(print_count(s, from + "print"@.len()))
    } else {
        Command::Source
    }
}

fn blank(b: u8) -> (yes: bool)
    ensures
        yes == is_blank(b),
{
    b == SPACE || b == TAB || b == RETURN || b == NEWLINE
}

/// Tells whether an ASCII word stands in `bytes` at `at`.
fn has_word(bytes: &[u8], at: usize, word: &str) -> (yes: bool)
    requires
        is_ascii(word),
    ensures
        yes == word_at(bytes@, at as int, word@),
{
    let letters = word.as_bytes();
    proof {
        is_ascii_spec_bytes(word);
    }
    let n = bytes.len();
    let m = letters.len();
    if at > n || m > n - at {
        return false;
    }
    let mut i: usize = 0;
    while i < m
        invariant
            n == bytes@.len(),
            i <= m == letters@.len() == word@.len(),
            at + m <= n,
            forall|k: int| 0 <= k < m ==> letters@[k] == word@[k] as u8,
            forall|k: int| 0 <= k < i ==> bytes@[at + k] == word@[k] as u8,
        decreases m - i,
    {
        if bytes[at + i] != letters[i] {
            return false;
        }
        i += 1;
    }
    true
}

/// Reads the argument of a `print` line.
fn count_from(bytes: &[u8], from: usize) -> (count: usize)
    requires
        from <= bytes@.len(),
    ensures
        count == print_count(bytes@, from as int),
        count <= TAPE_LEN,
{
    let n = bytes.len();
    let mut i: usize = from;
    while i < n && blank(bytes[i])
        invariant
            from <= i <= n,
            n == bytes@.len(),
            solid_start(bytes@, from as int) == solid_start(bytes@, i as int),
        decreases n - i,
    {
        i += 1;
    }
    let digits = i;
    let mut value: usize = 0;
    while i < n && ZERO <= bytes[i] && bytes[i] <= NINE
        invariant
            digits <= i <= n,
            n == bytes@.len(),
            digits_end(bytes@, digits as int) == digits_end(bytes@, i as int),
            value <= TAPE_LEN + 1,
            value <= TAPE_LEN ==> value == number_between(bytes@, digits as int, i as int),
            value > TAPE_LEN ==> number_between(bytes@, digits as int, i as int) > TAPE_LEN,
        decreases n - i,
    {
        let digit: usize = (bytes[i] - ZERO) as usize;
        value = value * 10 + digit;
        if value > TAPE_LEN {
            value = TAPE_LEN + 1;
        }
        i += 1;
    }
    if value == 0 {
        DEFAULT_COUNT
    } else if value > TAPE_LEN {
        TAPE_LEN
    } else {
        value
    }
}

/// Tells what a line of bytes asks for.
pub fn classify_bytes(bytes: &[u8]) -> (command: Command)
    ensures
        command == command_of_line(bytes@),
        command matches Command::Print(count) ==> 0 < count <= TAPE_LEN,
{
    let n = bytes.len();
    let mut from: usize = 0;
    while from < n && blank(bytes[from])
        invariant
            from <= n,
            n == bytes@.len(),
            solid_start(bytes@, 0) == solid_start(bytes@, from as int),
        decreases n - from,
    {
        from += 1;
    }
    let mut to: usize = n;
    while to > 0 && blank(bytes[to - 1])
        invariant
            to <= n,
            n == bytes@.len(),
            solid_end(bytes@, n as int) == solid_end(bytes@, to as int),
        decreases to,
    {
        to -= 1;
    }
    proof {
        reveal_strlit("exit");
        reveal_strlit("print");
    }
    if to < from {
        return Command::Source;
    }
    let len = to - from;
    if len == 4 && has_word(bytes, from, "exit") {
        Command::Exit
    } else if has_word(bytes, from, "print") && (len == 5 || (len > 5 && blank(bytes[from + 5]))) {
        Command::Print(count_from(bytes, from + 5))
    } else {
        Command::Source
    }
}

/// Tells what a line typed at the prompt asks for.
pub fn classify(line: &str) -> (command: Command)
    ensures
        command == command_of_line(encode_utf8(line@)),
        command matches Command::Print(count) ==> 0 < count <= TAPE_LEN,
{
    classify_bytes(line.as_bytes())
}

} // verus!
