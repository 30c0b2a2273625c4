use brainfuck::lex::{Lexer, Token};
use brainfuck::parse::{SyntaxError, SyntaxParser};

fn tokens_of(source: &str) -> Vec<Token> {
    let mut lexer = Lexer::new(source.to_string());
    lexer.parse().unwrap();
    lexer.tokens()
}

fn validate(source: &str) -> Result<(), SyntaxError> {
    SyntaxParser::new().parse(&tokens_of(source))
}

#[test]
fn balanced_brackets_are_accepted() {
    assert_eq!(validate(""), Ok(()));
    assert_eq!(validate("+-<>.,"), Ok(()));
    assert_eq!(validate("[]"), Ok(()));
    assert_eq!(validate("[[][]]+[-]"), Ok(()));
}

#[test]
fn close_without_open_is_reported_at_the_first_one() {
    assert_eq!(validate("]"), Err(SyntaxError::UnmatchedClose { line: 1, col: 1 }));
    assert_eq!(validate("[]\n +]]"), Err(SyntaxError::UnmatchedClose { line: 2, col: 3 }));
    assert_eq!(validate("][" ), Err(SyntaxError::UnmatchedClose { line: 1, col: 1 }));
}

#[test]
fn open_without_close_is_reported_at_the_innermost_one() {
    assert_eq!(validate("["), Err(SyntaxError::UnmatchedOpen { line: 1, col: 1 }));
    assert_eq!(validate("[[]"), Err(SyntaxError::UnmatchedOpen { line: 1, col: 1 }));
    assert_eq!(validate("+[\n[+]\n  ["), Err(SyntaxError::UnmatchedOpen { line: 3, col: 3 }));
    assert_eq!(validate("[["), Err(SyntaxError::UnmatchedOpen { line: 1, col: 2 }));
}

#[test]
fn used_parser_judges_each_stream_by_itself() {
    let mut parser = SyntaxParser::new();
    assert_eq!(
        parser.parse(&tokens_of("[")),
        Err(SyntaxError::UnmatchedOpen { line: 1, col: 1 })
    );
    assert_eq!(
        parser.parse(&tokens_of("]")),
        Err(SyntaxError::UnmatchedClose { line: 1, col: 1 })
    );
    assert_eq!(parser.parse(&tokens_of("[]")), Ok(()));
    assert_eq!(
        parser.parse(&tokens_of("]")),
        Err(SyntaxError::UnmatchedClose { line: 1, col: 1 })
    );
    assert_eq!(parser.parse(&tokens_of("+[-]")), Ok(()));
}
