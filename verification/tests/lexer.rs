use brainfuck::lex::{LexError, Lexer, Token, TokenType};

fn lex(source: &str) -> Result<Vec<Token>, LexError> {
    let mut lexer = Lexer::new(source.to_string());
    lexer.parse()?;
    Ok(lexer.tokens())
}

fn kinds(tokens: &[Token]) -> Vec<TokenType> {
    tokens.iter().map(|t| t.token_type()).collect()
}

#[test]
fn every_command_character_gives_its_token() {
    let tokens = lex("+-><[].,").unwrap();
    assert_eq!(
        kinds(&tokens),
        vec![
            TokenType::Increment,
            TokenType::Decrement,
            TokenType::MoveRight,
            TokenType::MoveLeft,
            TokenType::LoopStart,
            TokenType::LoopEnd,
            TokenType::Print,
            TokenType::Read,
            TokenType::Eof,
        ]
    );
    for (i, token) in tokens.iter().enumerate() {
        assert_eq!(token.pos(), i);
        assert_eq!(token.line(), 1);
        assert_eq!(token.col(), i + 1);
    }
}

#[test]
fn empty_source_is_one_closing_token() {
    let tokens = lex("").unwrap();
    assert_eq!(tokens, vec![Token::new(TokenType::Eof, 0, 1, 1)]);
}

#[test]
fn white_space_is_skipped_and_counted() {
    let tokens = lex(" +\t-\r>").unwrap();
    assert_eq!(
        tokens,
        vec![
            Token::new(TokenType::Increment, 1, 1, 2),
            Token::new(TokenType::Decrement, 3, 1, 4),
            Token::new(TokenType::MoveRight, 5, 1, 6),
            Token::new(TokenType::Eof, 6, 1, 7),
        ]
    );
}

#[test]
fn newline_starts_a_line_at_column_one() {
    let tokens = lex("+\n-\n\n  .").unwrap();
    assert_eq!(
        tokens,
        vec![
            Token::new(TokenType::Increment, 0, 1, 1),
            Token::new(TokenType::Decrement, 2, 2, 1),
            Token::new(TokenType::Print, 7, 4, 3),
            Token::new(TokenType::Eof, 8, 4, 4),
        ]
    );
}

#[test]
fn comment_runs_to_the_end_of_its_line() {
    let tokens = lex("+ // add one, then [loop]\n- // done").unwrap();
    assert_eq!(
        tokens,
        vec![
            Token::new(TokenType::Increment, 0, 1, 1),
            Token::new(TokenType::Decrement, 26, 2, 1),
            Token::new(TokenType::Eof, 35, 2, 10),
        ]
    );
}

#[test]
fn comment_counts_bytes_not_characters() {
    let tokens = lex("// caf\u{e9}\n+").unwrap();
    assert_eq!(
        tokens,
        vec![Token::new(TokenType::Increment, 9, 2, 1), Token::new(TokenType::Eof, 10, 2, 2)]
    );
}

#[test]
fn comment_at_the_end_of_the_text() {
    let tokens = lex("+//").unwrap();
    assert_eq!(
        tokens,
        vec![Token::new(TokenType::Increment, 0, 1, 1), Token::new(TokenType::Eof, 3, 1, 4)]
    );
}

#[test]
fn one_token_for_each_meaningful_character() {
    let source = "++ [ > , . < - ] // tail +-\n\t+\r\n";
    let tokens = lex(source).unwrap();
    assert_eq!(tokens.len(), 10 + 1);
    assert_eq!(tokens.last().unwrap().token_type(), TokenType::Eof);
    assert_eq!(tokens.last().unwrap().pos(), source.len());
}

#[test]
fn unknown_character_is_reported_with_its_place() {
    assert_eq!(lex("+\n a"), Err(LexError::UnexpectedChar { ch: b'a', line: 2, col: 2 }));
}

#[test]
fn single_slash_is_an_unknown_character() {
    assert_eq!(lex("+/+"), Err(LexError::UnexpectedChar { ch: b'/', line: 1, col: 2 }));
    assert_eq!(lex("+/"), Err(LexError::UnexpectedChar { ch: b'/', line: 1, col: 2 }));
}

#[test]
fn first_unknown_character_wins() {
    assert_eq!(lex("x y"), Err(LexError::UnexpectedChar { ch: b'x', line: 1, col: 1 }));
}

#[test]
fn unknown_character_inside_a_comment_is_fine() {
    assert!(lex("// x y z\n").is_ok());
}

#[test]
fn failed_lexer_keeps_the_tokens_before_the_error() {
    let mut lexer = Lexer::new("+-?".to_string());
    assert!(lexer.parse().is_err());
    assert_eq!(
        lexer.tokens(),
        vec![Token::new(TokenType::Increment, 0, 1, 1), Token::new(TokenType::Decrement, 1, 1, 2)]
    );
}
