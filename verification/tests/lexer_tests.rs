use tinylang::frontend::lexer::{tokenize, LexicalError, Token};

#[test]
fn empty_input_yields_only_end_of_file() {
    let tokens = tokenize("").unwrap();
    assert_eq!(tokens.len(), 1);
    assert!(matches!(tokens[0], Token::EndOfFile));
}

#[test]
fn adjacent_operators_lex_separately() {
    let tokens = tokenize("1+-2").unwrap();
    assert_eq!(tokens.len(), 5);
    assert!(matches!(&tokens[0], Token::Number(d) if d == "1"));
    assert!(matches!(tokens[1], Token::BinaryOperator('+')));
    assert!(matches!(tokens[2], Token::BinaryOperator('-')));
    assert!(matches!(&tokens[3], Token::Number(d) if d == "2"));
    assert!(matches!(tokens[4], Token::EndOfFile));
}

#[test]
fn keywords_and_identifiers_are_distinguished() {
    let tokens = tokenize("let const letx").unwrap();
    assert!(matches!(tokens[0], Token::Let));
    assert!(matches!(tokens[1], Token::Const));
    assert!(matches!(&tokens[2], Token::Identifier(s) if s == "letx"));
    assert!(matches!(tokens[3], Token::EndOfFile));
}

#[test]
fn digit_runs_are_maximal_and_keep_their_text() {
    let tokens = tokenize("1234 007").unwrap();
    assert!(matches!(&tokens[0], Token::Number(d) if d == "1234"));
    assert!(matches!(&tokens[1], Token::Number(d) if d == "007"));
    assert!(matches!(tokens[2], Token::EndOfFile));
}

#[test]
fn whitespace_is_skipped() {
    let tokens = tokenize(" \t\n ( ) ; = ").unwrap();
    assert!(matches!(tokens[0], Token::OpenParen));
    assert!(matches!(tokens[1], Token::CloseParen));
    assert!(matches!(tokens[2], Token::Semicolon));
    assert!(matches!(tokens[3], Token::Equals));
    assert!(matches!(tokens[4], Token::EndOfFile));
}

#[test]
fn unsupported_character_is_reported() {
    let error = tokenize("1 + !").unwrap_err();
    assert!(matches!(error, LexicalError::UnsupportedCharacter('!')));
}
