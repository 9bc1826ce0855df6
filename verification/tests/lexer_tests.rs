use boolmin::lexer::{EqLexer, Token};

#[test]
fn lexer_test_basics() {
    assert_eq!(
        EqLexer::new("a + b".to_string()).get_tokens(),
        Ok(vec![
            Token::Ident("a".to_string()),
            Token::Or,
            Token::Ident("b".to_string()),
        ])
    );
    assert_eq!(
        EqLexer::new("I & !B | (A + B) and (c + a./y)".to_string()).get_tokens(),
        Ok(vec![
            Token::Ident("I".to_string()),
            Token::And,
            Token::Not,
            Token::Ident("B".to_string()),
            Token::Or,
            Token::LParen,
            Token::Ident("A".to_string()),
            Token::Or,
            Token::Ident("B".to_string()),
            Token::RParen,
            Token::And,
            Token::LParen,
            Token::Ident("c".to_string()),
            Token::Or,
            Token::Ident("a".to_string()),
            Token::And,
            Token::Not,
            Token::Ident("y".to_string()),
            Token::RParen,
        ])
    );
}

#[test]
fn lexer_test_whitespace_ignored() {
    // inserting whitespace between tokens leaves the token stream alone
    assert_eq!(
        EqLexer::new("a+b".to_string()).get_tokens(),
        EqLexer::new(" a \t+\n b ".to_string()).get_tokens()
    );
}

#[test]
fn lexer_test_bad_character() {
    assert_eq!(EqLexer::new("a + %b".to_string()).get_tokens(), Err('%'));
}

#[test]
fn lexer_test_keywords_and_digits() {
    assert_eq!(
        EqLexer::new("x2 or not y and 1 0".to_string()).get_tokens(),
        Ok(vec![
            Token::Ident("x2".to_string()),
            Token::Or,
            Token::Not,
            Token::Ident("y".to_string()),
            Token::And,
            Token::True,
            Token::False,
        ])
    );
}
