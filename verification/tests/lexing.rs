use jack::lexer::{tokenize, CharClass, Lexer, LexicalError};
use jack::token::Token;

fn number_of(token: &Token) -> f64 {
    match token {
        Token::Number(n) => f64::from_bits(n.to_bits()),
        other => panic!("not a number: {:?}", other),
    }
}

#[test]
fn punctuation_marks_are_tokens() {
    let tokens = tokenize(":,[]{}").unwrap();
    assert_eq!(tokens.len(), 6);
    assert!(matches!(tokens[0], (0, Token::Colon, 1)));
    assert!(matches!(tokens[1], (1, Token::Comma, 2)));
    assert!(matches!(tokens[2], (2, Token::LBracket, 3)));
    assert!(matches!(tokens[3], (3, Token::RBracket, 4)));
    assert!(matches!(tokens[4], (4, Token::LBrace, 5)));
    assert!(matches!(tokens[5], (5, Token::RBrace, 6)));
}

#[test]
fn reserved_names_and_identifiers() {
    let tokens = tokenize("null true false nul truex _a1 False").unwrap();
    assert_eq!(tokens.len(), 7);
    assert!(matches!(tokens[0], (0, Token::Null, 4)));
    assert!(matches!(tokens[1], (4, Token::True, 9)));
    assert!(matches!(tokens[2], (9, Token::False, 15)));
    match &tokens[3] {
        (15, Token::Identifier(name), 19) => assert_eq!(name, "nul"),
        other => panic!("unexpected: {:?}", other),
    }
    match &tokens[4] {
        (19, Token::Identifier(name), 25) => assert_eq!(name, "truex"),
        other => panic!("unexpected: {:?}", other),
    }
    match &tokens[5] {
        (25, Token::Identifier(name), 29) => assert_eq!(name, "_a1"),
        other => panic!("unexpected: {:?}", other),
    }
    match &tokens[6] {
        (29, Token::Identifier(name), 35) => assert_eq!(name, "False"),
        other => panic!("unexpected: {:?}", other),
    }
}

#[test]
fn numbers_are_read_as_far_as_they_go() {
    let cases: [(&str, f64, usize); 14] = [
        ("0", 0.0, 1),
        ("1", 1.0, 1),
        ("10", 10.0, 2),
        ("-1", -1.0, 2),
        ("3.14", 3.14, 4),
        ("1e10", 1e10, 4),
        ("1E10", 1e10, 4),
        ("1e-3", 1e-3, 4),
        ("2.5E+3", 2500.0, 6),
        ("0123", 0.0, 1),
        ("1.x", 1.0, 1),
        ("1e", 1.0, 1),
        ("1e+", 1.0, 1),
        ("-0.5e1,", -5.0, 6),
    ];
    for (source, expected, end) in cases {
        let mut lexer = Lexer::new(source);
        match lexer.next() {
            Some(Ok((0, token, reached))) => {
                assert_eq!(number_of(&token), expected, "{}", source);
                assert_eq!(reached, end, "{}", source);
            },
            other => panic!("unexpected for {}: {:?}", source, other),
        }
    }
}

#[test]
fn white_space_is_skipped_and_counted() {
    let tokens = tokenize(" \t[1,\r\n 2 ]\n").unwrap();
    assert_eq!(tokens.len(), 5);
    assert!(matches!(tokens[0], (0, Token::LBracket, 3)));
    assert!(matches!(tokens[1], (3, Token::Number(_), 4)));
    assert_eq!(number_of(&tokens[1].1), 1.0);
    assert!(matches!(tokens[2], (4, Token::Comma, 5)));
    assert!(matches!(tokens[3], (5, Token::Number(_), 9)));
    assert_eq!(number_of(&tokens[3].1), 2.0);
    assert!(matches!(tokens[4], (9, Token::RBracket, 11)));
}

#[test]
fn empty_and_blank_texts_have_no_tokens() {
    assert!(tokenize("").unwrap().is_empty());
    assert!(tokenize(" \n\t\r ").unwrap().is_empty());
    let mut lexer = Lexer::new("   ");
    assert!(lexer.next().is_none());
    assert!(lexer.next().is_none());
}

#[test]
fn unexpected_character_is_reported() {
    assert_eq!(tokenize("@").unwrap_err(), LexicalError::UnexpectedCharacter('@'));
    assert_eq!(tokenize("[1, \"a\"]").unwrap_err(), LexicalError::UnexpectedCharacter('"'));
    assert_eq!(tokenize("1 - 2").unwrap_err(), LexicalError::UnexpectedCharacter('-'));
    assert_eq!(tokenize("1.").unwrap_err(), LexicalError::UnexpectedCharacter('.'));
    assert_eq!(tokenize("a \u{e9}").unwrap_err(), LexicalError::UnexpectedCharacter('\u{e9}'));
    assert_eq!(tokenize("+1").unwrap_err(), LexicalError::UnexpectedCharacter('+'));
}

#[test]
fn lexer_stays_at_an_error() {
    let mut lexer = Lexer::new("a ? b");
    assert!(matches!(lexer.next(), Some(Ok((0, Token::Identifier(_), 1)))));
    assert!(matches!(lexer.next(), Some(Err(LexicalError::UnexpectedCharacter('?')))));
    assert!(matches!(lexer.next(), Some(Err(LexicalError::UnexpectedCharacter('?')))));
}

#[test]
fn character_classes() {
    for c in ['\t', '\n', '\r', ' '] {
        assert!(CharClass::Space.has(c));
    }
    assert!(!CharClass::Space.has('a'));
    assert!(!CharClass::Space.has('\u{a0}'));
    for c in ['0', '5', '9'] {
        assert!(CharClass::Digit.has(c));
        assert!(CharClass::Word.has(c));
    }
    assert!(!CharClass::Digit.has('a'));
    assert!(!CharClass::Digit.has('/'));
    assert!(!CharClass::Digit.has(':'));
    for c in ['a', 'z', 'A', 'Z', '_'] {
        assert!(CharClass::Word.has(c));
    }
    assert!(!CharClass::Word.has('-'));
    assert!(!CharClass::Word.has('\u{e9}'));
}
