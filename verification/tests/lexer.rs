use proplogic::lexer::{characters, BracketType, Lexer, LexerError, OperatorType, Token};

#[test]
fn test_lexer() {
    let mut lexer = Lexer::new("((true ∧ false) → true) ↔ false").unwrap();
    assert_eq!(lexer.next(), Some(&Token::Bracket(BracketType::Left)));
    assert_eq!(lexer.next(), Some(&Token::Bracket(BracketType::Left)));
    assert_eq!(lexer.next(), Some(&Token::Operand(true)));
    assert_eq!(lexer.next(), Some(&Token::Operator(OperatorType::And)));
    assert_eq!(lexer.next(), Some(&Token::Operand(false)));
    assert_eq!(lexer.next(), Some(&Token::Bracket(BracketType::Right)));
    assert_eq!(
        lexer.next(),
        Some(&Token::Operator(OperatorType::Conditional))
    );
    assert_eq!(lexer.next(), Some(&Token::Operand(true)));
    assert_eq!(lexer.next(), Some(&Token::Bracket(BracketType::Right)));
    assert_eq!(
        lexer.next(),
        Some(&Token::Operator(OperatorType::BiConditional))
    );
    assert_eq!(lexer.next(), Some(&Token::Operand(false)));
}

fn all_tokens(text: &str) -> Vec<Token> {
    let mut lexer = Lexer::new(text).unwrap();
    let mut tokens = Vec::new();
    while let Some(token) = lexer.next() {
        tokens.push(*token);
    }
    tokens
}

#[test]
fn every_glyph_is_one_token() {
    assert_eq!(
        all_tokens("¬∧∨→↔()"),
        vec![
            Token::Operator(OperatorType::Non),
            Token::Operator(OperatorType::And),
            Token::Operator(OperatorType::Or),
            Token::Operator(OperatorType::Conditional),
            Token::Operator(OperatorType::BiConditional),
            Token::Bracket(BracketType::Left),
            Token::Bracket(BracketType::Right),
        ]
    );
}

#[test]
fn spaces_are_skipped() {
    assert_eq!(all_tokens("   "), vec![]);
    assert_eq!(all_tokens(""), vec![]);
    assert_eq!(
        all_tokens("  true   false "),
        vec![Token::Operand(true), Token::Operand(false)]
    );
}

#[test]
fn keywords_next_to_glyphs() {
    assert_eq!(
        all_tokens("¬true∧(false)"),
        vec![
            Token::Operator(OperatorType::Non),
            Token::Operand(true),
            Token::Operator(OperatorType::And),
            Token::Bracket(BracketType::Left),
            Token::Operand(false),
            Token::Bracket(BracketType::Right),
        ]
    );
}

#[test]
fn a_word_that_is_no_keyword_is_rejected() {
    assert_eq!(Lexer::new("xyz").err(), Some(LexerError::OperandFormatError));
    assert_eq!(Lexer::new("truefalse").err(), Some(LexerError::OperandFormatError));
    assert_eq!(Lexer::new("tru").err(), Some(LexerError::OperandFormatError));
    assert_eq!(Lexer::new("truex ∧ true").err(), Some(LexerError::OperandFormatError));
    assert_eq!(Lexer::new("true ∧ fals").err(), Some(LexerError::OperandFormatError));
}

#[test]
fn an_unknown_character_is_rejected() {
    assert_eq!(Lexer::new("true # false").err(), Some(LexerError::UnknownChar));
    assert_eq!(Lexer::new("True").err(), Some(LexerError::UnknownChar));
    assert_eq!(Lexer::new("true\tfalse").err(), Some(LexerError::UnknownChar));
    assert_eq!(Lexer::new("A ∧ B").err(), Some(LexerError::UnknownChar));
}

#[test]
fn the_first_failure_from_the_left_wins() {
    assert_eq!(Lexer::new("# xyz").err(), Some(LexerError::UnknownChar));
    assert_eq!(Lexer::new("xyz #").err(), Some(LexerError::OperandFormatError));
}

#[test]
fn peek_does_not_advance() {
    let mut lexer = Lexer::new("true ∧").unwrap();
    assert_eq!(lexer.peek(), Some(&Token::Operand(true)));
    assert_eq!(lexer.peek(), Some(&Token::Operand(true)));
    assert_eq!(lexer.next(), Some(&Token::Operand(true)));
    assert_eq!(lexer.peek(), Some(&Token::Operator(OperatorType::And)));
    assert_eq!(lexer.next(), Some(&Token::Operator(OperatorType::And)));
    assert_eq!(lexer.peek(), None);
    assert_eq!(lexer.next(), None);
    assert_eq!(lexer.next(), None);
    assert_eq!(lexer.peek(), None);
}

#[test]
fn characters_are_counted_one_by_one() {
    assert_eq!(characters("¬a ↔ b"), vec!['¬', 'a', ' ', '↔', ' ', 'b']);
    assert_eq!(characters(""), vec![]);
}
