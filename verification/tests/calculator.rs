use proplogic::calculator::{Calculator, SyntaxError};
use proplogic::lexer::LexerError;
use proplogic::parser::ParseError;

#[test]
fn test_calculator() {
    let result = Calculator::build("((true ∧ false) → true) ↔ true").eval();
    assert!(result);
}

fn value(text: &str) -> bool {
    Calculator::build(text).eval()
}

#[test]
fn literals_evaluate_to_themselves() {
    assert!(value("true"));
    assert!(!value("false"));
}

#[test]
fn negation_inverts() {
    assert!(!value("¬true"));
    assert!(value("¬false"));
    assert!(value("¬¬true"));
    assert!(!value("¬¬false"));
    assert!(!value("¬¬¬true"));
    assert!(value("¬(true ∧ false)"));
}

#[test]
fn conjunction_table() {
    assert!(!value("false ∧ false"));
    assert!(!value("false ∧ true"));
    assert!(!value("true ∧ false"));
    assert!(value("true ∧ true"));
}

#[test]
fn disjunction_table() {
    assert!(!value("false ∨ false"));
    assert!(value("false ∨ true"));
    assert!(value("true ∨ false"));
    assert!(value("true ∨ true"));
}

#[test]
fn implication_table() {
    assert!(value("false → false"));
    assert!(value("false → true"));
    assert!(!value("true → false"));
    assert!(value("true → true"));
}

#[test]
fn biconditional_table() {
    assert!(value("false ↔ false"));
    assert!(!value("false ↔ true"));
    assert!(!value("true ↔ false"));
    assert!(value("true ↔ true"));
}

#[test]
fn grouping_decides_the_value() {
    assert!(!value("false ∧ true → false"));
    assert!(value("(false ∧ true) → false"));
    assert!(!value("false ∧ (true → false)"));
    assert!(value("true → false → false"));
    assert!(value("true → (false → false)"));
    assert!(!value("false → false → false"));
    assert!(value("false → (false → false)"));
}

#[test]
fn evaluating_twice_gives_the_same_value() {
    let mut calculator = Calculator::build("(true → false) ∨ ¬false");
    let first = calculator.eval();
    let second = calculator.eval();
    assert!(first);
    assert_eq!(first, second);
    assert_eq!(value("true ↔ ¬true"), value("true ↔ ¬true"));
}

#[test]
fn try_build_names_the_failing_stage() {
    assert_eq!(
        Calculator::try_build("xyz").err(),
        Some(SyntaxError::Lex(LexerError::OperandFormatError))
    );
    assert_eq!(
        Calculator::try_build("true # false").err(),
        Some(SyntaxError::Lex(LexerError::UnknownChar))
    );
    assert_eq!(
        Calculator::try_build("(true ∧ false").err(),
        Some(SyntaxError::Parse(ParseError::MissingBracket))
    );
    assert_eq!(
        Calculator::try_build("true ↔").err(),
        Some(SyntaxError::Parse(ParseError::Unmatch))
    );
    assert_eq!(
        Calculator::try_build("true) false").err(),
        Some(SyntaxError::Parse(ParseError::Unmatch))
    );
    assert_eq!(
        Calculator::try_build("(true true)").err(),
        Some(SyntaxError::Parse(ParseError::Unmatch))
    );
    let mut calculator = Calculator::try_build("true ∧ ¬false").ok().unwrap();
    assert!(calculator.eval());
}
