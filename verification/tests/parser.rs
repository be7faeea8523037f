use proplogic::lexer::{Lexer, OperatorType};
use proplogic::parser::{Node, ParseError, Parser};

#[test]
fn test_parser() {
    let lexer = Lexer::new(" ((true ∧ false) → true) ↔ false").unwrap();
    let mut parser = Parser::new(lexer);
    let node = parser.parse();
    println!("{:?}", node);
    assert!(node.is_ok());
}

#[test]
fn test_failed_parse() {
    let lexer = Lexer::new(" ((true ∧ false) → true) ↔").unwrap();
    let mut parser = Parser::new(lexer);
    let node = parser.parse();
    println!("{:?}", node);
    assert!(node.is_err());
}

#[test]
fn test_unary() {
    let lexer = Lexer::new("(¬true ∧ false) → true").unwrap();
    let mut parser = Parser::new(lexer);
    let node = parser.parse();
    println!("{:?}", node);
    assert!(node.is_ok());
}

#[test]
fn test_double_unary() {
    let lexer = Lexer::new("(¬¬true ∧ false) → true").unwrap();
    let mut parser = Parser::new(lexer);
    let node = parser.parse();
    println!("{:?}", node);
    assert!(node.is_ok());
}

fn parse(text: &str) -> Result<Node, ParseError> {
    Parser::new(Lexer::new(text).unwrap()).parse()
}

fn operand(value: bool) -> Node {
    Node::Operand(value)
}

fn not(child: Node) -> Node {
    Node::UnaryExpr { op: OperatorType::Non, child: Box::new(child) }
}

fn binary(op: OperatorType, lhs: Node, rhs: Node) -> Node {
    Node::BinaryExpr { op, lhs: Box::new(lhs), rhs: Box::new(rhs) }
}

#[test]
fn a_literal_is_a_leaf() {
    assert_eq!(parse("true"), Ok(operand(true)));
    assert_eq!(parse("false"), Ok(operand(false)));
    assert_eq!(parse("(true)"), Ok(operand(true)));
    assert_eq!(parse("((false))"), Ok(operand(false)));
}

#[test]
fn conjunctions_associate_to_the_left() {
    assert_eq!(
        parse("true ∧ false ∧ true"),
        Ok(binary(
            OperatorType::And,
            binary(OperatorType::And, operand(true), operand(false)),
            operand(true),
        ))
    );
    assert_eq!(
        parse("true ∨ false ∧ true"),
        Ok(binary(
            OperatorType::And,
            binary(OperatorType::Or, operand(true), operand(false)),
            operand(true),
        ))
    );
}

#[test]
fn implications_associate_to_the_left() {
    assert_eq!(
        parse("true → false → false"),
        Ok(binary(
            OperatorType::Conditional,
            binary(OperatorType::Conditional, operand(true), operand(false)),
            operand(false),
        ))
    );
    assert_eq!(
        parse("true ↔ false → false"),
        Ok(binary(
            OperatorType::Conditional,
            binary(OperatorType::BiConditional, operand(true), operand(false)),
            operand(false),
        ))
    );
}

#[test]
fn the_junction_chain_is_the_outer_one() {
    assert_eq!(
        parse("false ∧ true → false"),
        Ok(binary(
            OperatorType::And,
            operand(false),
            binary(OperatorType::Conditional, operand(true), operand(false)),
        ))
    );
    assert_eq!(
        parse("true → false ∨ true"),
        Ok(binary(
            OperatorType::Or,
            binary(OperatorType::Conditional, operand(true), operand(false)),
            operand(true),
        ))
    );
    assert_eq!(
        parse("(false ∧ true) → false"),
        Ok(binary(
            OperatorType::Conditional,
            binary(OperatorType::And, operand(false), operand(true)),
            operand(false),
        ))
    );
}

#[test]
fn negations_nest() {
    assert_eq!(parse("¬true"), Ok(not(operand(true))));
    assert_eq!(parse("¬¬true"), Ok(not(not(operand(true)))));
    assert_eq!(parse("¬¬¬false"), Ok(not(not(not(operand(false))))));
    assert_eq!(
        parse("¬(true ∧ false)"),
        Ok(not(binary(OperatorType::And, operand(true), operand(false))))
    );
    assert_eq!(
        parse("¬true ∧ false"),
        Ok(binary(OperatorType::And, not(operand(true)), operand(false)))
    );
    assert_eq!(
        parse("true → ¬false"),
        Ok(binary(OperatorType::Conditional, operand(true), not(operand(false))))
    );
}

#[test]
fn an_open_bracket_is_missing_its_partner() {
    assert_eq!(parse("(true ∧ false"), Err(ParseError::MissingBracket));
    assert_eq!(parse("(true"), Err(ParseError::MissingBracket));
    assert_eq!(parse("((true)"), Err(ParseError::MissingBracket));
    assert_eq!(parse("("), Err(ParseError::MissingBracket));
    assert_eq!(parse("(true ∧"), Err(ParseError::MissingBracket));
    assert_eq!(parse("(true ∧ (false ∨ true)"), Err(ParseError::MissingBracket));
}

#[test]
fn a_misplaced_token_does_not_match() {
    assert_eq!(parse("true ↔"), Err(ParseError::Unmatch));
    assert_eq!(parse("true ∧"), Err(ParseError::Unmatch));
    assert_eq!(parse(""), Err(ParseError::Unmatch));
    assert_eq!(parse("∧ true"), Err(ParseError::Unmatch));
    assert_eq!(parse("true false"), Err(ParseError::Unmatch));
    assert_eq!(parse("true ¬ false"), Err(ParseError::Unmatch));
    assert_eq!(parse("true (false)"), Err(ParseError::Unmatch));
    assert_eq!(parse("¬"), Err(ParseError::Unmatch));
    assert_eq!(parse("()"), Err(ParseError::Unmatch));
    assert_eq!(parse("(true ↔ )"), Err(ParseError::Unmatch));
    assert_eq!(parse(")"), Err(ParseError::Unmatch));
    assert_eq!(parse("(true true)"), Err(ParseError::Unmatch));
    assert_eq!(parse("(true true"), Err(ParseError::Unmatch));
    assert_eq!(parse("(true (false)"), Err(ParseError::Unmatch));
    assert_eq!(parse("(true ¬"), Err(ParseError::Unmatch));
}

#[test]
fn a_closing_bracket_that_closes_nothing_does_not_match() {
    assert_eq!(parse("true)"), Err(ParseError::Unmatch));
    assert_eq!(parse("true ) false"), Err(ParseError::Unmatch));
    assert_eq!(parse("(true))"), Err(ParseError::Unmatch));
    assert_eq!(parse("true ∧ false)"), Err(ParseError::Unmatch));
    assert_eq!(parse("(true ∧ false) → true)"), Err(ParseError::Unmatch));
    assert_eq!(parse("¬true) ∨ false"), Err(ParseError::Unmatch));
}

fn leaves(node: &Node, into: &mut Vec<bool>) {
    match node {
        Node::Operand(value) => into.push(*value),
        Node::UnaryExpr { child, .. } => leaves(child, into),
        Node::BinaryExpr { lhs, rhs, .. } => {
            leaves(lhs, into);
            leaves(rhs, into);
        }
    }
}

fn count_nodes(node: &Node) -> (usize, usize) {
    match node {
        Node::Operand(_) => (0, 0),
        Node::UnaryExpr { child, .. } => {
            let (unary, binary) = count_nodes(child);
            (unary + 1, binary)
        }
        Node::BinaryExpr { lhs, rhs, .. } => {
            let (lu, lb) = count_nodes(lhs);
            let (ru, rb) = count_nodes(rhs);
            (lu + ru, lb + rb + 1)
        }
    }
}

#[test]
fn a_tree_has_a_leaf_for_every_operand_and_a_node_for_every_connective() {
    let tree = parse("¬(true ∧ ¬false) → (false ∨ true ↔ ¬¬true)").unwrap();
    let mut found = Vec::new();
    leaves(&tree, &mut found);
    assert_eq!(found, vec![true, false, false, true, true]);
    assert_eq!(count_nodes(&tree), (4, 4));
}
