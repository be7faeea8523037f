//! Evaluation of expression trees, and the whole way from text to truth value.

use crate::lexer::{tokenize, Lexer, LexerError, OperatorType};
use crate::parser::{parse_all, Node, ParseError, Parser};
use vstd::prelude::*;

verus! {

/// The stage at which a text failed to become a tree.
#[derive(Debug, Clone, Copy, PartialEq, Eq)]
pub enum SyntaxError {
    Lex(LexerError),
    Parse(ParseError),
}

/// The truth value of a tree.
///
/// Negation inverts, `∧` and `∨` are conjunction and disjunction, `→` is
/// material implication and `↔` is equality of the two sides. On a tree that
/// is not well formed, a unary node with another connective passes its
/// child's value on and a binary negation is false.
pub open spec fn evaluate(node: Node) -> bool
    decreases node,
{
    match node {
        Node::Operand(value) => value,
        Node::UnaryExpr { op, child } => {
            if op == OperatorType::Non {
                !evaluate(*child)
            } else {
                evaluate(*child)
            }
        },
        Node::BinaryExpr { op, lhs, rhs } => match op {
            OperatorType::And => evaluate(*lhs) && evaluate(*rhs),
            OperatorType::Or => evaluate(*lhs) || evaluate(*rhs),
            OperatorType::Conditional => !evaluate(*lhs) || evaluate(*rhs),
            OperatorType::BiConditional => evaluate(*lhs) == evaluate(*rhs),
            OperatorType::Non => false,
        },
    }
}

/// The tree of a text: all its tokens, parsed as one expression.
pub open spec fn analyse(text: Seq<char>) -> Result<Node, SyntaxError> {
    match tokenize(text) {
        Ok(tokens) => match parse_all(tokens, 0).outcome {
            Ok(tree) => Ok(tree),
            Err(e) => Err(SyntaxError::Parse(e)),
        },
        Err(e) => Err(SyntaxError::Lex(e)),
    }
}

/// The truth value of a text, where it has a tree.
pub open spec fn truth_value(text: Seq<char>) -> Option<bool> {
    match analyse(text) {
        Ok(tree) => Some(evaluate(tree)),
        Err(_) => None,
    }
}

/// An expression that was lexed and parsed and can be evaluated.
pub struct Calculator {
    ast: Node,
}

impl Calculator {
    /// The tree that the calculator holds.
    pub closed spec fn tree(&self) -> Node {
        self.ast
    }

    /// Lexes and parses `expr`, and says which stage failed if one did.
    pub fn try_build(expr: &str) -> (built: Result<Calculator, SyntaxError>)
        ensures
            analyse(expr@) == match built {
                Ok(calculator) => Ok::<Node, SyntaxError>(calculator.tree()),
                Err(e) => Err::<Node, SyntaxError>(e),
            },
    {
        let lexer = match Lexer::new(expr) {
            Ok(lexer) => lexer,
            Err(e) => {
                return Err(SyntaxError::Lex(e));
            },
        };
        let mut parser = Parser::new(lexer);
        match parser.parse() {
            Ok(ast) => Ok(Calculator { ast }),
            Err(e) => Err(SyntaxError::Parse(e)),
        }
    }

    /// Lexes and parses a text that is an expression.
    pub fn build(expr: &str) -> (calculator: Self)
        requires
            analyse(expr@) is Ok,
        ensures
            analyse(expr@) == Ok::<Node, SyntaxError>(calculator.tree()),
    {
        let lexer = Lexer::new(expr).unwrap();
        let mut parser = Parser::new(lexer);
        Calculator { ast: parser.parse().unwrap() }
    }

    /// The truth value of the expression. The calculator stays as it is.
    pub fn eval(&mut self) -> (value: bool)
        ensures
            *final(self) == *old(self),
            value == evaluate(old(self).tree()),
    {
        Self::eval_helper(&self.ast)
    }

    fn eval_helper(node: &Node) -> (value: bool)
        ensures
            value == evaluate(*node),
        decreases node,
    {
        match node {
            Node::Operand(n) => *n,
            Node::UnaryExpr { op, child } => {
                let child = Self::eval_helper(child);
                match op {
                    OperatorType::Non => !child,
                    _ => child,
                }
            },
            Node::BinaryExpr { op, lhs, rhs } => {
                let lhs_ret = Self::eval_helper(lhs);
                let rhs_ret = Self::eval_helper(rhs);
                match op {
                    OperatorType::And => lhs_ret && rhs_ret,
                    OperatorType::Or => lhs_ret || rhs_ret,
                    OperatorType::Conditional => (!lhs_ret) || rhs_ret,
                    OperatorType::BiConditional => lhs_ret == rhs_ret,
                    _ => false,
                }
            },
        }
    }
}

} // verus!
