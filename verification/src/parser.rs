//! The grammar of expressions and the recursive-descent parser for it.
//!
//! ```text
//! Expr   := Term (('∧' | '∨') Term)*
//! Term   := Factor (('→' | '↔') Factor)*
//! Factor := '¬' Factor | Atom
//! Atom   := Operand | '(' Expr ')'
//! ```
//!
//! Both chains associate to the left. The connectives of a term bind
//! tighter than those of an expression: `a ∧ b → c` is `a ∧ (b → c)`, and it
//! takes brackets to make `∧` or `∨` an operand of `→` or `↔`.

use crate::lexer::{token_at, BracketType, Lexer, OperatorType, Token};
use crate::parser_lemmas::{
    chain_so_far, lemma_chain_end, lemma_chain_extend, lemma_chain_fails, lemma_chain_rejects,
    lemma_chain_start, lemma_expr_sound,
};
use vstd::prelude::*;

verus! {

/// Why a token sequence is no expression.
#[derive(Debug, Clone, Copy, PartialEq, Eq)]
pub enum ParseError {
    /// A bracket was opened and the token after its contents is no closing bracket.
    MissingBracket,
    /// A token stands where the grammar allows none, or the tokens end too early.
    Unmatch,
}

/// An expression tree. Every node owns its children.
#[derive(Debug, PartialEq)]
pub enum Node {
    Operand(bool),
    UnaryExpr { op: OperatorType, child: Box<Node> },
    BinaryExpr { op: OperatorType, lhs: Box<Node>, rhs: Box<Node> },
}

impl Node {
    /// A unary node carries the negation, a binary node one of the four
    /// binary connectives, all the way down.
    pub open spec fn well_formed(self) -> bool
        decreases self,
    {
        match self {
            Node::Operand(_) => true,
            Node::UnaryExpr { op, child } => op == OperatorType::Non && child.well_formed(),
            Node::BinaryExpr { op, lhs, rhs } => op != OperatorType::Non && lhs.well_formed()
                && rhs.well_formed(),
        }
    }
}

/// What parsing from some position gives: the tree or the failure, and the
/// number of tokens that the cursor moved.
pub struct Parsed {
    pub outcome: Result<Node, ParseError>,
    pub consumed: nat,
}

impl Parsed {
    /// The same outcome after `n` more tokens in front of it.
    pub open spec fn after(self, n: nat) -> Parsed {
        Parsed { outcome: self.outcome, consumed: n + self.consumed }
    }
}

/// The connectives of the outer chain.
pub open spec fn is_junction(op: OperatorType) -> bool {
    op == OperatorType::And || op == OperatorType::Or
}

/// The connectives of the inner chain.
pub open spec fn is_implication(op: OperatorType) -> bool {
    op == OperatorType::Conditional || op == OperatorType::BiConditional
}

/// The tokens between `pos` and the end; zero past the end.
pub open spec fn remaining(tokens: Seq<Token>, pos: nat) -> nat {
    if pos <= tokens.len() {
        (tokens.len() - pos) as nat
    } else {
        0
    }
}

pub open spec fn negation(child: Node) -> Node {
    Node::UnaryExpr { op: OperatorType::Non, child: Box::new(child) }
}

pub open spec fn binary(op: OperatorType, lhs: Node, rhs: Node) -> Node {
    Node::BinaryExpr { op, lhs: Box::new(lhs), rhs: Box::new(rhs) }
}

/// `Atom := Operand | '(' Expr ')'`.
///
/// A closing bracket after the contents of a bracket is taken, and the
/// result is that of the contents. Where the tokens end before the bracket
/// is closed, the bracket is missing. Where another token stands there, the
/// contents have failed at it, and their failure is the result.
pub open spec fn parse_atom(tokens: Seq<Token>, pos: nat) -> Parsed
    decreases remaining(tokens, pos), 0nat,
{
    match token_at(tokens, pos) {
        Some(Token::Operand(value)) => Parsed { outcome: Ok(Node::Operand(value)), consumed: 1 },
        Some(Token::Bracket(BracketType::Left)) => {
            let inner = parse_expr(tokens, pos + 1);
            match token_at(tokens, pos + 1 + inner.consumed) {
                Some(Token::Bracket(BracketType::Right)) => Parsed {
                    outcome: inner.outcome,
                    consumed: 1 + inner.consumed + 1,
                },
                Some(_) => Parsed {
                    outcome: match inner.outcome {
                        Ok(_) => Err(ParseError::MissingBracket),
                        Err(e) => Err(e),
                    },
                    consumed: 1 + inner.consumed,
                },
                None => Parsed {
                    outcome: Err(ParseError::MissingBracket),
                    consumed: 1 + inner.consumed,
                },
            }
        },
        _ => Parsed { outcome: Err(ParseError::Unmatch), consumed: 0 },
    }
}

/// `Factor := '¬' Factor | Atom`.
pub open spec fn parse_factor(tokens: Seq<Token>, pos: nat) -> Parsed
    decreases remaining(tokens, pos), 1nat,
{
    match token_at(tokens, pos) {
        Some(Token::Operator(OperatorType::Non)) => {
            let inner = parse_factor(tokens, pos + 1);
            Parsed {
                outcome: match inner.outcome {
                    Ok(child) => Ok(negation(child)),
                    Err(e) => Err(e),
                },
                consumed: 1 + inner.consumed,
            }
        },
        _ => parse_atom(tokens, pos),
    }
}

/// The rest of a term, `(('→' | '↔') Factor)*`, with `lhs` for what was
/// parsed so far. The chain ends before `∧`, `∨`, a closing bracket and the
/// end of the tokens; any other token does not match.
pub open spec fn parse_term_rest(tokens: Seq<Token>, pos: nat, lhs: Node) -> Parsed
    decreases remaining(tokens, pos), 2nat,
{
    match token_at(tokens, pos) {
        Some(Token::Operator(op)) => {
            if is_implication(op) {
                let rhs = parse_factor(tokens, pos + 1);
                match rhs.outcome {
                    Ok(node) => parse_term_rest(
                        tokens,
                        pos + 1 + rhs.consumed,
                        binary(op, lhs, node),
                    ).after(1 + rhs.consumed),
                    Err(e) => Parsed { outcome: Err(e), consumed: 1 + rhs.consumed },
                }
            } else if is_junction(op) {
                Parsed { outcome: Ok(lhs), consumed: 0 }
            } else {
                Parsed { outcome: Err(ParseError::Unmatch), consumed: 0 }
            }
        },
        Some(Token::Bracket(BracketType::Right)) | None => Parsed { outcome: Ok(lhs), consumed: 0 },
        _ => Parsed { outcome: Err(ParseError::Unmatch), consumed: 0 },
    }
}

/// `Term := Factor (('→' | '↔') Factor)*`.
pub open spec fn parse_term(tokens: Seq<Token>, pos: nat) -> Parsed
    decreases remaining(tokens, pos), 3nat,
{
    let first = parse_factor(tokens, pos);
    match first.outcome {
        Ok(node) => parse_term_rest(tokens, pos + first.consumed, node).after(first.consumed),
        Err(_) => first,
    }
}

/// The rest of an expression, `(('∧' | '∨') Term)*`, with `lhs` for what was
/// parsed so far. The chain ends before a closing bracket and the end of the
/// tokens; any other token does not match.
pub open spec fn parse_expr_rest(tokens: Seq<Token>, pos: nat, lhs: Node) -> Parsed
    decreases remaining(tokens, pos), 4nat,
{
    match token_at(tokens, pos) {
        Some(Token::Operator(op)) => {
            if is_junction(op) {
                let rhs = parse_term(tokens, pos + 1);
                match rhs.outcome {
                    Ok(node) => parse_expr_rest(
                        tokens,
                        pos + 1 + rhs.consumed,
                        binary(op, lhs, node),
                    ).after(1 + rhs.consumed),
                    Err(e) => Parsed { outcome: Err(e), consumed: 1 + rhs.consumed },
                }
            } else {
                Parsed { outcome: Err(ParseError::Unmatch), consumed: 0 }
            }
        },
        Some(Token::Bracket(BracketType::Right)) | None => Parsed { outcome: Ok(lhs), consumed: 0 },
        _ => Parsed { outcome: Err(ParseError::Unmatch), consumed: 0 },
    }
}

/// `Expr := Term (('∧' | '∨') Term)*`.
pub open spec fn parse_expr(tokens: Seq<Token>, pos: nat) -> Parsed
    decreases remaining(tokens, pos), 5nat,
{
    let first = parse_term(tokens, pos);
    match first.outcome {
        Ok(node) => parse_expr_rest(tokens, pos + first.consumed, node).after(first.consumed),
        Err(_) => first,
    }
}

/// A whole expression: `Expr`, and no token after it. A token that is left
/// over, which can only be a closing bracket that closes nothing, does not
/// match.
pub open spec fn parse_all(tokens: Seq<Token>, pos: nat) -> Parsed {
    let parsed = parse_expr(tokens, pos);
    if parsed.outcome is Ok && token_at(tokens, pos + parsed.consumed) is Some {
        Parsed { outcome: Err(ParseError::Unmatch), consumed: parsed.consumed }
    } else {
        parsed
    }
}

/// A recursive-descent parser over the tokens of a lexer.
pub struct Parser {
    lexer: Lexer,
}

impl Parser {
    /// The tokens that the parser reads.
    pub closed spec fn tokens(&self) -> Seq<Token> {
        self.lexer.tokens()
    }

    /// The index of the next token to be read.
    pub closed spec fn position(&self) -> nat {
        self.lexer.position()
    }

    pub fn new(lexer: Lexer) -> (parser: Parser)
        ensures
            parser.tokens() == lexer.tokens(),
            parser.position() == lexer.position(),
    {
        Parser { lexer }
    }

    /// Parses the tokens from the cursor on as one expression. It succeeds
    /// only where the tokens end with the expression, and then the cursor
    /// stands at their end. On a failure the cursor stands where the grammar
    /// stopped reading.
    pub fn parse(&mut self) -> (tree: Result<Node, ParseError>)
        ensures
            final(self).tokens() == old(self).tokens(),
            tree == parse_all(old(self).tokens(), old(self).position()).outcome,
            final(self).position() == old(self).position() + parse_all(
                old(self).tokens(),
                old(self).position(),
            ).consumed,
            tree matches Ok(node) ==> node.well_formed() && final(self).position() == old(
                self,
            ).tokens().len(),
    {
        proof {
            lemma_expr_sound(self.tokens(), self.position());
        }
        match self.expr() {
            Ok(node) => match self.lookahead() {
                Some(_) => Err(ParseError::Unmatch),
                None => Ok(node),
            },
            Err(e) => Err(e),
        }
    }

    /// The token under the cursor, by value.
    fn lookahead(&mut self) -> (token: Option<Token>)
        ensures
            *final(self) == *old(self),
            token == token_at(old(self).tokens(), old(self).position()),
            old(self).position() <= old(self).tokens().len(),
    {
        match self.lexer.peek() {
            Some(t) => Some(*t),
            None => None,
        }
    }

    fn expr(&mut self) -> (tree: Result<Node, ParseError>)
        ensures
            final(self).tokens() == old(self).tokens(),
            tree == parse_expr(old(self).tokens(), old(self).position()).outcome,
            final(self).position() == old(self).position() + parse_expr(
                old(self).tokens(),
                old(self).position(),
            ).consumed,
        decreases remaining(old(self).tokens(), old(self).position()), 5nat,
    {
        let ghost tokens = self.tokens();
        let ghost start = self.position();
        let mut lhs = match self.term() {
            Ok(node) => node,
            Err(e) => {
                return Err(e);
            },
        };
        proof {
            lemma_chain_start(tokens, start, lhs, (self.position() - start) as nat);
        }
        loop
            invariant
                tokens == old(self).tokens(),
                start == old(self).position(),
                self.tokens() == tokens,
                start <= self.position(),
                chain_so_far(tokens, start, (self.position() - start) as nat, lhs),
                remaining(tokens, self.position()) <= remaining(tokens, start),
            decreases remaining(tokens, self.position()),
        {
            let ghost done = (self.position() - start) as nat;
            let ghost before = lhs;
            let op = match self.lookahead() {
                Some(Token::Operator(OperatorType::And)) => OperatorType::And,
                Some(Token::Operator(OperatorType::Or)) => OperatorType::Or,
                Some(Token::Bracket(BracketType::Right)) | None => {
                    proof {
                        lemma_chain_end(tokens, start, done, lhs);
                    }
                    return Ok(lhs);
                },
                _ => {
                    proof {
                        lemma_chain_rejects(tokens, start, done, lhs);
                    }
                    return Err(ParseError::Unmatch);
                },
            };
            self.lexer.next();
            let rhs = match self.term() {
                Ok(node) => node,
                Err(e) => {
                    proof {
                        lemma_chain_fails(tokens, start, done, lhs, op, e);
                    }
                    return Err(e);
                },
            };
            lhs = Node::BinaryExpr { op, lhs: Box::new(lhs), rhs: Box::new(rhs) };
            proof {
                lemma_chain_extend(
                    tokens,
                    start,
                    done,
                    before,
                    op,
                    rhs,
                    (self.position() - start - done - 1) as nat,
                );
            }
        }
    }

    fn term(&mut self) -> (tree: Result<Node, ParseError>)
        ensures
            final(self).tokens() == old(self).tokens(),
            tree == parse_term(old(self).tokens(), old(self).position()).outcome,
            final(self).position() == old(self).position() + parse_term(
                old(self).tokens(),
                old(self).position(),
            ).consumed,
        decreases remaining(old(self).tokens(), old(self).position()), 3nat,
    {
        let ghost tokens = self.tokens();
        let ghost start = self.position();
        let mut lhs = match self.factor() {
            Ok(node) => node,
            Err(e) => {
                return Err(e);
            },
        };
        loop
            invariant
                tokens == old(self).tokens(),
                start == old(self).position(),
                self.tokens() == tokens,
                start <= self.position(),
                parse_term(tokens, start) == parse_term_rest(tokens, self.position(), lhs).after(
                    (self.position() - start) as nat,
                ),
                remaining(tokens, self.position()) <= remaining(tokens, start),
            decreases remaining(tokens, self.position()),
        {
            let op = match self.lookahead() {
                Some(Token::Operator(OperatorType::Conditional)) => OperatorType::Conditional,
                Some(Token::Operator(OperatorType::BiConditional)) => OperatorType::BiConditional,
                Some(Token::Operator(OperatorType::And))
                | Some(Token::Operator(OperatorType::Or))
                | Some(Token::Bracket(BracketType::Right))
                | None => {
                    return Ok(lhs);
                },
                _ => {
                    return Err(ParseError::Unmatch);
                },
            };
            self.lexer.next();
            let rhs = match self.factor() {
                Ok(node) => node,
                Err(e) => {
                    return Err(e);
                },
            };
            lhs = Node::BinaryExpr { op, lhs: Box::new(lhs), rhs: Box::new(rhs) };
        }
    }

    fn factor(&mut self) -> (tree: Result<Node, ParseError>)
        ensures
            final(self).tokens() == old(self).tokens(),
            tree == parse_factor(old(self).tokens(), old(self).position()).outcome,
            final(self).position() == old(self).position() + parse_factor(
                old(self).tokens(),
                old(self).position(),
            ).consumed,
        decreases remaining(old(self).tokens(), old(self).position()), 1nat,
    {
        match self.lookahead() {
            Some(Token::Operator(OperatorType::Non)) => {
                self.lexer.next();
                match self.factor() {
                    Ok(child) => Ok(Node::UnaryExpr { op: OperatorType::Non, child: Box::new(child) }),
                    Err(e) => Err(e),
                }
            },
            _ => self.atom(),
        }
    }

    fn atom(&mut self) -> (tree: Result<Node, ParseError>)
        ensures
            final(self).tokens() == old(self).tokens(),
            tree == parse_atom(old(self).tokens(), old(self).position()).outcome,
            final(self).position() == old(self).position() + parse_atom(
                old(self).tokens(),
                old(self).position(),
            ).consumed,
        decreases remaining(old(self).tokens(), old(self).position()), 0nat,
    {
        match self.lookahead() {
            Some(Token::Operand(value)) => {
                self.lexer.next();
                Ok(Node::Operand(value))
            },
            Some(Token::Bracket(BracketType::Left)) => {
                self.lexer.next();
                let inner = self.expr();
                match self.lookahead() {
                    Some(Token::Bracket(BracketType::Right)) => {
                        self.lexer.next();
                        inner
                    },
                    Some(_) => match inner {
                        Ok(_) => Err(ParseError::MissingBracket),
                        Err(e) => Err(e),
                    },
                    None => Err(ParseError::MissingBracket),
                }
            },
            _ => Err(ParseError::Unmatch),
        }
    }
}

} // verus!
