//! A tree holds what its tokens hold: a leaf for every operand, in the order
//! of the text, a unary node for every negation sign and a binary node for
//! every other connective.

use crate::lexer::{token_at, BracketType, OperatorType, Token};
use crate::parser::{
    binary, is_implication, is_junction, parse_all, parse_atom, parse_expr, parse_expr_rest,
    parse_factor, parse_term, parse_term_rest, remaining, Node, Parsed,
};
use crate::parser_lemmas::lemma_expr_sound;
use vstd::prelude::*;

verus! {

/// What a run of tokens or a tree holds: the truth values of its operands
/// from left to right, and how many negations and binary connectives.
pub struct Census {
    pub operands: Seq<bool>,
    pub negations: nat,
    pub binaries: nat,
}

impl Census {
    pub open spec fn nothing() -> Census {
        Census { operands: Seq::empty(), negations: 0, binaries: 0 }
    }

    /// What two runs hold, one after the other.
    pub open spec fn plus(self, other: Census) -> Census {
        Census {
            operands: self.operands + other.operands,
            negations: self.negations + other.negations,
            binaries: self.binaries + other.binaries,
        }
    }
}

/// What one token holds. A bracket holds nothing.
pub open spec fn census_of_token(token: Token) -> Census {
    match token {
        Token::Operand(value) => Census { operands: seq![value], negations: 0, binaries: 0 },
        Token::Operator(OperatorType::Non) => Census {
            operands: Seq::empty(),
            negations: 1,
            binaries: 0,
        },
        Token::Operator(_) => Census { operands: Seq::empty(), negations: 0, binaries: 1 },
        Token::Bracket(_) => Census::nothing(),
    }
}

/// What the tokens from `from` up to, and without, `to` hold.
pub open spec fn census_of_tokens(tokens: Seq<Token>, from: nat, to: nat) -> Census
    decreases to,
{
    if to <= from || to > tokens.len() {
        Census::nothing()
    } else {
        census_of_tokens(tokens, from, (to - 1) as nat).plus(
            census_of_token(tokens[to - 1]),
        )
    }
}

/// What a tree holds: its leaves from left to right, and the numbers of its
/// unary and of its binary nodes.
pub open spec fn census_of_tree(tree: Node) -> Census
    decreases tree,
{
    match tree {
        Node::Operand(value) => Census { operands: seq![value], negations: 0, binaries: 0 },
        Node::UnaryExpr { op, child } => Census {
            operands: Seq::empty(),
            negations: 1,
            binaries: 0,
        }.plus(census_of_tree(*child)),
        Node::BinaryExpr { op, lhs, rhs } => census_of_tree(*lhs).plus(
            Census { operands: Seq::empty(), negations: 0, binaries: 1 },
        ).plus(census_of_tree(*rhs)),
    }
}

proof fn lemma_plus_associates(a: Census, b: Census, c: Census)
    ensures
        a.plus(b).plus(c) == a.plus(b.plus(c)),
        a.plus(Census::nothing()) == a,
        Census::nothing().plus(a) == a,
{
    assert((a.operands + b.operands) + c.operands =~= a.operands + (b.operands + c.operands));
    assert(a.operands + Seq::<bool>::empty() =~= a.operands);
    assert(Seq::<bool>::empty() + a.operands =~= a.operands);
}

/// What a run holds is what its two parts hold.
proof fn lemma_census_splits(tokens: Seq<Token>, from: nat, mid: nat, to: nat)
    requires
        from <= mid <= to <= tokens.len(),
    ensures
        census_of_tokens(tokens, from, to) == census_of_tokens(tokens, from, mid).plus(
            census_of_tokens(tokens, mid, to),
        ),
    decreases to,
{
    if to == mid {
        lemma_plus_associates(census_of_tokens(tokens, from, mid), Census::nothing(), Census::nothing());
    } else {
        lemma_census_splits(tokens, from, mid, (to - 1) as nat);
        lemma_plus_associates(
            census_of_tokens(tokens, from, mid),
            census_of_tokens(tokens, mid, (to - 1) as nat),
            census_of_token(tokens[to - 1]),
        );
    }
}

/// What the run of one token holds.
proof fn lemma_census_of_one(tokens: Seq<Token>, at: nat)
    requires
        at < tokens.len(),
    ensures
        census_of_tokens(tokens, at, at + 1) == census_of_token(tokens[at as int]),
{
    lemma_plus_associates(census_of_token(tokens[at as int]), Census::nothing(), Census::nothing());
    assert(census_of_tokens(tokens, at, at) == Census::nothing());
}

/// What a run holds that starts with a token.
proof fn lemma_census_after_one(tokens: Seq<Token>, at: nat, to: nat)
    requires
        at < to <= tokens.len(),
    ensures
        census_of_tokens(tokens, at, to) == census_of_token(tokens[at as int]).plus(
            census_of_tokens(tokens, at + 1, to),
        ),
{
    lemma_census_splits(tokens, at, at + 1, to);
    lemma_census_of_one(tokens, at);
}

/// Whether the tree of a result holds what the tokens hold that it took.
pub open spec fn faithful(tokens: Seq<Token>, pos: nat, parsed: Parsed) -> bool {
    parsed.outcome matches Ok(tree) ==> census_of_tree(tree) == census_of_tokens(
        tokens,
        pos,
        pos + parsed.consumed,
    )
}

/// Whether the tree of the rest of a chain holds what the tree before it
/// holds and the tokens that the rest took.
pub open spec fn faithful_rest(tokens: Seq<Token>, pos: nat, lhs: Node, parsed: Parsed) -> bool {
    parsed.outcome matches Ok(tree) ==> census_of_tree(tree) == census_of_tree(lhs).plus(
        census_of_tokens(tokens, pos, pos + parsed.consumed),
    )
}

/// The step of a chain: the tree so far, a connective and the next operand.
proof fn lemma_rest_step(
    tokens: Seq<Token>,
    pos: nat,
    lhs: Node,
    op: OperatorType,
    rhs: Node,
    taken: nat,
    tree: Node,
    more: nat,
)
    requires
        pos + 1 + taken + more <= tokens.len(),
        tokens[pos as int] == Token::Operator(op),
        op != OperatorType::Non,
        census_of_tree(rhs) == census_of_tokens(tokens, pos + 1, pos + 1 + taken),
        census_of_tree(tree) == census_of_tree(binary(op, lhs, rhs)).plus(
            census_of_tokens(tokens, pos + 1 + taken, pos + 1 + taken + more),
        ),
    ensures
        census_of_tree(tree) == census_of_tree(lhs).plus(
            census_of_tokens(tokens, pos, pos + 1 + taken + more),
        ),
{
    let one = census_of_token(tokens[pos as int]);
    let first = census_of_tokens(tokens, pos + 1, pos + 1 + taken);
    let second = census_of_tokens(tokens, pos + 1 + taken, pos + 1 + taken + more);
    let left = census_of_tree(lhs);
    lemma_census_after_one(tokens, pos, pos + 1 + taken + more);
    lemma_census_splits(tokens, pos + 1, pos + 1 + taken, pos + 1 + taken + more);
    assert(census_of_tree(binary(op, lhs, rhs)) == left.plus(one).plus(first));
    lemma_plus_associates(left.plus(one), first, second);
    lemma_plus_associates(left, one, first.plus(second));
}

/// An atom holds what its tokens hold.
pub proof fn lemma_atom_faithful(tokens: Seq<Token>, pos: nat)
    ensures
        faithful(tokens, pos, parse_atom(tokens, pos)),
    decreases remaining(tokens, pos), 0nat,
{
    match token_at(tokens, pos) {
        Some(Token::Operand(value)) => {
            lemma_census_of_one(tokens, pos);
        },
        Some(Token::Bracket(BracketType::Left)) => {
            let inner = parse_expr(tokens, pos + 1);
            lemma_expr_faithful(tokens, pos + 1);
            lemma_expr_sound(tokens, pos + 1);
            let end = pos + 1 + inner.consumed;
            if token_at(tokens, end) == Some(Token::Bracket(BracketType::Right)) {
                if let Ok(tree) = inner.outcome {
                    lemma_census_after_one(tokens, pos, end + 1);
                    lemma_census_splits(tokens, pos + 1, end, end + 1);
                    lemma_census_of_one(tokens, end);
                    lemma_plus_associates(census_of_tree(tree), Census::nothing(), Census::nothing());
                }
            }
        },
        _ => {},
    }
}

/// A factor holds what its tokens hold.
pub proof fn lemma_factor_faithful(tokens: Seq<Token>, pos: nat)
    ensures
        faithful(tokens, pos, parse_factor(tokens, pos)),
    decreases remaining(tokens, pos), 1nat,
{
    if token_at(tokens, pos) == Some(Token::Operator(OperatorType::Non)) {
        let inner = parse_factor(tokens, pos + 1);
        lemma_factor_faithful(tokens, pos + 1);
        crate::parser_lemmas::lemma_factor_sound(tokens, pos + 1);
        if inner.outcome is Ok {
            lemma_census_after_one(tokens, pos, pos + 1 + inner.consumed);
        }
    } else {
        lemma_atom_faithful(tokens, pos);
    }
}

/// The rest of a term holds what the tree before it and its tokens hold.
pub proof fn lemma_term_rest_faithful(tokens: Seq<Token>, pos: nat, lhs: Node)
    requires
        pos <= tokens.len(),
        lhs.well_formed(),
    ensures
        faithful_rest(tokens, pos, lhs, parse_term_rest(tokens, pos, lhs)),
    decreases remaining(tokens, pos), 2nat,
{
    lemma_plus_associates(census_of_tree(lhs), Census::nothing(), Census::nothing());
    if let Some(Token::Operator(op)) = token_at(tokens, pos) {
        if is_implication(op) {
            let rhs = parse_factor(tokens, pos + 1);
            lemma_factor_faithful(tokens, pos + 1);
            crate::parser_lemmas::lemma_factor_sound(tokens, pos + 1);
            if let Ok(node) = rhs.outcome {
                let next = pos + 1 + rhs.consumed;
                let rest = parse_term_rest(tokens, next, binary(op, lhs, node));
                lemma_term_rest_faithful(tokens, next, binary(op, lhs, node));
                crate::parser_lemmas::lemma_term_rest_sound(tokens, next, binary(op, lhs, node));
                if let Ok(tree) = rest.outcome {
                    lemma_rest_step(tokens, pos, lhs, op, node, rhs.consumed, tree, rest.consumed);
                }
            }
        }
    }
}

/// A term holds what its tokens hold.
pub proof fn lemma_term_faithful(tokens: Seq<Token>, pos: nat)
    ensures
        faithful(tokens, pos, parse_term(tokens, pos)),
    decreases remaining(tokens, pos), 3nat,
{
    let first = parse_factor(tokens, pos);
    lemma_factor_faithful(tokens, pos);
    crate::parser_lemmas::lemma_factor_sound(tokens, pos);
    if let Ok(node) = first.outcome {
        if pos <= tokens.len() {
            let next = pos + first.consumed;
            let rest = parse_term_rest(tokens, next, node);
            lemma_term_rest_faithful(tokens, next, node);
            crate::parser_lemmas::lemma_term_rest_sound(tokens, next, node);
            if rest.outcome is Ok {
                lemma_census_splits(tokens, pos, next, next + rest.consumed);
            }
        } else {
            lemma_past_the_end(tokens, pos);
        }
    }
}

/// The rest of an expression holds what the tree before it and its tokens hold.
pub proof fn lemma_expr_rest_faithful(tokens: Seq<Token>, pos: nat, lhs: Node)
    requires
        pos <= tokens.len(),
        lhs.well_formed(),
    ensures
        faithful_rest(tokens, pos, lhs, parse_expr_rest(tokens, pos, lhs)),
    decreases remaining(tokens, pos), 4nat,
{
    lemma_plus_associates(census_of_tree(lhs), Census::nothing(), Census::nothing());
    if let Some(Token::Operator(op)) = token_at(tokens, pos) {
        if is_junction(op) {
            let rhs = parse_term(tokens, pos + 1);
            lemma_term_faithful(tokens, pos + 1);
            crate::parser_lemmas::lemma_term_sound(tokens, pos + 1);
            if let Ok(node) = rhs.outcome {
                let next = pos + 1 + rhs.consumed;
                let rest = parse_expr_rest(tokens, next, binary(op, lhs, node));
                lemma_expr_rest_faithful(tokens, next, binary(op, lhs, node));
                crate::parser_lemmas::lemma_expr_rest_sound(tokens, next, binary(op, lhs, node));
                if let Ok(tree) = rest.outcome {
                    lemma_rest_step(tokens, pos, lhs, op, node, rhs.consumed, tree, rest.consumed);
                }
            }
        }
    }
}

/// An expression holds what its tokens hold.
pub proof fn lemma_expr_faithful(tokens: Seq<Token>, pos: nat)
    ensures
        faithful(tokens, pos, parse_expr(tokens, pos)),
    decreases remaining(tokens, pos), 5nat,
{
    let first = parse_term(tokens, pos);
    lemma_term_faithful(tokens, pos);
    crate::parser_lemmas::lemma_term_sound(tokens, pos);
    if let Ok(node) = first.outcome {
        if pos <= tokens.len() {
            let next = pos + first.consumed;
            let rest = parse_expr_rest(tokens, next, node);
            lemma_expr_rest_faithful(tokens, next, node);
            crate::parser_lemmas::lemma_expr_rest_sound(tokens, next, node);
            if rest.outcome is Ok {
                lemma_census_splits(tokens, pos, next, next + rest.consumed);
            }
        } else {
            lemma_past_the_end(tokens, pos);
        }
    }
}

/// Past the end of the tokens nothing is an operand.
proof fn lemma_past_the_end(tokens: Seq<Token>, pos: nat)
    requires
        pos > tokens.len(),
    ensures
        parse_factor(tokens, pos).outcome is Err,
        parse_term(tokens, pos).outcome is Err,
{
    assert(token_at(tokens, pos) is None);
    assert(parse_atom(tokens, pos).outcome is Err);
    assert(parse_factor(tokens, pos) == parse_atom(tokens, pos));
}

/// The tree of a whole expression has a leaf for every operand of the
/// tokens, in their order, a unary node for every negation sign and a binary
/// node for every other connective, and nothing else.
pub proof fn lemma_tree_holds_the_tokens(tokens: Seq<Token>, tree: Node)
    requires
        parse_all(tokens, 0).outcome == Ok::<Node, crate::parser::ParseError>(tree),
    ensures
        census_of_tree(tree) == census_of_tokens(tokens, 0, tokens.len()),
        parse_all(tokens, 0).consumed == tokens.len(),
{
    lemma_expr_faithful(tokens, 0);
    lemma_expr_sound(tokens, 0);
}

} // verus!
