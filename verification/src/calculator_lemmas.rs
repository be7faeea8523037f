//! Laws of evaluation: the value of a text is a function of the text, and
//! the connectives between two literals mean what their truth tables say.

use crate::calculator::{analyse, evaluate, truth_value, Calculator, SyntaxError};
use crate::lexer::{keyword_text, tokenize, LexerError, OperatorType, Token};
use crate::lexer_lemmas::{lemma_tokenize_char, lemma_tokenize_concat, lemma_tokenize_keyword};
use crate::parser::{
    binary, negation, parse_atom, parse_expr, parse_expr_rest, parse_factor, parse_term,
    parse_term_rest, Node, Parsed,
};
use crate::parser_lemmas::{lemma_binary_expression, lemma_negated_operand_term};
use vstd::prelude::*;

verus! {

/// Evaluation is deterministic: two calculators built from the same text
/// hold the same tree and give the same value.
pub proof fn lemma_same_text_same_value(text: Seq<char>, first: Calculator, second: Calculator)
    requires
        analyse(text) == Ok::<Node, SyntaxError>(first.tree()),
        analyse(text) == Ok::<Node, SyntaxError>(second.tree()),
    ensures
        first.tree() == second.tree(),
        evaluate(first.tree()) == evaluate(second.tree()),
        truth_value(text) == Some(evaluate(first.tree())),
{
}

/// The glyph of a connective.
pub open spec fn glyph(op: OperatorType) -> char {
    match op {
        OperatorType::Non => '¬',
        OperatorType::And => '∧',
        OperatorType::Or => '∨',
        OperatorType::Conditional => '→',
        OperatorType::BiConditional => '↔',
    }
}

/// What a binary connective makes of two truth values.
pub open spec fn connect(op: OperatorType, p: bool, q: bool) -> bool {
    match op {
        OperatorType::And => p && q,
        OperatorType::Or => p || q,
        OperatorType::Conditional => !p || q,
        OperatorType::BiConditional => p == q,
        OperatorType::Non => false,
    }
}

/// The text of two literals with a binary connective between them, spaced: `p op q`.
pub open spec fn binary_text(p: bool, op: OperatorType, q: bool) -> Seq<char> {
    keyword_text(p) + seq![' ', glyph(op), ' '] + keyword_text(q)
}

/// The tokens of `p op q`.
pub proof fn lemma_binary_text_tokens(p: bool, op: OperatorType, q: bool)
    requires
        op != OperatorType::Non,
    ensures
        tokenize(binary_text(p, op, q)) == Ok::<Seq<Token>, LexerError>(
            seq![Token::Operand(p), Token::Operator(op), Token::Operand(q)],
        ),
{
    let space = seq![' '];
    let sign = seq![glyph(op)];
    let left = keyword_text(p);
    let right = keyword_text(q);
    assert(binary_text(p, op, q) =~= (((left + space) + sign) + space) + right);
    lemma_tokenize_keyword(p);
    lemma_tokenize_keyword(q);
    lemma_tokenize_char(' ');
    lemma_tokenize_char(glyph(op));
    lemma_tokenize_concat(left, space);
    assert(tokenize(left + space) == Ok::<Seq<Token>, LexerError>(seq![Token::Operand(p)])) by {
        assert(seq![Token::Operand(p)] + Seq::<Token>::empty() =~= seq![Token::Operand(p)]);
    }
    lemma_tokenize_concat(left + space, sign);
    let two = seq![Token::Operand(p), Token::Operator(op)];
    assert(tokenize((left + space) + sign) == Ok::<Seq<Token>, LexerError>(two)) by {
        assert(seq![Token::Operand(p)] + seq![Token::Operator(op)] =~= two);
    }
    lemma_tokenize_concat((left + space) + sign, space);
    assert(tokenize(((left + space) + sign) + space) == Ok::<Seq<Token>, LexerError>(two)) by {
        assert(two + Seq::<Token>::empty() =~= two);
    }
    lemma_tokenize_concat(((left + space) + sign) + space, right);
    assert(two + seq![Token::Operand(q)] =~= seq![
        Token::Operand(p),
        Token::Operator(op),
        Token::Operand(q),
    ]);
}

/// The value of a text whose tokens are an expression that takes all of them.
pub proof fn lemma_truth_value(text: Seq<char>, tokens: Seq<Token>, tree: Node)
    requires
        tokenize(text) == Ok::<Seq<Token>, LexerError>(tokens),
        parse_expr(tokens, 0) == (Parsed { outcome: Ok(tree), consumed: tokens.len() }),
    ensures
        analyse(text) == Ok::<Node, SyntaxError>(tree),
        truth_value(text) == Some(evaluate(tree)),
{
}

/// The value of a binary node over two leaves.
proof fn lemma_connect(p: bool, op: OperatorType, q: bool)
    ensures
        evaluate(binary(op, Node::Operand(p), Node::Operand(q))) == connect(op, p, q),
{
    reveal_with_fuel(evaluate, 2);
}

/// The value of `p op q` is what the connective makes of `p` and `q`.
pub proof fn lemma_binary_text_value(p: bool, op: OperatorType, q: bool)
    requires
        op != OperatorType::Non,
    ensures
        truth_value(binary_text(p, op, q)) == Some(connect(op, p, q)),
{
    lemma_binary_text_tokens(p, op, q);
    lemma_binary_expression(p, op, q);
    lemma_connect(p, op, q);
    lemma_truth_value(
        binary_text(p, op, q),
        seq![Token::Operand(p), Token::Operator(op), Token::Operand(q)],
        binary(op, Node::Operand(p), Node::Operand(q)),
    );
}

/// `p ↔ q` is true just where `p` and `q` are the same.
pub proof fn lemma_biconditional_is_equality(p: bool, q: bool)
    ensures
        truth_value(binary_text(p, OperatorType::BiConditional, q)) == Some(p == q),
{
    lemma_binary_text_value(p, OperatorType::BiConditional, q);
}

/// `p → q` is false just where `p` is true and `q` is false.
pub proof fn lemma_conditional_is_material(p: bool, q: bool)
    ensures
        truth_value(binary_text(p, OperatorType::Conditional, q)) == Some(!p || q),
{
    lemma_binary_text_value(p, OperatorType::Conditional, q);
}

/// The tokens of `¬p` and of `¬¬p`.
proof fn lemma_negation_tokens(p: bool)
    ensures
        tokenize(seq!['¬'] + keyword_text(p)) == Ok::<Seq<Token>, LexerError>(
            seq![Token::Operator(OperatorType::Non), Token::Operand(p)],
        ),
        tokenize(seq!['¬', '¬'] + keyword_text(p)) == Ok::<Seq<Token>, LexerError>(
            seq![
                Token::Operator(OperatorType::Non),
                Token::Operator(OperatorType::Non),
                Token::Operand(p),
            ],
        ),
{
    let sign = seq!['¬'];
    let word = keyword_text(p);
    let not = Token::Operator(OperatorType::Non);
    lemma_tokenize_keyword(p);
    lemma_tokenize_char('¬');
    lemma_tokenize_concat(sign, word);
    lemma_tokenize_concat(sign, sign + word);
    assert(seq!['¬', '¬'] + word =~= sign + (sign + word));
    let once = seq![not, Token::Operand(p)];
    assert(seq![not] + seq![Token::Operand(p)] =~= once);
    assert(seq![not] + once =~= seq![not, not, Token::Operand(p)]);
}

/// A negated literal alone is an expression.
proof fn lemma_negation_tree(p: bool)
    ensures
        parse_expr(seq![Token::Operator(OperatorType::Non), Token::Operand(p)], 0) == (Parsed {
            outcome: Ok(negation(Node::Operand(p))),
            consumed: 2,
        }),
{
    let tokens = seq![Token::Operator(OperatorType::Non), Token::Operand(p)];
    let tree = negation(Node::Operand(p));
    lemma_negated_operand_term(tokens, 0, p);
    assert(parse_expr_rest(tokens, 2, tree) == Parsed { outcome: Ok(tree), consumed: 0 });
}

/// A literal negated twice alone is an expression.
proof fn lemma_double_negation_tree(p: bool)
    ensures
        parse_expr(
            seq![
                Token::Operator(OperatorType::Non),
                Token::Operator(OperatorType::Non),
                Token::Operand(p),
            ],
            0,
        ) == (Parsed { outcome: Ok(negation(negation(Node::Operand(p)))), consumed: 3 }),
{
    let tokens = seq![
        Token::Operator(OperatorType::Non),
        Token::Operator(OperatorType::Non),
        Token::Operand(p),
    ];
    let leaf = Node::Operand(p);
    let both = negation(negation(leaf));
    assert(parse_atom(tokens, 2) == Parsed { outcome: Ok(leaf), consumed: 1 });
    assert(parse_factor(tokens, 2) == parse_atom(tokens, 2));
    assert(parse_factor(tokens, 1) == Parsed { outcome: Ok(negation(leaf)), consumed: 2 });
    assert(parse_factor(tokens, 0) == Parsed { outcome: Ok(both), consumed: 3 });
    assert(parse_term_rest(tokens, 3, both) == Parsed { outcome: Ok(both), consumed: 0 });
    assert(parse_term(tokens, 0) == Parsed { outcome: Ok(both), consumed: 3 });
    assert(parse_expr_rest(tokens, 3, both) == Parsed { outcome: Ok(both), consumed: 0 });
}

/// The value of a negation and of a negation of a negation.
proof fn lemma_negation_value(p: bool)
    ensures
        evaluate(negation(Node::Operand(p))) == !p,
        evaluate(negation(negation(Node::Operand(p)))) == p,
{
    reveal_with_fuel(evaluate, 3);
}

/// `¬p` has the other value than `p`, and `¬¬p` the value of `p`.
pub proof fn lemma_negation_inverts(p: bool)
    ensures
        truth_value(seq!['¬'] + keyword_text(p)) == Some(!p),
        truth_value(seq!['¬', '¬'] + keyword_text(p)) == Some(p),
        analyse(seq!['¬', '¬'] + keyword_text(p)) == Ok::<Node, SyntaxError>(
            negation(negation(Node::Operand(p))),
        ),
{
    let not = Token::Operator(OperatorType::Non);
    lemma_negation_tokens(p);
    lemma_negation_tree(p);
    lemma_double_negation_tree(p);
    lemma_negation_value(p);
    lemma_truth_value(
        seq!['¬'] + keyword_text(p),
        seq![not, Token::Operand(p)],
        negation(Node::Operand(p)),
    );
    lemma_truth_value(
        seq!['¬', '¬'] + keyword_text(p),
        seq![not, not, Token::Operand(p)],
        negation(negation(Node::Operand(p))),
    );
}

} // verus!
