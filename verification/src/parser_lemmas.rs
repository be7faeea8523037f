//! Laws of the grammar: how short expressions group, and how a chain of
//! terms joined by one connective of the outer tier parses.

use crate::lexer::{token_at, BracketType, OperatorType, Token};
use crate::parser::{
    binary, is_implication, is_junction, negation, parse_atom, parse_expr, parse_expr_rest,
    parse_factor, parse_term, parse_term_rest, remaining, Node, Parsed,
};
use crate::text::{join, lemma_join_parts, occurs_at, part_start};
use vstd::prelude::*;

verus! {

/// What holds of every result of the grammar from a position inside the
/// tokens: a tree is well formed, and the cursor stays inside the tokens.
pub open spec fn sound(tokens: Seq<Token>, pos: nat, parsed: Parsed) -> bool {
    &&& parsed.outcome matches Ok(tree) ==> tree.well_formed()
    &&& pos <= tokens.len() ==> pos + parsed.consumed <= tokens.len()
}

/// An atom is well formed and ends inside the tokens.
pub proof fn lemma_atom_sound(tokens: Seq<Token>, pos: nat)
    ensures
        sound(tokens, pos, parse_atom(tokens, pos)),
    decreases remaining(tokens, pos), 0nat,
{
    if token_at(tokens, pos) == Some(Token::Bracket(BracketType::Left)) {
        lemma_expr_sound(tokens, pos + 1);
    }
}

/// A factor is well formed and ends inside the tokens.
pub proof fn lemma_factor_sound(tokens: Seq<Token>, pos: nat)
    ensures
        sound(tokens, pos, parse_factor(tokens, pos)),
    decreases remaining(tokens, pos), 1nat,
{
    if token_at(tokens, pos) == Some(Token::Operator(OperatorType::Non)) {
        lemma_factor_sound(tokens, pos + 1);
    } else {
        lemma_atom_sound(tokens, pos);
    }
}

/// The rest of a term after a well-formed tree is well formed and ends inside the tokens.
pub proof fn lemma_term_rest_sound(tokens: Seq<Token>, pos: nat, lhs: Node)
    requires
        lhs.well_formed(),
    ensures
        sound(tokens, pos, parse_term_rest(tokens, pos, lhs)),
    decreases remaining(tokens, pos), 2nat,
{
    if let Some(Token::Operator(op)) = token_at(tokens, pos) {
        if is_implication(op) {
            lemma_factor_sound(tokens, pos + 1);
            let rhs = parse_factor(tokens, pos + 1);
            if let Ok(node) = rhs.outcome {
                lemma_term_rest_sound(tokens, pos + 1 + rhs.consumed, binary(op, lhs, node));
            }
        }
    }
}

/// A term is well formed and ends inside the tokens.
pub proof fn lemma_term_sound(tokens: Seq<Token>, pos: nat)
    ensures
        sound(tokens, pos, parse_term(tokens, pos)),
    decreases remaining(tokens, pos), 3nat,
{
    lemma_factor_sound(tokens, pos);
    let first = parse_factor(tokens, pos);
    if let Ok(node) = first.outcome {
        lemma_term_rest_sound(tokens, pos + first.consumed, node);
    }
}

/// The rest of an expression after a well-formed tree is well formed and
/// ends inside the tokens.
pub proof fn lemma_expr_rest_sound(tokens: Seq<Token>, pos: nat, lhs: Node)
    requires
        lhs.well_formed(),
    ensures
        sound(tokens, pos, parse_expr_rest(tokens, pos, lhs)),
    decreases remaining(tokens, pos), 4nat,
{
    if let Some(Token::Operator(op)) = token_at(tokens, pos) {
        if is_junction(op) {
            lemma_term_sound(tokens, pos + 1);
            let rhs = parse_term(tokens, pos + 1);
            if let Ok(node) = rhs.outcome {
                lemma_expr_rest_sound(tokens, pos + 1 + rhs.consumed, binary(op, lhs, node));
            }
        }
    }
}

/// Every tree that the grammar gives is well formed: its unary nodes are
/// negations, its binary nodes are not. And the cursor stays inside the tokens.
pub proof fn lemma_expr_sound(tokens: Seq<Token>, pos: nat)
    ensures
        sound(tokens, pos, parse_expr(tokens, pos)),
    decreases remaining(tokens, pos), 5nat,
{
    lemma_term_sound(tokens, pos);
    let first = parse_term(tokens, pos);
    if let Ok(node) = first.outcome {
        lemma_expr_rest_sound(tokens, pos + first.consumed, node);
    }
}

/// Whether a chain of the outer tier ends before `token`: at a closing
/// bracket and at the end of the tokens.
pub open spec fn ends_expr(token: Option<Token>) -> bool {
    token == Some(Token::Bracket(BracketType::Right)) || token is None
}

/// Whether a chain of the inner tier ends before `token`: where the outer
/// one ends, and at `∧` and `∨`.
pub open spec fn ends_term(token: Option<Token>) -> bool {
    ends_expr(token) || (token matches Some(Token::Operator(op)) && is_junction(op))
}

/// The rest of an expression ends before a closing bracket or at the end of the tokens.
pub proof fn lemma_expr_rest_ends(tokens: Seq<Token>, pos: nat, lhs: Node)
    ensures
        parse_expr_rest(tokens, pos, lhs).outcome is Ok ==> ends_expr(
            token_at(tokens, pos + parse_expr_rest(tokens, pos, lhs).consumed),
        ),
    decreases remaining(tokens, pos),
{
    if let Some(Token::Operator(op)) = token_at(tokens, pos) {
        if is_junction(op) {
            let rhs = parse_term(tokens, pos + 1);
            if let Ok(node) = rhs.outcome {
                lemma_expr_rest_ends(tokens, pos + 1 + rhs.consumed, binary(op, lhs, node));
            }
        }
    }
}

/// An expression ends before a closing bracket or at the end of the tokens:
/// behind the contents of a bracket, any other token means that the contents
/// have failed.
pub proof fn lemma_expr_ends(tokens: Seq<Token>, pos: nat)
    ensures
        parse_expr(tokens, pos).outcome is Ok ==> ends_expr(
            token_at(tokens, pos + parse_expr(tokens, pos).consumed),
        ),
{
    let first = parse_term(tokens, pos);
    if let Ok(node) = first.outcome {
        lemma_expr_rest_ends(tokens, pos + first.consumed, node);
    }
}

/// A literal at `pos`, followed by a token that ends a term, is a term.
pub proof fn lemma_operand_term(tokens: Seq<Token>, pos: nat, value: bool)
    requires
        token_at(tokens, pos) == Some(Token::Operand(value)),
        ends_term(token_at(tokens, pos + 1)),
    ensures
        parse_term(tokens, pos) == (Parsed { outcome: Ok(Node::Operand(value)), consumed: 1 }),
{
    assert(parse_atom(tokens, pos) == Parsed { outcome: Ok(Node::Operand(value)), consumed: 1 });
    assert(parse_factor(tokens, pos) == parse_atom(tokens, pos));
    assert(parse_term_rest(tokens, pos + 1, Node::Operand(value)) == Parsed {
        outcome: Ok(Node::Operand(value)),
        consumed: 0,
    });
}

/// A negated literal at `pos`, followed by a token that ends a term, is a term.
pub proof fn lemma_negated_operand_term(tokens: Seq<Token>, pos: nat, value: bool)
    requires
        token_at(tokens, pos) == Some(Token::Operator(OperatorType::Non)),
        token_at(tokens, pos + 1) == Some(Token::Operand(value)),
        ends_term(token_at(tokens, pos + 2)),
    ensures
        parse_term(tokens, pos) == (Parsed {
            outcome: Ok(negation(Node::Operand(value))),
            consumed: 2,
        }),
{
    assert(parse_atom(tokens, pos + 1) == Parsed {
        outcome: Ok(Node::Operand(value)),
        consumed: 1,
    });
    assert(parse_factor(tokens, pos + 1) == parse_atom(tokens, pos + 1));
    assert(parse_factor(tokens, pos) == Parsed {
        outcome: Ok(negation(Node::Operand(value))),
        consumed: 2,
    });
    assert(parse_term_rest(tokens, pos + 2, negation(Node::Operand(value))) == Parsed {
        outcome: Ok(negation(Node::Operand(value))),
        consumed: 0,
    });
}

/// An expression in brackets at `pos`, followed by a token that ends a term,
/// is a term with the tree of the expression.
pub proof fn lemma_bracket_term(tokens: Seq<Token>, pos: nat, tree: Node, len: nat)
    requires
        token_at(tokens, pos) == Some(Token::Bracket(BracketType::Left)),
        parse_expr(tokens, pos + 1) == (Parsed { outcome: Ok(tree), consumed: len }),
        token_at(tokens, pos + 1 + len) == Some(Token::Bracket(BracketType::Right)),
        ends_term(token_at(tokens, pos + len + 2)),
    ensures
        parse_term(tokens, pos) == (Parsed { outcome: Ok(tree), consumed: len + 2 }),
{
    assert(parse_atom(tokens, pos) == Parsed { outcome: Ok(tree), consumed: len + 2 });
    assert(parse_factor(tokens, pos) == parse_atom(tokens, pos));
    assert(parse_term_rest(tokens, pos + len + 2, tree) == Parsed {
        outcome: Ok(tree),
        consumed: 0,
    });
}

/// The trees of a chain folded from the left: `((t0 op t1) op t2) ...`.
pub open spec fn chain(trees: Seq<Node>, op: OperatorType) -> Node
    recommends
        trees.len() > 0,
    decreases trees.len(),
{
    if trees.len() <= 1 {
        trees[0]
    } else {
        binary(op, chain(trees.drop_last(), op), trees.last())
    }
}

/// Whether the item at `i` is, where it stands in the join that starts at
/// `pos`, a term with the tree of the same index.
#[verifier::opaque]
pub open spec fn term_in_place(
    tokens: Seq<Token>,
    pos: nat,
    items: Seq<Seq<Token>>,
    separator: Seq<Token>,
    trees: Seq<Node>,
    i: int,
) -> bool {
    parse_term(tokens, (pos + part_start(items, separator, i)) as nat) == (Parsed {
        outcome: Ok(trees[i]),
        consumed: items[i].len(),
    })
}

/// Whether each of `items` is a term in its place.
pub open spec fn terms_in_place(
    tokens: Seq<Token>,
    pos: nat,
    items: Seq<Seq<Token>>,
    separator: Seq<Token>,
    trees: Seq<Node>,
) -> bool {
    forall|i: int|
        0 <= i < items.len() ==> #[trigger] term_in_place(tokens, pos, items, separator, trees, i)
}

/// A term at the place of the item at `i` puts that item in place.
pub proof fn lemma_term_in_place(
    tokens: Seq<Token>,
    pos: nat,
    items: Seq<Seq<Token>>,
    separator: Seq<Token>,
    trees: Seq<Node>,
    i: int,
    at: nat,
)
    requires
        at == pos + part_start(items, separator, i),
        parse_term(tokens, at) == (Parsed { outcome: Ok(trees[i]), consumed: items[i].len() }),
    ensures
        term_in_place(tokens, pos, items, separator, trees, i),
{
    reveal(term_in_place);
}

/// Whether the expression from `pos` is the outer chain that goes on after
/// `done` tokens with the tree `lhs` for what came before.
#[verifier::opaque]
pub open spec fn chain_so_far(tokens: Seq<Token>, pos: nat, done: nat, lhs: Node) -> bool {
    parse_expr(tokens, pos) == parse_expr_rest(tokens, pos + done, lhs).after(done)
}

/// One round of the outer chain: a connective at `at` and a term behind it.
proof fn lemma_expr_rest_step(
    tokens: Seq<Token>,
    at: nat,
    lhs: Node,
    op: OperatorType,
    tree: Node,
    len: nat,
)
    requires
        is_junction(op),
        token_at(tokens, at) == Some(Token::Operator(op)),
        parse_term(tokens, at + 1) == (Parsed { outcome: Ok(tree), consumed: len }),
    ensures
        parse_expr_rest(tokens, at, lhs) == parse_expr_rest(
            tokens,
            at + 1 + len,
            binary(op, lhs, tree),
        ).after(1 + len),
{
}

/// The connective in front of the item at `i`, for `i > 0`, stands where the
/// join of the items before it ends.
proof fn lemma_separator_in_place(
    tokens: Seq<Token>,
    pos: nat,
    items: Seq<Seq<Token>>,
    op: OperatorType,
    i: int,
)
    requires
        1 <= i < items.len(),
        occurs_at(tokens, pos as int, join(items, seq![Token::Operator(op)])),
    ensures
        token_at(tokens, pos + join(items.take(i), seq![Token::Operator(op)]).len()) == Some(
            Token::Operator(op),
        ),
        part_start(items, seq![Token::Operator(op)], i) == join(
            items.take(i),
            seq![Token::Operator(op)],
        ).len() + 1,
        join(items.take(i + 1), seq![Token::Operator(op)]).len() == join(
            items.take(i),
            seq![Token::Operator(op)],
        ).len() + 1 + items[i].len(),
{
    let separator = seq![Token::Operator(op)];
    let whole = join(items, separator);
    let done = join(items.take(i), separator).len() as int;
    lemma_join_parts(items, separator, i - 1);
    lemma_join_parts(items, separator, i);
    assert(occurs_at(whole, done, separator));
    assert(whole[done + 0] == separator[0]);
    assert(tokens[pos + done] == whole[done]);
}

/// A chain starts with its first term.
pub proof fn lemma_chain_start(tokens: Seq<Token>, pos: nat, tree: Node, len: nat)
    requires
        parse_term(tokens, pos) == (Parsed { outcome: Ok(tree), consumed: len }),
    ensures
        chain_so_far(tokens, pos, len, tree),
{
    reveal(chain_so_far);
}

/// A chain that was followed up to a connective goes on behind the term
/// after it.
pub proof fn lemma_chain_extend(
    tokens: Seq<Token>,
    pos: nat,
    done: nat,
    lhs: Node,
    op: OperatorType,
    tree: Node,
    len: nat,
)
    requires
        is_junction(op),
        chain_so_far(tokens, pos, done, lhs),
        token_at(tokens, pos + done) == Some(Token::Operator(op)),
        parse_term(tokens, pos + done + 1) == (Parsed { outcome: Ok(tree), consumed: len }),
    ensures
        chain_so_far(tokens, pos, done + 1 + len, binary(op, lhs, tree)),
{
    reveal(chain_so_far);
    lemma_expr_rest_step(tokens, pos + done, lhs, op, tree, len);
}

/// A chain fails with the term behind a connective.
pub proof fn lemma_chain_fails(
    tokens: Seq<Token>,
    pos: nat,
    done: nat,
    lhs: Node,
    op: OperatorType,
    e: crate::parser::ParseError,
)
    requires
        is_junction(op),
        chain_so_far(tokens, pos, done, lhs),
        token_at(tokens, pos + done) == Some(Token::Operator(op)),
        parse_term(tokens, pos + done + 1).outcome == Err::<Node, crate::parser::ParseError>(e),
    ensures
        parse_expr(tokens, pos) == (Parsed {
            outcome: Err(e),
            consumed: done + 1 + parse_term(tokens, pos + done + 1).consumed,
        }),
{
    reveal(chain_so_far);
}

/// A chain does not go on with a token that neither continues nor ends it.
pub proof fn lemma_chain_rejects(tokens: Seq<Token>, pos: nat, done: nat, lhs: Node)
    requires
        chain_so_far(tokens, pos, done, lhs),
        token_at(tokens, pos + done) is Some,
        !ends_expr(token_at(tokens, pos + done)),
        !(token_at(tokens, pos + done) matches Some(Token::Operator(op)) && is_junction(op)),
    ensures
        parse_expr(tokens, pos) == (Parsed {
            outcome: Err(crate::parser::ParseError::Unmatch),
            consumed: done,
        }),
{
    reveal(chain_so_far);
}

/// A chain ends before a closing bracket and at the end of the tokens.
pub proof fn lemma_chain_end(tokens: Seq<Token>, pos: nat, done: nat, lhs: Node)
    requires
        chain_so_far(tokens, pos, done, lhs),
        ends_expr(token_at(tokens, pos + done)),
    ensures
        parse_expr(tokens, pos) == (Parsed { outcome: Ok(lhs), consumed: done }),
{
    reveal(chain_so_far);
    assert(parse_expr_rest(tokens, pos + done, lhs) == Parsed { outcome: Ok(lhs), consumed: 0 });
}

/// The term of the item at `i`, at the position that the join gives it.
proof fn lemma_term_of_item(
    tokens: Seq<Token>,
    pos: nat,
    items: Seq<Seq<Token>>,
    separator: Seq<Token>,
    trees: Seq<Node>,
    i: int,
    at: nat,
)
    requires
        at == pos + part_start(items, separator, i),
        term_in_place(tokens, pos, items, separator, trees, i),
    ensures
        parse_term(tokens, at) == (Parsed { outcome: Ok(trees[i]), consumed: items[i].len() }),
{
    reveal(term_in_place);
}

/// The trees of a chain with one more tree.
proof fn lemma_chain_push(trees: Seq<Node>, op: OperatorType, n: int)
    requires
        2 <= n <= trees.len(),
    ensures
        chain(trees.take(n), op) == binary(op, chain(trees.take(n - 1), op), trees[n - 1]),
{
    assert(trees.take(n).drop_last() =~= trees.take(n - 1));
    assert(trees.take(n).last() == trees[n - 1]);
}

/// The join and the chain of one item.
proof fn lemma_chain_first(items: Seq<Seq<Token>>, trees: Seq<Node>, separator: Seq<Token>)
    requires
        items.len() == trees.len(),
        items.len() > 0,
    ensures
        part_start(items, separator, 0) == 0,
        join(items.take(1), separator) == items[0],
        chain(trees.take(1), OperatorType::And) == trees[0],
        chain(trees.take(1), OperatorType::Or) == trees[0],
{
    assert(items.take(0) =~= Seq::<Seq<Token>>::empty());
    assert(items.take(1) =~= seq![items[0]]);
    assert(trees.take(1) =~= seq![trees[0]]);
}

proof fn lemma_chain_prefix(
    tokens: Seq<Token>,
    pos: nat,
    items: Seq<Seq<Token>>,
    trees: Seq<Node>,
    op: OperatorType,
    n: int,
)
    requires
        is_junction(op),
        items.len() == trees.len(),
        1 <= n <= items.len(),
        occurs_at(tokens, pos as int, join(items, seq![Token::Operator(op)])),
        terms_in_place(tokens, pos, items, seq![Token::Operator(op)], trees),
    ensures
        chain_so_far(
            tokens,
            pos,
            join(items.take(n), seq![Token::Operator(op)]).len(),
            chain(trees.take(n), op),
        ),
    decreases n,
{
    let separator = seq![Token::Operator(op)];
    if n == 1 {
        assert(term_in_place(tokens, pos, items, separator, trees, 0));
        lemma_chain_first(items, trees, separator);
        lemma_term_of_item(tokens, pos, items, separator, trees, 0, pos);
        lemma_chain_start(tokens, pos, trees[0], items[0].len());
    } else {
        lemma_chain_prefix(tokens, pos, items, trees, op, n - 1);
        let done = join(items.take(n - 1), separator).len();
        let lhs = chain(trees.take(n - 1), op);
        lemma_separator_in_place(tokens, pos, items, op, n - 1);
        assert(term_in_place(tokens, pos, items, separator, trees, n - 1));
        lemma_term_of_item(tokens, pos, items, separator, trees, n - 1, pos + done + 1);
        lemma_chain_push(trees, op, n);
        lemma_chain_extend(tokens, pos, done, lhs, op, trees[n - 1], items[n - 1].len());
    }
}

/// A chain of terms joined by one connective of the outer tier, followed by
/// a closing bracket or by nothing, is an expression: the terms' trees
/// folded from the left. It takes all tokens of the chain.
pub proof fn lemma_chain(
    tokens: Seq<Token>,
    pos: nat,
    items: Seq<Seq<Token>>,
    trees: Seq<Node>,
    op: OperatorType,
)
    requires
        is_junction(op),
        items.len() == trees.len(),
        items.len() > 0,
        occurs_at(tokens, pos as int, join(items, seq![Token::Operator(op)])),
        terms_in_place(tokens, pos, items, seq![Token::Operator(op)], trees),
        ends_expr(token_at(tokens, pos + join(items, seq![Token::Operator(op)]).len())),
    ensures
        parse_expr(tokens, pos) == (Parsed {
            outcome: Ok(chain(trees, op)),
            consumed: join(items, seq![Token::Operator(op)]).len(),
        }),
{
    let n = items.len() as int;
    lemma_chain_prefix(tokens, pos, items, trees, op, n);
    assert(items.take(n) =~= items);
    assert(trees.take(n) =~= trees);
    lemma_chain_end(
        tokens,
        pos,
        join(items, seq![Token::Operator(op)]).len(),
        chain(trees, op),
    );
}

/// `a ∧ b → c` groups as `a ∧ (b → c)`, and so for every connective of the
/// outer tier before one of the inner tier.
pub proof fn lemma_inner_tier_binds_tighter(
    a: bool,
    outer: OperatorType,
    b: bool,
    inner: OperatorType,
    c: bool,
)
    requires
        is_junction(outer),
        is_implication(inner),
    ensures
        parse_expr(
            seq![
                Token::Operand(a),
                Token::Operator(outer),
                Token::Operand(b),
                Token::Operator(inner),
                Token::Operand(c),
            ],
            0,
        ) == (Parsed {
            outcome: Ok(
                binary(
                    outer,
                    Node::Operand(a),
                    binary(inner, Node::Operand(b), Node::Operand(c)),
                ),
            ),
            consumed: 5,
        }),
{
    let tokens = seq![
        Token::Operand(a),
        Token::Operator(outer),
        Token::Operand(b),
        Token::Operator(inner),
        Token::Operand(c),
    ];
    let bc = binary(inner, Node::Operand(b), Node::Operand(c));
    lemma_operand_term(tokens, 0, a);
    assert(parse_atom(tokens, 4) == Parsed { outcome: Ok(Node::Operand(c)), consumed: 1 });
    assert(parse_factor(tokens, 4) == parse_atom(tokens, 4));
    assert(parse_term_rest(tokens, 5, bc) == Parsed { outcome: Ok(bc), consumed: 0 });
    assert(parse_term_rest(tokens, 3, Node::Operand(b)) == Parsed { outcome: Ok(bc), consumed: 2 });
    assert(parse_atom(tokens, 2) == Parsed { outcome: Ok(Node::Operand(b)), consumed: 1 });
    assert(parse_factor(tokens, 2) == parse_atom(tokens, 2));
    assert(parse_term(tokens, 2) == Parsed { outcome: Ok(bc), consumed: 3 });
    let whole = binary(outer, Node::Operand(a), bc);
    assert(parse_expr_rest(tokens, 5, whole) == Parsed { outcome: Ok(whole), consumed: 0 });
    assert(parse_expr_rest(tokens, 1, Node::Operand(a)) == Parsed {
        outcome: Ok(whole),
        consumed: 4,
    });
}

/// `a ∧ b ∧ c` groups as `(a ∧ b) ∧ c`, and so for every two connectives of
/// the outer tier.
pub proof fn lemma_outer_tier_associates_left(
    a: bool,
    first: OperatorType,
    b: bool,
    second: OperatorType,
    c: bool,
)
    requires
        is_junction(first),
        is_junction(second),
    ensures
        parse_expr(
            seq![
                Token::Operand(a),
                Token::Operator(first),
                Token::Operand(b),
                Token::Operator(second),
                Token::Operand(c),
            ],
            0,
        ) == (Parsed {
            outcome: Ok(
                binary(
                    second,
                    binary(first, Node::Operand(a), Node::Operand(b)),
                    Node::Operand(c),
                ),
            ),
            consumed: 5,
        }),
{
    let tokens = seq![
        Token::Operand(a),
        Token::Operator(first),
        Token::Operand(b),
        Token::Operator(second),
        Token::Operand(c),
    ];
    lemma_operand_term(tokens, 0, a);
    lemma_operand_term(tokens, 2, b);
    lemma_operand_term(tokens, 4, c);
    let ab = binary(first, Node::Operand(a), Node::Operand(b));
    let whole = binary(second, ab, Node::Operand(c));
    assert(parse_expr_rest(tokens, 5, whole) == Parsed { outcome: Ok(whole), consumed: 0 });
    assert(parse_expr_rest(tokens, 3, ab) == Parsed { outcome: Ok(whole), consumed: 2 });
    assert(parse_expr_rest(tokens, 1, Node::Operand(a)) == Parsed {
        outcome: Ok(whole),
        consumed: 4,
    });
}

/// `a → b → c` groups as `(a → b) → c`, and so for every two connectives of
/// the inner tier.
pub proof fn lemma_inner_tier_associates_left(
    a: bool,
    first: OperatorType,
    b: bool,
    second: OperatorType,
    c: bool,
)
    requires
        is_implication(first),
        is_implication(second),
    ensures
        parse_expr(
            seq![
                Token::Operand(a),
                Token::Operator(first),
                Token::Operand(b),
                Token::Operator(second),
                Token::Operand(c),
            ],
            0,
        ) == (Parsed {
            outcome: Ok(
                binary(
                    second,
                    binary(first, Node::Operand(a), Node::Operand(b)),
                    Node::Operand(c),
                ),
            ),
            consumed: 5,
        }),
{
    let tokens = seq![
        Token::Operand(a),
        Token::Operator(first),
        Token::Operand(b),
        Token::Operator(second),
        Token::Operand(c),
    ];
    let ab = binary(first, Node::Operand(a), Node::Operand(b));
    let whole = binary(second, ab, Node::Operand(c));
    assert(parse_atom(tokens, 0) == Parsed { outcome: Ok(Node::Operand(a)), consumed: 1 });
    assert(parse_factor(tokens, 0) == parse_atom(tokens, 0));
    assert(parse_atom(tokens, 2) == Parsed { outcome: Ok(Node::Operand(b)), consumed: 1 });
    assert(parse_factor(tokens, 2) == parse_atom(tokens, 2));
    assert(parse_atom(tokens, 4) == Parsed { outcome: Ok(Node::Operand(c)), consumed: 1 });
    assert(parse_factor(tokens, 4) == parse_atom(tokens, 4));
    assert(parse_term_rest(tokens, 5, whole) == Parsed { outcome: Ok(whole), consumed: 0 });
    assert(parse_term_rest(tokens, 3, ab) == Parsed { outcome: Ok(whole), consumed: 2 });
    assert(parse_term_rest(tokens, 1, Node::Operand(a)) == Parsed {
        outcome: Ok(whole),
        consumed: 4,
    });
    assert(parse_term(tokens, 0) == Parsed { outcome: Ok(whole), consumed: 5 });
    assert(parse_expr_rest(tokens, 5, whole) == Parsed { outcome: Ok(whole), consumed: 0 });
}

/// Two literals with one binary connective between them are the binary node
/// of that connective.
pub proof fn lemma_binary_expression(a: bool, op: OperatorType, b: bool)
    requires
        op != OperatorType::Non,
    ensures
        parse_expr(seq![Token::Operand(a), Token::Operator(op), Token::Operand(b)], 0) == (Parsed {
            outcome: Ok(binary(op, Node::Operand(a), Node::Operand(b))),
            consumed: 3,
        }),
{
    let tokens = seq![Token::Operand(a), Token::Operator(op), Token::Operand(b)];
    let whole = binary(op, Node::Operand(a), Node::Operand(b));
    assert(parse_atom(tokens, 0) == Parsed { outcome: Ok(Node::Operand(a)), consumed: 1 });
    assert(parse_factor(tokens, 0) == parse_atom(tokens, 0));
    assert(parse_atom(tokens, 2) == Parsed { outcome: Ok(Node::Operand(b)), consumed: 1 });
    assert(parse_factor(tokens, 2) == parse_atom(tokens, 2));
    if is_implication(op) {
        assert(parse_term_rest(tokens, 3, whole) == Parsed { outcome: Ok(whole), consumed: 0 });
        assert(parse_term_rest(tokens, 1, Node::Operand(a)) == Parsed {
            outcome: Ok(whole),
            consumed: 2,
        });
        assert(parse_term(tokens, 0) == Parsed { outcome: Ok(whole), consumed: 3 });
        assert(parse_expr_rest(tokens, 3, whole) == Parsed { outcome: Ok(whole), consumed: 0 });
    } else {
        lemma_operand_term(tokens, 0, a);
        lemma_operand_term(tokens, 2, b);
        assert(parse_expr_rest(tokens, 3, whole) == Parsed { outcome: Ok(whole), consumed: 0 });
        assert(parse_expr_rest(tokens, 1, Node::Operand(a)) == Parsed {
            outcome: Ok(whole),
            consumed: 2,
        });
    }
}

} // verus!
