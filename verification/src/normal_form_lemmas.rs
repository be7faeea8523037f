//! Why a normal form has the truth values of the table it was read off.
//!
//! The proof follows the text of a normal form through the three stages:
//! its tokens under an assignment, the tree of those tokens, and the value
//! of that tree.

use crate::assignment::{as_map, distinct_variables, lemma_as_map, mentions, Assignment};
use crate::calculator::{analyse, evaluate, truth_value};
use crate::canonical::{
    clause, clauses, columns, is_truth_table_of, is_variable, lemma_rows_differ,
    lemma_variables_among, literal, literals, normal_form, row_entries, selected, substitute,
    substitute_char, variables,
};
use crate::lexer::{
    is_lowercase, keyword_text, tokenize, token_at, BracketType, LexerError, OperatorType, Token,
};
use crate::lexer_lemmas::{lemma_tokenize_char, lemma_tokenize_concat, lemma_tokenize_keyword};
use crate::parser::{negation, parse_expr, parse_term, Node, Parsed};
use crate::parser_lemmas::{
    chain, ends_term, lemma_bracket_term, lemma_chain, lemma_negated_operand_term,
    lemma_operand_term, lemma_term_in_place, term_in_place,
};
use crate::text::{join, junction_text, lemma_join_parts, occurs_at, part_start};
use vstd::prelude::*;

verus! {

/// The connective inside the clauses of the form that collects the rows
/// with the result `wanted`.
pub open spec fn inner_op(wanted: bool) -> OperatorType {
    if wanted {
        OperatorType::And
    } else {
        OperatorType::Or
    }
}

/// The connective between the clauses.
pub open spec fn outer_op(wanted: bool) -> OperatorType {
    inner_op(!wanted)
}

/// Substitution goes through a concatenation.
pub proof fn lemma_substitute_concat(x: Seq<char>, y: Seq<char>, values: Map<char, bool>)
    ensures
        substitute(x + y, values) == substitute(x, values) + substitute(y, values),
    decreases y.len(),
{
    if y.len() == 0 {
        assert(x + y =~= x);
        assert(substitute(x, values) + substitute(y, values) =~= substitute(x, values));
    } else {
        lemma_substitute_concat(x, y.drop_last(), values);
        assert((x + y).drop_last() =~= x + y.drop_last());
        assert((x + y).last() == y.last());
        assert(substitute(x, values) + (substitute(y.drop_last(), values) + substitute_char(
            y.last(),
            values,
        )) =~= (substitute(x, values) + substitute(y.drop_last(), values)) + substitute_char(
            y.last(),
            values,
        ));
    }
}

/// The substitute of a single character.
pub proof fn lemma_substitute_single(c: char, values: Map<char, bool>)
    ensures
        substitute(seq![c], values) == substitute_char(c, values),
{
    let text = seq![c];
    assert(text.drop_last() =~= Seq::<char>::empty());
    assert(substitute(text.drop_last(), values) =~= Seq::<char>::empty());
    assert(Seq::<char>::empty() + substitute_char(c, values) =~= substitute_char(c, values));
}

/// Substitution goes through a join.
pub proof fn lemma_substitute_join(
    parts: Seq<Seq<char>>,
    separator: Seq<char>,
    values: Map<char, bool>,
)
    ensures
        substitute(join(parts, separator), values) == join(
            Seq::new(parts.len(), |i: int| substitute(parts[i], values)),
            substitute(separator, values),
        ),
    decreases parts.len(),
{
    let mapped = Seq::new(parts.len(), |i: int| substitute(parts[i], values));
    if parts.len() == 0 {
    } else if parts.len() == 1 {
    } else {
        let init = parts.drop_last();
        lemma_substitute_join(init, separator, values);
        assert(mapped.drop_last() =~= Seq::new(init.len(), |i: int| substitute(init[i], values)));
        lemma_substitute_concat(join(init, separator) + separator, parts.last(), values);
        lemma_substitute_concat(join(init, separator), separator, values);
    }
}

/// A separator that neither starts nor ends with a letter.
pub open spec fn delimited(separator: Seq<char>) -> bool {
    separator.len() > 0 && !is_lowercase(separator[0]) && !is_lowercase(separator.last())
}

/// The tokens of a join are the join of the tokens, where the separator
/// keeps the words of the parts apart.
pub proof fn lemma_tokenize_join(
    parts: Seq<Seq<char>>,
    separator: Seq<char>,
    part_tokens: Seq<Seq<Token>>,
    separator_tokens: Seq<Token>,
)
    requires
        parts.len() == part_tokens.len(),
        forall|i: int|
            0 <= i < parts.len() ==> tokenize(#[trigger] parts[i]) == Ok::<
                Seq<Token>,
                LexerError,
            >(part_tokens[i]),
        delimited(separator),
        tokenize(separator) == Ok::<Seq<Token>, LexerError>(separator_tokens),
    ensures
        tokenize(join(parts, separator)) == Ok::<Seq<Token>, LexerError>(
            join(part_tokens, separator_tokens),
        ),
    decreases parts.len(),
{
    if parts.len() == 0 {
    } else if parts.len() == 1 {
        assert(tokenize(parts[0]) == Ok::<Seq<Token>, LexerError>(part_tokens[0]));
    } else {
        let init = parts.drop_last();
        let init_tokens = part_tokens.drop_last();
        assert forall|i: int| 0 <= i < init.len() implies tokenize(#[trigger] init[i]) == Ok::<
            Seq<Token>,
            LexerError,
        >(init_tokens[i]) by {
            assert(init[i] == parts[i]);
        }
        lemma_tokenize_join(init, separator, init_tokens, separator_tokens);
        let head = join(init, separator);
        lemma_tokenize_concat(head, separator);
        assert((head + separator).last() == separator.last());
        lemma_tokenize_concat(head + separator, parts.last());
        assert(tokenize(parts[parts.len() - 1]) == Ok::<Seq<Token>, LexerError>(
            part_tokens[parts.len() - 1],
        ));
    }
}

/// The tree of a literal: an operand, negated or not.
pub open spec fn literal_tree(value: bool, negated: bool) -> Node {
    if negated {
        negation(Node::Operand(value))
    } else {
        Node::Operand(value)
    }
}

/// The tokens of a literal.
pub open spec fn literal_tokens(value: bool, negated: bool) -> Seq<Token> {
    if negated {
        seq![Token::Operator(OperatorType::Non), Token::Operand(value)]
    } else {
        seq![Token::Operand(value)]
    }
}

/// Whether every entry is about a variable that has a value.
pub open spec fn all_valued(entries: Seq<(char, bool)>, values: Map<char, bool>) -> bool {
    forall|j: int|
        0 <= j < entries.len() ==> is_variable((#[trigger] entries[j]).0) && values.dom().contains(
            entries[j].0,
        )
}

/// The tokens of the literals of a row under an assignment.
pub open spec fn clause_items(entries: Seq<(char, bool)>, wanted: bool, values: Map<char, bool>) -> Seq<
    Seq<Token>,
> {
    Seq::new(
        entries.len(),
        |j: int| literal_tokens(values[entries[j].0], entries[j].1 != wanted),
    )
}

/// The trees of the literals of a row under an assignment.
pub open spec fn clause_trees(entries: Seq<(char, bool)>, wanted: bool, values: Map<char, bool>) -> Seq<
    Node,
> {
    Seq::new(entries.len(), |j: int| literal_tree(values[entries[j].0], entries[j].1 != wanted))
}

/// The tokens of the clause of a row under an assignment.
pub open spec fn clause_tokens(entries: Seq<(char, bool)>, wanted: bool, values: Map<char, bool>) -> Seq<
    Token,
> {
    seq![Token::Bracket(BracketType::Left)] + join(
        clause_items(entries, wanted, values),
        seq![Token::Operator(inner_op(wanted))],
    ) + seq![Token::Bracket(BracketType::Right)]
}

/// The tree of the clause of a row under an assignment.
pub open spec fn clause_tree(entries: Seq<(char, bool)>, wanted: bool, values: Map<char, bool>) -> Node {
    chain(clause_trees(entries, wanted, values), inner_op(wanted))
}

/// The tokens of each clause of a form.
pub open spec fn form_items(
    chosen: Seq<Seq<(char, bool)>>,
    wanted: bool,
    values: Map<char, bool>,
) -> Seq<Seq<Token>> {
    Seq::new(chosen.len(), |i: int| clause_tokens(chosen[i], wanted, values))
}

/// The tree of each clause of a form.
pub open spec fn form_trees(
    chosen: Seq<Seq<(char, bool)>>,
    wanted: bool,
    values: Map<char, bool>,
) -> Seq<Node> {
    Seq::new(chosen.len(), |i: int| clause_tree(chosen[i], wanted, values))
}

/// The tokens of a form under an assignment.
pub open spec fn form_tokens(
    chosen: Seq<Seq<(char, bool)>>,
    wanted: bool,
    values: Map<char, bool>,
) -> Seq<Token> {
    join(form_items(chosen, wanted, values), seq![Token::Operator(outer_op(wanted))])
}

/// The tree of a form under an assignment.
pub open spec fn form_tree(
    chosen: Seq<Seq<(char, bool)>>,
    wanted: bool,
    values: Map<char, bool>,
) -> Node {
    chain(form_trees(chosen, wanted, values), outer_op(wanted))
}

/// A connective with its spaces stays as it is under substitution, and is one token.
pub proof fn lemma_junction_text(conjunction: bool, values: Map<char, bool>)
    ensures
        substitute(junction_text(conjunction), values) == junction_text(conjunction),
        delimited(junction_text(conjunction)),
        tokenize(junction_text(conjunction)) == Ok::<Seq<Token>, LexerError>(
            seq![Token::Operator(inner_op(conjunction))],
        ),
{
    let glyph = if conjunction {
        '∧'
    } else {
        '∨'
    };
    let text = junction_text(conjunction);
    let space = seq![' '];
    assert(text =~= space + seq![glyph] + space);
    lemma_substitute_single(' ', values);
    lemma_substitute_single(glyph, values);
    lemma_substitute_concat(space + seq![glyph], space, values);
    lemma_substitute_concat(space, seq![glyph], values);
    lemma_tokenize_char(' ');
    lemma_tokenize_char(glyph);
    lemma_tokenize_concat(space, seq![glyph]);
    lemma_tokenize_concat(space + seq![glyph], space);
    let token = seq![Token::Operator(inner_op(conjunction))];
    assert(Seq::<Token>::empty() + token =~= token);
    assert(token + Seq::<Token>::empty() =~= token);
}

/// The tokens of a literal under an assignment that gives its variable a value.
pub proof fn lemma_literal_tokens(var: char, negated: bool, values: Map<char, bool>)
    requires
        is_variable(var),
        values.dom().contains(var),
    ensures
        tokenize(substitute(literal(var, negated), values)) == Ok::<Seq<Token>, LexerError>(
            literal_tokens(values[var], negated),
        ),
{
    let word = keyword_text(values[var]);
    lemma_substitute_single(var, values);
    lemma_tokenize_keyword(values[var]);
    if negated {
        let sign = seq!['¬'];
        assert(literal(var, negated) =~= sign + seq![var]);
        lemma_substitute_concat(sign, seq![var], values);
        lemma_substitute_single('¬', values);
        lemma_tokenize_char('¬');
        lemma_tokenize_concat(sign, word);
        assert(seq![Token::Operator(OperatorType::Non)] + seq![Token::Operand(values[var])]
            =~= literal_tokens(values[var], negated));
    }
}

/// The tokens of a clause under an assignment that gives its variables values.
pub proof fn lemma_clause_tokens(entries: Seq<(char, bool)>, wanted: bool, values: Map<char, bool>)
    requires
        all_valued(entries, values),
    ensures
        tokenize(substitute(clause(entries, wanted), values)) == Ok::<Seq<Token>, LexerError>(
            clause_tokens(entries, wanted, values),
        ),
{
    let texts = literals(entries, wanted);
    let separator = junction_text(wanted);
    let body = join(texts, separator);
    let open = seq!['('];
    let close = seq![')'];
    lemma_junction_text(wanted, values);
    lemma_substitute_join(texts, separator, values);
    let replaced = Seq::new(texts.len(), |i: int| substitute(texts[i], values));
    let items = clause_items(entries, wanted, values);
    assert forall|i: int| 0 <= i < replaced.len() implies tokenize(#[trigger] replaced[i]) == Ok::<
        Seq<Token>,
        LexerError,
    >(items[i]) by {
        assert(is_variable(entries[i].0));
        lemma_literal_tokens(entries[i].0, entries[i].1 != wanted, values);
    }
    lemma_tokenize_join(replaced, separator, items, seq![Token::Operator(inner_op(wanted))]);
    lemma_substitute_concat(open + body, close, values);
    lemma_substitute_concat(open, body, values);
    lemma_substitute_single('(', values);
    lemma_substitute_single(')', values);
    lemma_tokenize_char('(');
    lemma_tokenize_char(')');
    let inside = substitute(body, values);
    lemma_tokenize_concat(open, inside);
    lemma_tokenize_concat(open + inside, close);
}

/// The tokens of a form under an assignment that gives the variables of its rows values.
pub proof fn lemma_form_tokens(
    chosen: Seq<Seq<(char, bool)>>,
    wanted: bool,
    values: Map<char, bool>,
)
    requires
        forall|i: int| 0 <= i < chosen.len() ==> all_valued(#[trigger] chosen[i], values),
    ensures
        tokenize(
            substitute(join(clauses(chosen, wanted), junction_text(!wanted)), values),
        ) == Ok::<Seq<Token>, LexerError>(form_tokens(chosen, wanted, values)),
{
    let texts = clauses(chosen, wanted);
    let separator = junction_text(!wanted);
    lemma_junction_text(!wanted, values);
    lemma_substitute_join(texts, separator, values);
    let replaced = Seq::new(texts.len(), |i: int| substitute(texts[i], values));
    let items = form_items(chosen, wanted, values);
    assert forall|i: int| 0 <= i < replaced.len() implies tokenize(#[trigger] replaced[i]) == Ok::<
        Seq<Token>,
        LexerError,
    >(items[i]) by {
        assert(all_valued(chosen[i], values));
        lemma_clause_tokens(chosen[i], wanted, values);
    }
    lemma_tokenize_join(replaced, separator, items, seq![Token::Operator(outer_op(wanted))]);
}

/// A literal at `at`, followed by a token that ends a term, is a term with
/// the tree of the literal.
proof fn lemma_literal_term(tokens: Seq<Token>, at: nat, value: bool, negated: bool)
    requires
        occurs_at(tokens, at as int, literal_tokens(value, negated)),
        ends_term(token_at(tokens, at + literal_tokens(value, negated).len())),
    ensures
        parse_term(tokens, at) == (Parsed {
            outcome: Ok(literal_tree(value, negated)),
            consumed: literal_tokens(value, negated).len(),
        }),
{
    let item = literal_tokens(value, negated);
    let q = at as int;
    if negated {
        assert(item[0] == Token::Operator(OperatorType::Non));
        assert(item[1] == Token::Operand(value));
        assert(tokens[q + 0] == item[0]);
        assert(tokens[q + 1] == item[1]);
        lemma_negated_operand_term(tokens, at, value);
    } else {
        assert(item[0] == Token::Operand(value));
        assert(tokens[q + 0] == item[0]);
        lemma_operand_term(tokens, at, value);
    }
}

/// Where a part of a join stands that itself stands among other tokens, and
/// what follows it: the separator, or what follows the join.
proof fn lemma_part_in_tokens(
    tokens: Seq<Token>,
    pos: int,
    items: Seq<Seq<Token>>,
    separator: Seq<Token>,
    i: int,
)
    requires
        0 <= i < items.len(),
        separator.len() == 1,
        occurs_at(tokens, pos, join(items, separator)),
    ensures
        occurs_at(tokens, pos + part_start(items, separator, i), items[i]),
        i + 1 < items.len() ==> token_at(
            tokens,
            (pos + part_start(items, separator, i) + items[i].len()) as nat,
        ) == Some(separator[0]),
        i + 1 == items.len() ==> part_start(items, separator, i) + items[i].len() == join(
            items,
            separator,
        ).len(),
{
    let whole = join(items, separator);
    let start = part_start(items, separator, i);
    let item = items[i];
    lemma_join_parts(items, separator, i);
    assert forall|k: int| 0 <= k < item.len() implies tokens[pos + start + k] == #[trigger] item[k] by {
        assert(whole[start + k] == item[k]);
        assert(tokens[pos + (start + k)] == whole[start + k]);
    }
    let after = start + item.len();
    if i + 1 < items.len() {
        assert(occurs_at(whole, after, separator));
        assert(whole[after + 0] == separator[0]);
        assert(tokens[pos + after] == whole[after]);
    }
}

/// Where the parts of a clause stand that stands among other tokens: the
/// brackets at its ends and the joined literals between them.
proof fn lemma_clause_layout(
    tokens: Seq<Token>,
    pos: nat,
    entries: Seq<(char, bool)>,
    wanted: bool,
    values: Map<char, bool>,
)
    requires
        occurs_at(tokens, pos as int, clause_tokens(entries, wanted, values)),
    ensures
        clause_tokens(entries, wanted, values).len() == join(
            clause_items(entries, wanted, values),
            seq![Token::Operator(inner_op(wanted))],
        ).len() + 2,
        token_at(tokens, pos) == Some(Token::Bracket(BracketType::Left)),
        occurs_at(
            tokens,
            pos as int + 1,
            join(clause_items(entries, wanted, values), seq![Token::Operator(inner_op(wanted))]),
        ),
        token_at(
            tokens,
            pos + 1 + join(
                clause_items(entries, wanted, values),
                seq![Token::Operator(inner_op(wanted))],
            ).len(),
        ) == Some(Token::Bracket(BracketType::Right)),
{
    let body = join(clause_items(entries, wanted, values), seq![Token::Operator(inner_op(wanted))]);
    let whole = clause_tokens(entries, wanted, values);
    let n = body.len() as int;
    let p = pos as int;
    assert(whole.len() == n + 2);
    assert(whole[0] == Token::Bracket(BracketType::Left));
    assert(whole[n + 1] == Token::Bracket(BracketType::Right));
    assert(tokens[p + 0] == whole[0]);
    assert(tokens[p + (n + 1)] == whole[n + 1]);
    assert forall|k: int| 0 <= k < n implies tokens[p + 1 + k] == #[trigger] body[k] by {
        assert(whole[k + 1] == body[k]);
        assert(tokens[p + (k + 1)] == whole[k + 1]);
    }
}

/// The literal at `j` of a clause whose joined literals stand from `pos` on,
/// with a closing bracket behind them, is a term in its place.
proof fn lemma_literal_in_place(
    tokens: Seq<Token>,
    pos: nat,
    entries: Seq<(char, bool)>,
    wanted: bool,
    values: Map<char, bool>,
    j: int,
)
    requires
        0 <= j < entries.len(),
        occurs_at(
            tokens,
            pos as int,
            join(clause_items(entries, wanted, values), seq![Token::Operator(inner_op(wanted))]),
        ),
        token_at(
            tokens,
            pos + join(
                clause_items(entries, wanted, values),
                seq![Token::Operator(inner_op(wanted))],
            ).len(),
        ) == Some(Token::Bracket(BracketType::Right)),
    ensures
        term_in_place(
            tokens,
            pos,
            clause_items(entries, wanted, values),
            seq![Token::Operator(inner_op(wanted))],
            clause_trees(entries, wanted, values),
            j,
        ),
{
    let items = clause_items(entries, wanted, values);
    let trees = clause_trees(entries, wanted, values);
    let separator = seq![Token::Operator(inner_op(wanted))];
    let value = values[entries[j].0];
    let negated = entries[j].1 != wanted;
    lemma_part_in_tokens(tokens, pos as int, items, separator, j);
    let at = (pos + part_start(items, separator, j)) as nat;
    assert(items[j] == literal_tokens(value, negated));
    assert(trees[j] == literal_tree(value, negated));
    assert(ends_term(token_at(tokens, at + items[j].len())));
    lemma_literal_term(tokens, at, value, negated);
    lemma_term_in_place(tokens, pos, items, separator, trees, j, at);
}

/// The clause of a row, where it stands among other tokens and a token that
/// ends a term follows it, is a term with the tree of the clause.
pub proof fn lemma_clause_term(
    tokens: Seq<Token>,
    pos: nat,
    entries: Seq<(char, bool)>,
    wanted: bool,
    values: Map<char, bool>,
)
    requires
        entries.len() > 0,
        occurs_at(tokens, pos as int, clause_tokens(entries, wanted, values)),
        ends_term(token_at(tokens, pos + clause_tokens(entries, wanted, values).len())),
    ensures
        parse_term(tokens, pos) == (Parsed {
            outcome: Ok(clause_tree(entries, wanted, values)),
            consumed: clause_tokens(entries, wanted, values).len(),
        }),
{
    let items = clause_items(entries, wanted, values);
    let trees = clause_trees(entries, wanted, values);
    let op = inner_op(wanted);
    let separator = seq![Token::Operator(op)];
    let n = join(items, separator).len();
    lemma_clause_layout(tokens, pos, entries, wanted, values);
    assert forall|j: int| 0 <= j < items.len() implies #[trigger] term_in_place(
        tokens,
        pos + 1,
        items,
        separator,
        trees,
        j,
    ) by {
        lemma_literal_in_place(tokens, pos + 1, entries, wanted, values, j);
    }
    lemma_chain(tokens, pos + 1, items, trees, op);
    lemma_bracket_term(tokens, pos, chain(trees, op), n);
}

/// The clause at `i` of a form is a term in its place.
proof fn lemma_clause_in_place(
    chosen: Seq<Seq<(char, bool)>>,
    wanted: bool,
    values: Map<char, bool>,
    i: int,
)
    requires
        0 <= i < chosen.len(),
        chosen[i].len() > 0,
    ensures
        term_in_place(
            form_tokens(chosen, wanted, values),
            0,
            form_items(chosen, wanted, values),
            seq![Token::Operator(outer_op(wanted))],
            form_trees(chosen, wanted, values),
            i,
        ),
{
    let items = form_items(chosen, wanted, values);
    let trees = form_trees(chosen, wanted, values);
    let separator = seq![Token::Operator(outer_op(wanted))];
    let tokens = form_tokens(chosen, wanted, values);
    assert(occurs_at(tokens, 0, tokens));
    lemma_part_in_tokens(tokens, 0, items, separator, i);
    let at = part_start(items, separator, i) as nat;
    assert(items[i] == clause_tokens(chosen[i], wanted, values));
    assert(trees[i] == clause_tree(chosen[i], wanted, values));
    assert(ends_term(token_at(tokens, at + items[i].len())));
    lemma_clause_term(tokens, at, chosen[i], wanted, values);
    lemma_term_in_place(tokens, 0, items, separator, trees, i, at);
}

/// The tokens of a form are an expression: the tree of the form. It takes all of them.
pub proof fn lemma_form_tree(
    chosen: Seq<Seq<(char, bool)>>,
    wanted: bool,
    values: Map<char, bool>,
)
    requires
        chosen.len() > 0,
        forall|i: int| 0 <= i < chosen.len() ==> (#[trigger] chosen[i]).len() > 0,
    ensures
        parse_expr(form_tokens(chosen, wanted, values), 0) == (Parsed {
            outcome: Ok(form_tree(chosen, wanted, values)),
            consumed: form_tokens(chosen, wanted, values).len(),
        }),
{
    let items = form_items(chosen, wanted, values);
    let trees = form_trees(chosen, wanted, values);
    let op = outer_op(wanted);
    let separator = seq![Token::Operator(op)];
    let tokens = form_tokens(chosen, wanted, values);
    assert(occurs_at(tokens, 0, tokens));
    assert forall|i: int| 0 <= i < items.len() implies #[trigger] term_in_place(
        tokens,
        0,
        items,
        separator,
        trees,
        i,
    ) by {
        assert(chosen[i].len() > 0);
        lemma_clause_in_place(chosen, wanted, values, i);
    }
    lemma_chain(tokens, 0, items, trees, op);
}

/// A chain of conjunctions is true where all its trees are, a chain of
/// disjunctions where one of them is.
pub proof fn lemma_chain_value(trees: Seq<Node>, op: OperatorType)
    requires
        trees.len() > 0,
    ensures
        op == OperatorType::And ==> (evaluate(chain(trees, op)) <==> forall|i: int|
            0 <= i < trees.len() ==> evaluate(#[trigger] trees[i])),
        op == OperatorType::Or ==> (evaluate(chain(trees, op)) <==> exists|i: int|
            0 <= i < trees.len() && evaluate(#[trigger] trees[i])),
    decreases trees.len(),
{
    if trees.len() > 1 {
        let init = trees.drop_last();
        lemma_chain_value(init, op);
        let last = trees.last();
        assert(trees[trees.len() - 1] == last);
        if op == OperatorType::And {
            if evaluate(chain(trees, op)) {
                assert forall|i: int| 0 <= i < trees.len() implies evaluate(
                    #[trigger] trees[i],
                ) by {
                    if i < init.len() {
                        assert(init[i] == trees[i]);
                    }
                }
            } else if evaluate(chain(init, op)) {
            } else {
                let i = choose|i: int| 0 <= i < init.len() && !evaluate(#[trigger] init[i]);
                assert(trees[i] == init[i]);
            }
        }
        if op == OperatorType::Or {
            if evaluate(chain(init, op)) {
                let i = choose|i: int| 0 <= i < init.len() && evaluate(#[trigger] init[i]);
                assert(trees[i] == init[i]);
            }
            if exists|i: int| 0 <= i < trees.len() && evaluate(#[trigger] trees[i]) {
                let i = choose|i: int| 0 <= i < trees.len() && evaluate(#[trigger] trees[i]);
                if i < init.len() {
                    assert(init[i] == trees[i]);
                }
            }
        }
    }
}

/// Whether the assignment gives every variable of the entries the value
/// that the entries give it.
pub open spec fn agrees(entries: Seq<(char, bool)>, values: Map<char, bool>) -> bool {
    forall|j: int| 0 <= j < entries.len() ==> values[(#[trigger] entries[j]).0] == entries[j].1
}

/// In the disjunctive form the clause of a row is true under the
/// assignments that agree with the row; in the conjunctive form it is false
/// under them.
pub proof fn lemma_clause_value(entries: Seq<(char, bool)>, wanted: bool, values: Map<char, bool>)
    requires
        entries.len() > 0,
    ensures
        evaluate(clause_tree(entries, wanted, values)) == (agrees(entries, values) == wanted),
{
    let trees = clause_trees(entries, wanted, values);
    lemma_chain_value(trees, inner_op(wanted));
    assert forall|j: int| 0 <= j < entries.len() implies evaluate(#[trigger] trees[j]) == ((
    values[entries[j].0] == entries[j].1) == wanted) by {
        reveal_with_fuel(evaluate, 3);
    }
    if wanted {
        if agrees(entries, values) {
            assert forall|j: int| 0 <= j < trees.len() implies evaluate(#[trigger] trees[j]) by {
                assert(values[entries[j].0] == entries[j].1);
            }
        } else {
            let j = choose|j: int|
                0 <= j < entries.len() && values[(#[trigger] entries[j]).0] != entries[j].1;
            assert(!evaluate(trees[j]));
        }
    } else {
        if agrees(entries, values) {
            assert forall|j: int| 0 <= j < trees.len() implies !evaluate(#[trigger] trees[j]) by {
                assert(values[entries[j].0] == entries[j].1);
            }
        } else {
            let j = choose|j: int|
                0 <= j < entries.len() && values[(#[trigger] entries[j]).0] != entries[j].1;
            assert(evaluate(trees[j]));
        }
    }
}

/// Whether the assignment agrees with one of the chosen rows.
pub open spec fn agrees_with_one(chosen: Seq<Seq<(char, bool)>>, values: Map<char, bool>) -> bool {
    exists|i: int| 0 <= i < chosen.len() && agrees(#[trigger] chosen[i], values)
}

/// The disjunctive form is true under the assignments that agree with one
/// of its rows; the conjunctive form is false under them.
pub proof fn lemma_form_value(
    chosen: Seq<Seq<(char, bool)>>,
    wanted: bool,
    values: Map<char, bool>,
)
    requires
        chosen.len() > 0,
        forall|i: int| 0 <= i < chosen.len() ==> (#[trigger] chosen[i]).len() > 0,
    ensures
        evaluate(form_tree(chosen, wanted, values)) == (agrees_with_one(chosen, values) == wanted),
{
    let trees = form_trees(chosen, wanted, values);
    lemma_chain_value(trees, outer_op(wanted));
    assert forall|i: int| 0 <= i < chosen.len() implies evaluate(#[trigger] trees[i]) == (agrees(
        chosen[i],
        values,
    ) == wanted) by {
        assert(chosen[i].len() > 0);
        lemma_clause_value(chosen[i], wanted, values);
    }
    if agrees_with_one(chosen, values) {
        let i = choose|i: int| 0 <= i < chosen.len() && agrees(#[trigger] chosen[i], values);
        assert(evaluate(trees[i]) == wanted);
    } else {
        assert forall|i: int| 0 <= i < trees.len() implies evaluate(#[trigger] trees[i])
            != wanted by {
            assert(!agrees(chosen[i], values));
        }
    }
}

/// Whether the row at `j` has the result `wanted` and the entries `entries`.
pub open spec fn is_chosen_row(
    rows: Seq<(Assignment, bool)>,
    wanted: bool,
    entries: Seq<(char, bool)>,
    j: int,
) -> bool {
    0 <= j < rows.len() && rows[j].1 == wanted && rows[j].0.entries() == entries
}

/// Each of the chosen entries comes from a row with the wanted result.
pub proof fn lemma_selected_from(rows: Seq<(Assignment, bool)>, wanted: bool, c: int) -> (j: int)
    requires
        0 <= c < selected(rows, wanted).len(),
    ensures
        is_chosen_row(rows, wanted, selected(rows, wanted)[c], j),
    decreases rows.len(),
{
    let init = rows.drop_last();
    let before = selected(init, wanted);
    if c < before.len() {
        let j = lemma_selected_from(init, wanted, c);
        assert(init[j] == rows[j]);
        j
    } else {
        rows.len() - 1
    }
}

/// The entries of each row with the wanted result are among the chosen ones.
pub proof fn lemma_selected_has(rows: Seq<(Assignment, bool)>, wanted: bool, j: int) -> (c: int)
    requires
        0 <= j < rows.len(),
        rows[j].1 == wanted,
    ensures
        0 <= c < selected(rows, wanted).len(),
        selected(rows, wanted)[c] == rows[j].0.entries(),
    decreases rows.len(),
{
    let init = rows.drop_last();
    let before = selected(init, wanted);
    if j < init.len() {
        assert(init[j] == rows[j]);
        let c = lemma_selected_has(init, wanted, j);
        c
    } else {
        before.len() as int
    }
}

/// Over the same variables, none of them twice, an assignment agrees with
/// the entries that it was made of and with no others.
pub proof fn lemma_agrees_iff_same(a: Seq<(char, bool)>, b: Seq<(char, bool)>)
    requires
        columns(a) == columns(b),
        distinct_variables(b),
    ensures
        agrees(a, as_map(b)) <==> a == b,
{
    lemma_as_map(b);
    assert(a.len() == columns(a).len());
    assert(b.len() == columns(b).len());
    assert forall|j: int| 0 <= j < a.len() implies (#[trigger] a[j]).0 == b[j].0 by {
        assert(columns(a)[j] == a[j].0);
        assert(columns(b)[j] == b[j].0);
    }
    if agrees(a, as_map(b)) {
        assert forall|j: int| 0 <= j < a.len() implies a[j] == b[j] by {
            assert(as_map(b)[a[j].0] == a[j].1);
            assert(as_map(b)[b[j].0] == b[j].1);
        }
        assert(a =~= b);
    }
    if a == b {
        assert forall|j: int| 0 <= j < a.len() implies as_map(b)[(#[trigger] a[j]).0]
            == a[j].1 by {
            assert(as_map(b)[b[j].0] == b[j].1);
        }
    }
}

/// Whether every row gives a value to just the variables `vars`, in that
/// order, and no two rows give the same values.
pub open spec fn is_table_over(rows: Seq<(Assignment, bool)>, vars: Seq<char>) -> bool {
    &&& vars.len() > 0
    &&& forall|k: int| 0 <= k < vars.len() ==> is_variable(#[trigger] vars[k])
    &&& forall|a: int, b: int| 0 <= a < b < vars.len() ==> vars[a] != vars[b]
    &&& forall|i: int| 0 <= i < rows.len() ==> columns((#[trigger] rows[i]).0.entries()) == vars
    &&& forall|i: int, j: int|
        0 <= i < rows.len() && 0 <= j < rows.len() && i != j ==> (#[trigger] rows[i]).0.entries()
            != (#[trigger] rows[j]).0.entries()
}

/// The normal forms have the values of the table: of a table over at least
/// one variable, the disjunctive form, where a row is true, and the
/// conjunctive form, where a row is false, evaluate under the assignment of
/// each row to the result of that row.
pub proof fn lemma_normal_form_sound(
    rows: Seq<(Assignment, bool)>,
    vars: Seq<char>,
    wanted: bool,
    i: int,
)
    requires
        is_table_over(rows, vars),
        0 <= i < rows.len(),
        exists|j: int| 0 <= j < rows.len() && (#[trigger] rows[j]).1 == wanted,
    ensures
        truth_value(substitute(normal_form(rows, wanted), rows[i].0@)) == Some(rows[i].1),
{
    let mine = rows[i].0.entries();
    let values = rows[i].0@;
    let chosen = selected(rows, wanted);
    lemma_as_map(mine);
    assert(columns(mine) == vars);
    assert(mine.len() == vars.len());
    assert(distinct_variables(mine)) by {
        assert forall|a: int, b: int| 0 <= a < b < mine.len() implies (#[trigger] mine[a]).0 != (
        #[trigger] mine[b]).0 by {
            assert(columns(mine)[a] == mine[a].0);
            assert(columns(mine)[b] == mine[b].0);
        }
    }
    let witness = choose|j: int| 0 <= j < rows.len() && (#[trigger] rows[j]).1 == wanted;
    let first = lemma_selected_has(rows, wanted, witness);
    assert forall|c: int| 0 <= c < chosen.len() implies (#[trigger] chosen[c]).len() > 0
        && all_valued(chosen[c], values) && columns(chosen[c]) == vars by {
        let j = lemma_selected_from(rows, wanted, c);
        assert(columns(rows[j].0.entries()) == vars);
        assert(chosen[c].len() == columns(chosen[c]).len());
        assert forall|k: int| 0 <= k < chosen[c].len() implies is_variable(
            (#[trigger] chosen[c][k]).0,
        ) && values.dom().contains(chosen[c][k].0) by {
            assert(columns(chosen[c])[k] == chosen[c][k].0);
            assert(columns(mine)[k] == mine[k].0);
            assert(is_variable(vars[k]));
            assert(mentions(mine, mine[k].0));
        }
    }
    lemma_form_tokens(chosen, wanted, values);
    lemma_form_tree(chosen, wanted, values);
    lemma_form_value(chosen, wanted, values);
    assert(analyse(substitute(normal_form(rows, wanted), values)) == Ok::<
        Node,
        crate::calculator::SyntaxError,
    >(form_tree(chosen, wanted, values)));
    assert(agrees_with_one(chosen, values) == (rows[i].1 == wanted)) by {
        if rows[i].1 == wanted {
            let c = lemma_selected_has(rows, wanted, i);
            lemma_agrees_iff_same(mine, mine);
            assert(agrees(chosen[c], values));
        }
        if agrees_with_one(chosen, values) {
            let c = choose|c: int| 0 <= c < chosen.len() && agrees(#[trigger] chosen[c], values);
            let j = lemma_selected_from(rows, wanted, c);
            assert(columns(chosen[c]) == vars);
            lemma_agrees_iff_same(chosen[c], mine);
            assert(rows[j].0.entries() == rows[i].0.entries());
            assert(j == i);
        }
    }
}

/// The normal forms of the truth table of an expression with at least one
/// variable evaluate, under the assignment of each row, to the truth value
/// that the expression has under it: the disjunctive form where some row is
/// true, the conjunctive form where some row is false.
pub proof fn lemma_normal_form_of_expression(
    text: Seq<char>,
    rows: Seq<(Assignment, bool)>,
    wanted: bool,
    i: int,
)
    requires
        is_truth_table_of(rows, text),
        variables(text).len() > 0,
        0 <= i < rows.len(),
        exists|j: int| 0 <= j < rows.len() && (#[trigger] rows[j]).1 == wanted,
    ensures
        truth_value(substitute(normal_form(rows, wanted), rows[i].0@)) == Some(rows[i].1),
        truth_value(substitute(normal_form(rows, wanted), rows[i].0@)) == truth_value(
            substitute(text, rows[i].0@),
        ),
{
    let vars = variables(text);
    lemma_variables_among(text, 26);
    assert forall|r: int| 0 <= r < rows.len() implies columns((#[trigger] rows[r]).0.entries())
        == vars by {
        assert(crate::canonical::is_row_of(rows[r], text, r as nat));
        assert(columns(row_entries(vars, r as nat)) =~= vars);
    }
    assert forall|a: int, b: int|
        0 <= a < rows.len() && 0 <= b < rows.len() && a != b implies (#[trigger] rows[a]).0.entries()
        != (#[trigger] rows[b]).0.entries() by {
        assert(crate::canonical::is_row_of(rows[a], text, a as nat));
        assert(crate::canonical::is_row_of(rows[b], text, b as nat));
        lemma_rows_differ(vars, a as nat, b as nat);
    }
    assert(is_table_over(rows, vars));
    lemma_normal_form_sound(rows, vars, wanted, i);
    assert(crate::canonical::is_row_of(rows[i], text, i as nat));
}

} // verus!
