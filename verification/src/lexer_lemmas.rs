//! Laws of the lexer: how the tokens of a text come of the tokens of its parts.

use crate::lexer::{
    is_lowercase, keyword, keyword_text, lemma_word_len_bound, prepend, tokenize, tokens_from,
    word_len, BracketType, LexerError, OperatorType, Token,
};
use vstd::prelude::*;

verus! {

/// No word runs from the end of `a` into the start of `b`.
pub open spec fn clean_boundary(a: Seq<char>, b: Seq<char>) -> bool {
    a.len() == 0 || b.len() == 0 || !is_lowercase(a.last()) || !is_lowercase(b[0])
}

/// The tokens of two scans one after the other; the first failure wins.
pub open spec fn append(
    first: Result<Seq<Token>, LexerError>,
    second: Result<Seq<Token>, LexerError>,
) -> Result<Seq<Token>, LexerError> {
    match first {
        Ok(head) => match second {
            Ok(tail) => Ok(head + tail),
            Err(e) => Err(e),
        },
        Err(e) => Err(e),
    }
}

proof fn lemma_word_len_shift(a: Seq<char>, b: Seq<char>, q: int)
    requires
        0 <= q,
    ensures
        word_len(a + b, a.len() + q) == word_len(b, q),
    decreases b.len() - q,
{
    if q < b.len() {
        assert((a + b)[a.len() + q] == b[q]);
        if is_lowercase(b[q]) {
            lemma_word_len_shift(a, b, q + 1);
        }
    }
}

proof fn lemma_tokens_from_shift(a: Seq<char>, b: Seq<char>, q: int)
    requires
        0 <= q,
    ensures
        tokens_from(a + b, a.len() + q) == tokens_from(b, q),
    decreases b.len() - q,
{
    if q < b.len() {
        let c = b[q];
        assert((a + b)[a.len() + q] == c);
        if is_lowercase(c) {
            lemma_word_len_shift(a, b, q);
            lemma_word_len_bound(b, q);
            let n = word_len(b, q);
            assert((a + b).subrange(a.len() + q, a.len() + q + n) =~= b.subrange(q, q + n));
            lemma_tokens_from_shift(a, b, q + n);
        } else {
            lemma_tokens_from_shift(a, b, q + 1);
        }
    }
}

proof fn lemma_word_len_prefix(a: Seq<char>, b: Seq<char>, p: int)
    requires
        0 <= p < a.len(),
        clean_boundary(a, b),
    ensures
        word_len(a + b, p) == word_len(a, p),
    decreases a.len() - p,
{
    assert((a + b)[p] == a[p]);
    if is_lowercase(a[p]) {
        if p + 1 < a.len() {
            lemma_word_len_prefix(a, b, p + 1);
        } else {
            assert(a.last() == a[p]);
            if b.len() > 0 {
                assert((a + b)[a.len() as int] == b[0]);
            }
            assert(word_len(a + b, p + 1) == 0);
            assert(word_len(a, p + 1) == 0);
        }
    }
}

proof fn lemma_append_prepend(
    token: Token,
    first: Result<Seq<Token>, LexerError>,
    second: Result<Seq<Token>, LexerError>,
)
    ensures
        append(prepend(token, first), second) == prepend(token, append(first, second)),
{
    if let Ok(head) = first {
        if let Ok(tail) = second {
            assert((seq![token] + head) + tail =~= seq![token] + (head + tail));
        }
    }
}

proof fn lemma_tokens_from_prefix(a: Seq<char>, b: Seq<char>, p: int)
    requires
        0 <= p <= a.len(),
        clean_boundary(a, b),
    ensures
        tokens_from(a + b, p) == append(tokens_from(a, p), tokenize(b)),
    decreases a.len() - p,
{
    if p == a.len() {
        lemma_tokens_from_shift(a, b, 0);
        if let Ok(tail) = tokenize(b) {
            assert(Seq::<Token>::empty() + tail =~= tail);
        }
    } else {
        let c = a[p];
        assert((a + b)[p] == c);
        if is_lowercase(c) {
            lemma_word_len_prefix(a, b, p);
            lemma_word_len_bound(a, p);
            let n = word_len(a, p);
            assert((a + b).subrange(p, p + n) =~= a.subrange(p, p + n));
            lemma_tokens_from_prefix(a, b, p + n);
            if let Some(value) = keyword(a.subrange(p, p + n)) {
                lemma_append_prepend(Token::Operand(value), tokens_from(a, p + n), tokenize(b));
            }
        } else {
            lemma_tokens_from_prefix(a, b, p + 1);
            match tokens_from(a, p) {
                Ok(_) => {
                    if c != ' ' {
                        let token = (tokens_from(a, p)->Ok_0)[0];
                        lemma_append_prepend(token, tokens_from(a, p + 1), tokenize(b));
                    }
                },
                Err(_) => {},
            }
        }
    }
}

/// Where no word runs across the seam, the tokens of `a + b` are those of
/// `a` followed by those of `b`, and the first failure of the two is the
/// failure of the whole.
pub proof fn lemma_tokenize_concat(a: Seq<char>, b: Seq<char>)
    requires
        clean_boundary(a, b),
    ensures
        tokenize(a + b) == append(tokenize(a), tokenize(b)),
{
    lemma_tokens_from_prefix(a, b, 0);
}

/// Scanning fails on a word that is no keyword or on an unknown character,
/// and in no other way.
pub proof fn lemma_failures(text: Seq<char>, pos: int)
    ensures
        tokens_from(text, pos) matches Err(e) ==> e == LexerError::OperandFormatError || e
            == LexerError::UnknownChar,
    decreases text.len() - pos,
{
    if 0 <= pos < text.len() {
        lemma_word_len_bound(text, pos);
        if is_lowercase(text[pos]) {
            lemma_failures(text, pos + word_len(text, pos));
        } else {
            lemma_failures(text, pos + 1);
        }
    }
}

/// A keyword alone is one operand.
pub proof fn lemma_tokenize_keyword(value: bool)
    ensures
        tokenize(keyword_text(value)) == Ok::<Seq<Token>, LexerError>(seq![Token::Operand(value)]),
{
    let text = keyword_text(value);
    reveal_with_fuel(word_len, 7);
    assert(word_len(text, 0) == text.len());
    assert(text.subrange(0, text.len() as int) =~= text);
    assert(keyword(text) == Some(value)) by {
        let t = seq!['t', 'r', 'u', 'e'];
        let f = seq!['f', 'a', 'l', 's', 'e'];
        assert(t.len() == 4 && f.len() == 5);
    }
    assert(tokens_from(text, text.len() as int) == Ok::<Seq<Token>, LexerError>(Seq::empty()));
    assert(seq![Token::Operand(value)] + Seq::<Token>::empty() =~= seq![Token::Operand(value)]);
}

/// A single character that is no letter: its token, nothing for a space, or
/// the failure for an unknown character.
pub proof fn lemma_tokenize_char(c: char)
    requires
        !is_lowercase(c),
    ensures
        tokenize(seq![c]) == tokens_from(seq![c], 0),
        c == ' ' ==> tokenize(seq![c]) == Ok::<Seq<Token>, LexerError>(Seq::empty()),
        c == '¬' ==> tokenize(seq![c]) == Ok::<Seq<Token>, LexerError>(
            seq![Token::Operator(OperatorType::Non)],
        ),
        c == '∧' ==> tokenize(seq![c]) == Ok::<Seq<Token>, LexerError>(
            seq![Token::Operator(OperatorType::And)],
        ),
        c == '∨' ==> tokenize(seq![c]) == Ok::<Seq<Token>, LexerError>(
            seq![Token::Operator(OperatorType::Or)],
        ),
        c == '→' ==> tokenize(seq![c]) == Ok::<Seq<Token>, LexerError>(
            seq![Token::Operator(OperatorType::Conditional)],
        ),
        c == '↔' ==> tokenize(seq![c]) == Ok::<Seq<Token>, LexerError>(
            seq![Token::Operator(OperatorType::BiConditional)],
        ),
        c == '(' ==> tokenize(seq![c]) == Ok::<Seq<Token>, LexerError>(
            seq![Token::Bracket(BracketType::Left)],
        ),
        c == ')' ==> tokenize(seq![c]) == Ok::<Seq<Token>, LexerError>(
            seq![Token::Bracket(BracketType::Right)],
        ),
{
    let text = seq![c];
    assert(tokens_from(text, 1) == Ok::<Seq<Token>, LexerError>(Seq::empty()));
    assert forall|t: Token| seq![t] + Seq::<Token>::empty() =~= seq![t] by {}
}

} // verus!
