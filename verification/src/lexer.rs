//! Tokens of the expression language and the scanner that produces them.

use crate::lexer_lemmas::lemma_failures;
use vstd::prelude::*;

verus! {

/// Why a text could not be split into tokens.
#[derive(Debug, Clone, Copy, PartialEq, Eq)]
pub enum LexerError {
    /// A run of lowercase letters is neither `true` nor `false`.
    OperandFormatError,
    /// A character that belongs to no token and is not a space.
    UnknownChar,
    /// An inconsistency inside the lexer; never returned.
    LexError,
}

/// The five connectives.
#[derive(Debug, Clone, Copy, PartialEq, Eq)]
pub enum OperatorType {
    And,
    Or,
    Conditional,
    BiConditional,
    Non,
}

/// The two round brackets.
#[derive(Debug, Clone, Copy, PartialEq, Eq)]
pub enum BracketType {
    Left,
    Right,
}

/// A truth value, a connective or a bracket.
#[derive(Debug, Clone, Copy, PartialEq, Eq)]
pub enum Token {
    Operand(bool),
    Operator(OperatorType),
    Bracket(BracketType),
}

/// The connective that a character stands for, if it is one of the five glyphs.
pub open spec fn connective(c: char) -> Option<OperatorType> {
    if c == '¬' {
        Some(OperatorType::Non)
    } else if c == '∧' {
        Some(OperatorType::And)
    } else if c == '∨' {
        Some(OperatorType::Or)
    } else if c == '→' {
        Some(OperatorType::Conditional)
    } else if c == '↔' {
        Some(OperatorType::BiConditional)
    } else {
        None
    }
}

/// The bracket that a character stands for.
pub open spec fn bracket(c: char) -> Option<BracketType> {
    if c == '(' {
        Some(BracketType::Left)
    } else if c == ')' {
        Some(BracketType::Right)
    } else {
        None
    }
}

/// Whether `c` is one of the letters `a` to `z`.
pub open spec fn is_lowercase(c: char) -> bool {
    'a' <= c <= 'z'
}

/// The number of consecutive lowercase letters of `text` that start at `pos`.
pub open spec fn word_len(text: Seq<char>, pos: int) -> nat
    decreases text.len() - pos,
{
    if 0 <= pos < text.len() && is_lowercase(text[pos]) {
        1 + word_len(text, pos + 1)
    } else {
        0
    }
}

/// The truth value that a word spells: `true`, `false`, or none.
pub open spec fn keyword(word: Seq<char>) -> Option<bool> {
    if word == seq!['t', 'r', 'u', 'e'] {
        Some(true)
    } else if word == seq!['f', 'a', 'l', 's', 'e'] {
        Some(false)
    } else {
        None
    }
}

/// The word that spells a truth value.
pub open spec fn keyword_text(value: bool) -> Seq<char> {
    if value {
        seq!['t', 'r', 'u', 'e']
    } else {
        seq!['f', 'a', 'l', 's', 'e']
    }
}

/// Puts `token` in front of the tokens of a successful scan; a failure stays as it is.
pub open spec fn prepend(token: Token, rest: Result<Seq<Token>, LexerError>) -> Result<
    Seq<Token>,
    LexerError,
> {
    match rest {
        Ok(tokens) => Ok(seq![token] + tokens),
        Err(e) => Err(e),
    }
}

/// The tokens of `text` from the character at `pos` on, or the first
/// failure met when reading from left to right.
///
/// A connective glyph or a bracket is one token. A maximal run of lowercase
/// letters is one operand and must spell `true` or `false`. A space is
/// skipped. Any other character is unknown.
pub open spec fn tokens_from(text: Seq<char>, pos: int) -> Result<Seq<Token>, LexerError>
    decreases text.len() - pos,
    via tokens_from_terminates
{
    if !(0 <= pos < text.len()) {
        Ok(Seq::empty())
    } else if let Some(op) = connective(text[pos]) {
        prepend(Token::Operator(op), tokens_from(text, pos + 1))
    } else if is_lowercase(text[pos]) {
        let end = pos + word_len(text, pos);
        match keyword(text.subrange(pos, end)) {
            Some(value) => prepend(Token::Operand(value), tokens_from(text, end)),
            None => Err(LexerError::OperandFormatError),
        }
    } else if let Some(side) = bracket(text[pos]) {
        prepend(Token::Bracket(side), tokens_from(text, pos + 1))
    } else if text[pos] == ' ' {
        tokens_from(text, pos + 1)
    } else {
        Err(LexerError::UnknownChar)
    }
}

#[via_fn]
proof fn tokens_from_terminates(text: Seq<char>, pos: int) {
    lemma_word_len_bound(text, pos);
}

/// A word ends inside the text, and is not empty where it starts at a letter.
pub proof fn lemma_word_len_bound(text: Seq<char>, pos: int)
    ensures
        0 <= pos <= text.len() ==> pos + word_len(text, pos) <= text.len(),
        0 <= pos < text.len() && is_lowercase(text[pos]) ==> word_len(text, pos) >= 1,
    decreases text.len() - pos,
{
    if 0 <= pos < text.len() && is_lowercase(text[pos]) {
        lemma_word_len_bound(text, pos + 1);
    }
}

/// The tokens of a whole text.
pub open spec fn tokenize(text: Seq<char>) -> Result<Seq<Token>, LexerError> {
    tokens_from(text, 0)
}

/// The character of `text` at `pos`, if there is one.
spec fn char_at(text: Seq<char>, pos: nat) -> Option<char> {
    if pos < text.len() {
        Some(text[pos as int])
    } else {
        None
    }
}

/// The characters of `s`, one element each, whatever their width in bytes.
pub fn characters(s: &str) -> (chars: Vec<char>)
    ensures
        chars@ == s@,
{
    let mut chars: Vec<char> = Vec::new();
    for c in it: s.chars()
        invariant
            chars@ == it.seq().take(it.index()),
    {
        chars.push(c);
    }
    chars
}

/// A cursor over the characters of a text, counted in characters.
struct Scanner {
    raw: Vec<char>,
    pos: usize,
}

impl Scanner {
    /// The characters under the scanner.
    spec fn text(&self) -> Seq<char> {
        self.raw@
    }

    /// The index of the next character to be read, at most `text().len()`.
    spec fn position(&self) -> nat {
        self.pos as nat
    }

    #[verifier::type_invariant]
    spec fn in_bounds(&self) -> bool {
        self.pos <= self.raw.len()
    }

    fn new(s: &str) -> (scanner: Scanner)
        ensures
            scanner.text() == s@,
            scanner.position() == 0,
    {
        Scanner { raw: characters(s), pos: 0 }
    }

    /// The character under the cursor; the cursor stays.
    fn peek(&mut self) -> (c: Option<char>)
        ensures
            *final(self) == *old(self),
            c == char_at(old(self).text(), old(self).position()),
            old(self).position() <= old(self).text().len(),
    {
        proof {
            use_type_invariant(&*self);
        }
        if self.pos < self.raw.len() {
            Some(self.raw[self.pos])
        } else {
            None
        }
    }

    /// The character under the cursor; the cursor moves past it.
    fn next(&mut self) -> (c: Option<char>)
        ensures
            final(self).text() == old(self).text(),
            c == char_at(old(self).text(), old(self).position()),
            final(self).position() == if c is Some {
                old(self).position() + 1
            } else {
                old(self).position()
            },
    {
        proof {
            use_type_invariant(&*self);
        }
        if self.pos < self.raw.len() {
            let c = self.raw[self.pos];
            self.pos = self.pos + 1;
            Some(c)
        } else {
            None
        }
    }
}

/// The tokens of a text, scanned eagerly, with a cursor for one token of lookahead.
#[derive(Debug)]
pub struct Lexer {
    tokens: Vec<Token>,
    pos: usize,
}

/// The token of `tokens` at `pos`, if there is one.
pub open spec fn token_at(tokens: Seq<Token>, pos: nat) -> Option<Token> {
    if pos < tokens.len() {
        Some(tokens[pos as int])
    } else {
        None
    }
}

/// The tokens in `prefix` followed by those of a successful scan.
spec fn extend(prefix: Seq<Token>, rest: Result<Seq<Token>, LexerError>) -> Result<
    Seq<Token>,
    LexerError,
> {
    match rest {
        Ok(tokens) => Ok(prefix + tokens),
        Err(e) => Err(e),
    }
}

proof fn lemma_extend_prepend(prefix: Seq<Token>, token: Token, rest: Result<Seq<Token>, LexerError>)
    ensures
        extend(prefix, prepend(token, rest)) == extend(prefix.push(token), rest),
{
    if let Ok(tokens) = rest {
        assert(prefix + (seq![token] + tokens) =~= prefix.push(token) + tokens);
    }
}

/// The truth value that the collected letters spell.
fn parse_keyword(word: &Vec<char>) -> (value: Option<bool>)
    ensures
        value == keyword(word@),
{
    if word.len() == 4 && word[0] == 't' && word[1] == 'r' && word[2] == 'u' && word[3] == 'e' {
        assert(word@ =~= seq!['t', 'r', 'u', 'e']);
        Some(true)
    } else if word.len() == 5 && word[0] == 'f' && word[1] == 'a' && word[2] == 'l' && word[3]
        == 's' && word[4] == 'e' {
        assert(word@ =~= seq!['f', 'a', 'l', 's', 'e']);
        Some(false)
    } else {
        assert(word@ != seq!['t', 'r', 'u', 'e']) by {
            let w = seq!['t', 'r', 'u', 'e'];
            assert(w.len() == 4 && w[0] == 't' && w[1] == 'r' && w[2] == 'u' && w[3] == 'e');
        }
        assert(word@ != seq!['f', 'a', 'l', 's', 'e']) by {
            let w = seq!['f', 'a', 'l', 's', 'e'];
            assert(w.len() == 5 && w[0] == 'f' && w[1] == 'a' && w[2] == 'l' && w[3] == 's' && w[4]
                == 'e');
        }
        None
    }
}

impl Lexer {
    /// All tokens that were scanned.
    pub closed spec fn tokens(&self) -> Seq<Token> {
        self.tokens@
    }

    /// The index of the next token to be read, at most `tokens().len()`.
    pub closed spec fn position(&self) -> nat {
        self.pos as nat
    }

    #[verifier::type_invariant]
    spec fn in_bounds(&self) -> bool {
        self.pos <= self.tokens.len()
    }

    /// Scans the whole of `s`. Fails on the first run of letters that is no
    /// keyword and on the first unknown character, whichever comes first.
    pub fn new(s: &str) -> (lexer: Result<Lexer, LexerError>)
        ensures
            match lexer {
                Ok(l) => tokenize(s@) == Ok::<Seq<Token>, LexerError>(l.tokens()) && l.position()
                    == 0,
                Err(e) => tokenize(s@) == Err::<Seq<Token>, LexerError>(e) && (e
                    == LexerError::OperandFormatError || e == LexerError::UnknownChar),
            },
    {
        proof {
            lemma_failures(s@, 0);
        }
        let mut scanner = Scanner::new(s);
        let mut tokens: Vec<Token> = Vec::new();
        loop
            invariant
                scanner.text() == s@,
                scanner.position() <= s@.len(),
                tokenize(s@) == extend(tokens@, tokens_from(s@, scanner.position() as int)),
            decreases s@.len() - scanner.position(),
        {
            let ghost pos = scanner.position() as int;
            let ghost before = tokens@;
            let ch = match scanner.peek() {
                Some(ch) => ch,
                None => {
                    assert(tokens@ + Seq::<Token>::empty() =~= tokens@);
                    return Ok(Lexer { tokens, pos: 0 });
                },
            };
            if ch == '¬' || ch == '∧' || ch == '∨' || ch == '→' || ch == '↔' {
                let op = if ch == '¬' {
                    OperatorType::Non
                } else if ch == '∧' {
                    OperatorType::And
                } else if ch == '∨' {
                    OperatorType::Or
                } else if ch == '→' {
                    OperatorType::Conditional
                } else {
                    OperatorType::BiConditional
                };
                tokens.push(Token::Operator(op));
                scanner.next();
                proof {
                    lemma_extend_prepend(before, Token::Operator(op), tokens_from(s@, pos + 1));
                }
            } else if 'a' <= ch && ch <= 'z' {
                let mut buf: Vec<char> = Vec::new();
                loop
                    invariant
                        scanner.text() == s@,
                        pos < s@.len(),
                        is_lowercase(s@[pos]),
                        pos <= scanner.position() <= s@.len(),
                        buf@ == s@.subrange(pos, scanner.position() as int),
                        word_len(s@, pos) == (scanner.position() - pos) + word_len(
                            s@,
                            scanner.position() as int,
                        ),
                    ensures
                        scanner.text() == s@,
                        pos < scanner.position() <= s@.len(),
                        buf@ == s@.subrange(pos, scanner.position() as int),
                        scanner.position() == pos + word_len(s@, pos),
                    decreases s@.len() - scanner.position(),
                {
                    let ghost at = scanner.position() as int;
                    match scanner.peek() {
                        Some(c) => {
                            if !('a' <= c && c <= 'z') {
                                break ;
                            }
                            buf.push(c);
                            scanner.next();
                            assert(buf@ =~= s@.subrange(pos, at + 1));
                        },
                        None => {
                            break ;
                        },
                    }
                }
                match parse_keyword(&buf) {
                    Some(value) => {
                        tokens.push(Token::Operand(value));
                        proof {
                            lemma_extend_prepend(
                                before,
                                Token::Operand(value),
                                tokens_from(s@, scanner.position() as int),
                            );
                        }
                    },
                    None => {
                        return Err(LexerError::OperandFormatError);
                    },
                }
            } else if ch == '(' || ch == ')' {
                let side = if ch == '(' {
                    BracketType::Left
                } else {
                    BracketType::Right
                };
                tokens.push(Token::Bracket(side));
                scanner.next();
                proof {
                    lemma_extend_prepend(before, Token::Bracket(side), tokens_from(s@, pos + 1));
                }
            } else if ch == ' ' {
                scanner.next();
            } else {
                return Err(LexerError::UnknownChar);
            }
        }
    }

    /// The token under the cursor; the cursor moves past it.
    pub fn next(&mut self) -> (token: Option<&Token>)
        ensures
            final(self).tokens() == old(self).tokens(),
            token == match token_at(old(self).tokens(), old(self).position()) {
                Some(t) => Some(&t),
                None => None,
            },
            final(self).position() == if token is Some {
                old(self).position() + 1
            } else {
                old(self).position()
            },
            old(self).position() <= old(self).tokens().len(),
    {
        proof {
            use_type_invariant(&*self);
        }
        if self.pos < self.tokens.len() {
            self.pos = self.pos + 1;
            Some(&self.tokens[self.pos - 1])
        } else {
            None
        }
    }

    /// The token under the cursor; the cursor stays.
    pub fn peek(&mut self) -> (token: Option<&Token>)
        ensures
            *final(self) == *old(self),
            token == match token_at(old(self).tokens(), old(self).position()) {
                Some(t) => Some(&t),
                None => None,
            },
            old(self).position() <= old(self).tokens().len(),
    {
        proof {
            use_type_invariant(&*self);
        }
        if self.pos < self.tokens.len() {
            Some(&self.tokens[self.pos])
        } else {
            None
        }
    }
}

} // verus!
