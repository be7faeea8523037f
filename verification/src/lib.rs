//! Evaluation of propositional-logic expressions written with the
//! connectives `¬ ∧ ∨ → ↔`, and truth tables and normal forms derived
//! from them.

pub mod lexer;
pub mod lexer_lemmas;
pub mod parser;
pub mod parser_lemmas;
pub mod tree_lemmas;
pub mod calculator;
pub mod calculator_lemmas;
pub mod text;
pub mod assignment;
pub mod canonical;
pub mod normal_form_lemmas;
