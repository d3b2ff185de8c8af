//! A verified interpreter for textual polynomial expressions.
//!
//! The pipeline lexes an input string into tokens, parses the tokens into a
//! flat list of additive terms, folds terms with equal monomial signatures
//! into one aggregated coefficient each, and renders the result as a
//! canonical string: terms ordered by variable name ascending and exponent
//! descending, with the constant term last.

pub mod errors;
pub mod expression;
pub mod interpreter;
pub mod laws;
pub mod lexer;
pub mod numerals;
pub mod parser;
pub mod text;
