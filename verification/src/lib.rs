//! A CSS token-stream parser: it turns a flat sequence of lexical tokens
//! into structured syntax nodes — selectors, declarations, declaration
//! blocks and rules — while reconstructing the literal text of values and
//! selectors, including arbitrarily nested parentheses, brackets and
//! function calls.
//!
//! Tokenization is left to an external lexer: the parser consumes a
//! [`token::TokenStream`] of plain [`token::Token`] values and never reads
//! raw text itself.

pub mod laws;
pub mod nodes;
pub mod parser;
pub mod scan;
pub mod text;
pub mod token;
