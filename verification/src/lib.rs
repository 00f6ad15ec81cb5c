//! Lexical front end for a small calculator language: it turns source text
//! into a sequence of typed, position-tagged tokens, including recursive
//! superscript exponent regions such as `x^(2+3)`.

pub mod laws;
pub mod scan;
pub mod token;

pub use scan::tokenize;
pub use token::{LexError, LexErrorKind, Token, TokenType};
