//! An indentation-aware lexer for a small functional language.
//!
//! The lexer turns a sequence of code points into positioned tokens.
//! Leading-whitespace changes at line starts are tokenized explicitly as
//! `Indent`/`Unindent`, so a parser can treat layout as structure.

pub mod chars;
pub mod laws;
pub mod lexer;
pub mod model;
pub mod text;
pub mod token;
