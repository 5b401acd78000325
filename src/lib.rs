//! A CSV scanner, parser and editable table that reproduces its input exactly.
mod text;
pub mod table;
pub mod lex;
pub mod parse;
pub mod laws;
pub mod unique;

pub use lex::{Lexer, Token};
pub use parse::ParseError;
pub use table::{Cell, Csv, LineEnd, Row};
