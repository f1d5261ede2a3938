//! A parser for a minimal nested-list notation: brackets delimit lists,
//! whitespace separates items, and quotes and backslashes let an item hold
//! characters that would otherwise be structural.
//!
//! A document is read in two passes. The [`tokenizer`] turns its characters
//! into [`Token`]s; the [`builder`] turns the tokens into [`Node`]s, level by
//! level; [`from_str`] runs both and asks for exactly one root. Each pass is
//! specified by a spec function on sequences and proved to compute it.
//!
//! What follows from those definitions is proved beside them: [`lexical`]
//! tells from the text alone which texts the tokenizer rejects, [`balance`]
//! tells the builder's outcome from the brackets alone, [`grammar`] shows
//! that the builder reads exactly what the grammar writes, and [`laws`]
//! holds what is true of every document. [`table`] binds a parsed tree onto
//! records.

pub mod balance;
pub mod builder;
pub mod document;
pub mod error;
pub mod grammar;
pub mod laws;
pub mod lexical;
pub mod node;
pub mod table;
pub mod token;
pub mod tokenizer;

pub use builder::{from_tokens, TokenCursor, MAX_DEPTH};
pub use document::from_str;
pub use error::ParseError;
pub use node::{Node, Tree};
pub use table::{Person, Table};
pub use token::{Lexeme, Token};
pub use tokenizer::{parse_tokens, Tokenizer};
