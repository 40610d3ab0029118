//! A verified parser for label-selector strings.
//!
//! A selector such as `env in (prod, dev), tier != web, !legacy` is split
//! into comma/whitespace separated fragments, and each fragment is reduced
//! to one structured [`Expression`]: `key=value` and `key==value` mean
//! equality, `key!=value` inequality, `key in (...)` and `key notin (...)`
//! set membership, a bare `key` existence, and `!key` non-existence.
//! Malformed fragments are reported as typed errors carrying the offending
//! text and its exact character span in the original input.
//!
//! The grammar lives twice here. `model` states it mathematically over
//! `Seq<char>`; `classes`, `parse` and `lexer` execute it, each function
//! proved to return exactly what the model denotes. `expr` holds the
//! result type, whose `In`/`NotIn` value sets are kept sorted and unique;
//! `render` prints an expression back in canonical form; and `laws`
//! proves the grammar's headline properties, among them that parsing a
//! rendering returns exactly the rendered expressions.
//!
//! One deliberate asymmetry of the grammar is preserved: members of a
//! parenthesized value list are drawn from `[a-zA-Z_-]` only, so digits
//! and dots are rejected there even though keys and equality values
//! accept them.

pub mod classes;
pub mod expr;
pub mod laws;
pub mod lexer;
pub mod model;
pub mod parse;
pub mod render;

pub use classes::CharClass;
pub use expr::Expression;
pub use lexer::{parse_expression, Expressions, Lexer, ParseError, ParsedExpression, Span};
pub use model::SpecExpression;
pub use parse::{parse_equality, parse_set, parse_value_list};
