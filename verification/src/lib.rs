//! A verified reader for a small S-expression language.
//!
//! Raw text is tokenized by a maximal-munch lexer driven by a fixed,
//! priority-ordered table of token categories, and the token stream is
//! parsed by a recursive-descent parser into an immutable cons-cell
//! value (atoms, nested lists, dotted pairs, and the quote shorthand).
//! Every stage carries a contract relating it to a mathematical model
//! of the grammar, and a canonical printer is proved to round-trip
//! through the reader for lists of well-formed atoms.
#![allow(non_camel_case_types)]

pub mod laws;
pub mod lexer;
pub mod list;
pub mod matcher;
pub mod parse;
pub mod token;
pub mod val;
