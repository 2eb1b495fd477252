//! Front end of a compiler for an indentation-block scripting language.
//!
//! The core is an indentation-sensitive lexer that turns source text into a
//! token list plus a list of recovered lexing faults, together with the
//! arena-and-interning infrastructure that backs the syntax tree the token
//! stream feeds: a deduplicating string interner with cheap handles, a bump
//! arena for tree nodes, and the node model itself.

pub mod ast;
pub mod context;
pub mod ident;
pub mod laws;
pub mod lexer;
pub mod model;
pub mod token;
pub mod unicode;
