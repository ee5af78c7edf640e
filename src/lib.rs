//! Format-description parsing: a lexer and an AST builder for bracketed
//! format descriptions, and the cursor-based scanning combinators used to
//! read date/time text against them.
pub mod span;
pub mod combinator;
pub mod lexer;
pub mod ast;
