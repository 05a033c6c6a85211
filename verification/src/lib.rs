//! Front end of a small scripting language: a lazy lexical scanner and a
//! statement/expression parser that linearizes infix arithmetic into a flat
//! postfix buffer shared by all statements.

pub mod error;
pub mod lexer;
pub mod parser;
pub mod postfix;
