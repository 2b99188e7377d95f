//! Tokenizing: character categories, input files and tokens.
pub mod lexer;
pub mod parser;
