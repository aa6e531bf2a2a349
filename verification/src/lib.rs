//! Lexing and parsing toolkit: lexemes, grammar symbols and rules, Earley
//! parser states, and the first steps of building a parse forest.

pub mod text;
pub mod lexer;
pub mod grammar;
pub mod parser;
pub mod forest;
pub mod earley_laws;
