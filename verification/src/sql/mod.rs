pub mod ast;
pub mod diagnostic;
pub mod lexer;
pub mod parser;
