pub mod lexer;
pub mod compiler;
pub mod engine;
pub mod grammar;
