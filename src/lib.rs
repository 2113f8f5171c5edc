pub mod lexer;
pub mod parser;
pub mod scope;
pub mod typechecker;
pub mod interpreter;
