pub mod gramatica;
pub mod lexer;
pub mod parser;
pub mod parser2;
pub mod texto;
