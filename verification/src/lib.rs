pub mod ast;
pub mod diagnostic;
pub mod grammar;
pub mod lexer;
pub mod parse_tree;
pub mod parser;
pub mod semantic_analysis;
pub mod string_table;
pub mod utils;
