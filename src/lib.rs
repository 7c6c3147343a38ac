pub mod expr;
pub mod grouping;
pub mod in_order;
pub mod lexer;
pub mod parser;
