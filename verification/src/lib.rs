pub mod ast;
pub mod errors;
pub mod evaluator;
pub mod extent;
pub mod grouping;
pub mod lexer;
pub mod reading;
pub mod render;
pub mod shunting_yard;
pub mod tokens;
