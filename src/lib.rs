//! Front end of a small arithmetic language: a line-oriented parser, and a flattener that
//! lowers nested expressions and comparisons into definitions of one operation each.

pub mod ast;
pub mod names;
pub mod flatten;
pub mod laws;
pub mod lexer;
pub mod parser;

pub use flatten::flatten_program;
pub use parser::parse_program;
