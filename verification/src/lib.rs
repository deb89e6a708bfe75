//! An infix arithmetic expression parser built on binding powers
//! (precedence climbing), together with a renderer that prints the
//! resulting tree in fully parenthesized prefix notation.

pub mod ast;
pub mod laws;
pub mod lexer;
pub mod parser;
pub mod token;

pub use ast::Expr;
pub use parser::parse;
pub use parser::ParseError;
pub use token::Token;
