//! DirectedType: a functional reactive layout language whose documents compile
//! into a directed acyclic graph of layout variables.

pub mod ast;
pub mod chars;
pub mod compiler;
pub mod error;
pub mod lexer;
pub mod parser;
pub mod render;
pub mod span;
pub mod syntax_copy;
pub mod token;

pub use ast::Document;
pub use error::ParseError;
pub use parser::parse_document as parse;
