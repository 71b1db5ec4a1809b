//! Conversion of whitespace-separated infix arithmetic into postfix notation,
//! and evaluation of postfix expressions over `i32`.
pub mod converter;
pub mod error;
pub mod laws;
pub mod lexer;
pub mod processor;

pub use converter::{Converter, Stackable};
pub use error::CalcError;
pub use processor::{evaluate, Processor};
