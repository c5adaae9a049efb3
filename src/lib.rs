pub mod ast;
pub mod chars;
pub mod lexer;
pub mod number;
pub mod parser;
pub mod tokens;

pub use ast::{MultipleOperator, Node, OperatorKind, Program};
pub use lexer::Lexer;
pub use number::Number;
pub use parser::{ParseError, Parser};
pub use tokens::{Token, TokenView};
