//! A parser and two printers for a small JSON-like tree format.
//!
//! Tokens come from an outside scanner; [`parser::Parser`] turns them into a
//! [`node::Node`] tree, and [`printer::PrettyPrint`] renders that tree either
//! compactly or with indentation.
pub mod ast;
pub mod grammar;
pub mod lemmas;
pub mod node;
pub mod parser;
pub mod printer;
pub mod token;

pub use ast::{AstPrinter, Property};
pub use node::Node;
pub use parser::{Parser, ParserError};
pub use printer::PrettyPrint;
pub use token::{Literal, Token, TokenType};
