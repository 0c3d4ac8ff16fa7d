use vstd::prelude::*;

pub mod ast;
pub mod codegen;
pub mod config;
pub mod lexer;
pub mod names;
pub mod parser;
pub mod response;
pub mod routes;
pub mod text;
pub mod tokens;

pub use parser::{Error, Parser};

verus! {

} // verus!
