//! A JSON tokenizer and recursive-descent parser.
//!
//! Text is read into tokens (`lexer`), tokens into a value tree (`parser`),
//! and `validator` asks that the root be an array or an object. Each step is
//! stated by spec functions over character and token sequences, and `laws`
//! proves what holds across them.
use vstd::prelude::*;

pub mod chars;
pub mod laws;
pub mod lex_lemmas;
pub mod lexer;
pub mod parse_lemmas;
pub mod parser;
pub mod token;
pub mod validator;
pub mod value;

pub use lexer::Lexer;
pub use parser::{ParseError, Parser};
pub use token::Token;
pub use validator::{parse_json, validate_json};
pub use value::JsonValue;

verus! {

} // verus!
