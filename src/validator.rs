use vstd::prelude::*;

use crate::lexer::{lex, Lexer};
use crate::parser::{parse_tokens, ParseError, Parser};
use crate::token::Token;
use crate::value::{JsonValue, SpecValue};

verus! {

/// What a JSON text stands for: its tokens must make one value, and that
/// value must be an array or an object.
pub open spec fn json_of(s: Seq<char>) -> Result<SpecValue, ParseError> {
    let t = lex(s);
    if t.len() == 0 {
        Err(ParseError::InvalidJson)
    } else if !(t[0] is OpenBrace || t[0] is OpenBracket) {
        Err(ParseError::InvalidJson)
    } else {
        match parse_tokens(t) {
            Ok(v) => if v is Array || v is Object {
                Ok(v)
            } else {
                Err(ParseError::InvalidJson)
            },
            Err(e) => Err(e),
        }
    }
}

/// Reads a JSON text into its value.
pub fn parse_json(input: &str) -> (r: Result<JsonValue, ParseError>)
    ensures
        match json_of(input@) {
            Ok(v) => r matches Ok(val) && val@ == v,
            Err(e) => r matches Err(e2) && e2 == e,
        },
{
    let mut lexer = Lexer::new(input);
    let tokens = lexer.tokenize();
    if tokens.len() == 0 {
        return Err(ParseError::InvalidJson);
    }
    assert(lex(input@)[0] == tokens@[0]@);
    if !(tokens[0] == Token::OpenBrace || tokens[0] == Token::OpenBracket) {
        return Err(ParseError::InvalidJson);
    }
    let mut parser = Parser::new(tokens);
    let result = match parser.parse() {
        Ok(v) => v,
        Err(e) => return Err(e),
    };
    match result {
        JsonValue::Object(_) | JsonValue::Array(_) => Ok(result),
        _ => Err(ParseError::InvalidJson),
    }
}

/// Whether a text is JSON: `Ok` exactly where `parse_json` gives a value.
pub fn validate_json(input: &str) -> (r: Result<(), ParseError>)
    ensures
        match json_of(input@) {
            Ok(_) => r is Ok,
            Err(e) => r == Err::<(), ParseError>(e),
        },
{
    match parse_json(input) {
        Ok(_) => Ok(()),
        Err(e) => Err(e),
    }
}

} // verus!
