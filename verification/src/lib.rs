//! A JSON reader: a tokenizer, a recursive-descent parser, a value tree and its text
//! form.
//!
//! Strings are taken as they stand: no escape sequence is read or written. Numbers are
//! kept as the literals they were written with; a caller that wants them written in
//! another way takes the text in `pieces`.

use vstd::prelude::*;

pub mod json_value;
pub mod lexer;
pub mod number;
pub mod object;
pub mod parser;
pub mod pieces;
pub mod round_trip;
pub mod text;

use crate::json_value::{JsonModel, JsonValue};
use crate::lexer::{kinds_of, lex_text, token_models, LexError, Lexer};
use crate::parser::{parse_tokens, token_kinds, JsonParseError, Parser, DEFAULT_MAX_DEPTH};

verus! {

/// Why a text is no document.
#[derive(Debug, Clone, Copy, PartialEq, Eq)]
pub enum JsonError {
    /// The text has no tokens; the position is an offset into the text.
    Lex(LexError),
    /// The tokens make no value; the location is the index of a token.
    Parse(JsonParseError),
}

/// The value that a text denotes where arrays and objects may nest `depth` deep, or the
/// first error: a lexical one where the text has no tokens, else a syntax error.
pub open spec fn parse_text(s: Seq<char>, depth: nat) -> Result<JsonModel, JsonError> {
    match lex_text(s) {
        Err(e) => Err(JsonError::Lex(e)),
        Ok(tokens) => match parse_tokens(kinds_of(tokens), 0, depth) {
            Ok(v) => Ok(v),
            Err(e) => Err(JsonError::Parse(e)),
        },
    }
}

/// What `parse_json` returned, the value taken by its view.
pub open spec fn parsed_text(r: Result<JsonValue, JsonError>) -> Result<JsonModel, JsonError> {
    match r {
        Ok(v) => Ok(v@),
        Err(e) => Err(e),
    }
}

/// The value that `json_data` denotes, or the first error in it. Arrays and objects may
/// nest `DEFAULT_MAX_DEPTH` deep.
pub fn parse_json(json_data: String) -> (r: Result<JsonValue, JsonError>)
    ensures
        parsed_text(r) == parse_text(json_data@, DEFAULT_MAX_DEPTH as nat),
{
    let tokens = match Lexer::new(json_data).lex() {
        Ok(tokens) => tokens,
        Err(e) => {
            return Err(JsonError::Lex(e));
        },
    };
    assert(token_kinds(tokens@) == kinds_of(token_models(tokens@)));
    match Parser::new(tokens).parse() {
        Ok(v) => Ok(v),
        Err(e) => Err(JsonError::Parse(e)),
    }
}

} // verus!
