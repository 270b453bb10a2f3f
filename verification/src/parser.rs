//! The parser: from tokens to a value, by recursive descent.
//!
//! ```text
//! json    := value EOF?
//! value   := object | array | string | number | "true" | "false" | "null"
//! object  := '{' '}' | '{' member (',' member)* '}'
//! member  := '"' string ':' value
//! array   := '[' ']' | '[' value (',' value)* ']'
//! string  := '"' '"' | '"' content '"'
//! ```

use vstd::prelude::*;
use vstd::string::*;
use crate::json_value::{lemma_array_view, value_models, JsonBool, JsonModel, JsonValue};
use crate::lexer::{KindModel, Token, TokenKind};
use crate::object::{upsert, JsonObject, Members};

verus! {

/// How deep arrays and objects may nest unless the caller says otherwise.
pub const DEFAULT_MAX_DEPTH: usize = 128;

/// What the parser missed.
#[derive(Debug, Clone, Copy, PartialEq, Eq)]
pub enum ParseErrorKind {
    /// No value begins here.
    ExpectedValue,
    /// An object goes on with neither `,` nor `}`.
    ExpectedBrace,
    /// An array goes on with neither `,` nor `]`.
    ExpectedBracket,
    /// Neither a string's content nor its opening quote stands here.
    ExpectedString,
    /// A string's content is not followed by a quote.
    ExpectedQuote,
    /// A key is not followed by `:`.
    ExpectedColon,
    /// Something follows the value.
    TrailingInput,
    /// Arrays and objects nest deeper than the parser was told to follow.
    TooDeep,
}

/// What the parser missed, and the index of the token at which it missed it.
#[derive(Debug, Clone, Copy, PartialEq, Eq)]
pub struct JsonParseError {
    pub kind: ParseErrorKind,
    pub location: usize,
}

/// The words that describe an error of the given kind.
pub open spec fn parse_error_text(kind: ParseErrorKind) -> Seq<char> {
    match kind {
        ParseErrorKind::ExpectedValue => "Expected value"@,
        ParseErrorKind::ExpectedBrace => "Expected '}'"@,
        ParseErrorKind::ExpectedBracket => "Expected ']'"@,
        ParseErrorKind::ExpectedString => "Expected String"@,
        ParseErrorKind::ExpectedQuote => "Expected '\"' after String"@,
        ParseErrorKind::ExpectedColon => "Expected ':'"@,
        ParseErrorKind::TrailingInput => "Unexpected element after value"@,
        ParseErrorKind::TooDeep => "Nesting too deep"@,
    }
}

impl JsonParseError {
    /// The error of the given kind at token `location`.
    pub fn new(kind: ParseErrorKind, location: usize) -> (e: JsonParseError)
        ensures
            e == (JsonParseError { kind, location }),
    {
        JsonParseError { kind, location }
    }

    /// The error in words, without its location.
    pub fn msg(&self) -> (r: String)
        ensures
            r@ == parse_error_text(self.kind),
    {
        match self.kind {
            ParseErrorKind::ExpectedValue => String::from_str("Expected value"),
            ParseErrorKind::ExpectedBrace => String::from_str("Expected '}'"),
            ParseErrorKind::ExpectedBracket => String::from_str("Expected ']'"),
            ParseErrorKind::ExpectedString => String::from_str("Expected String"),
            ParseErrorKind::ExpectedQuote => String::from_str("Expected '\"' after String"),
            ParseErrorKind::ExpectedColon => String::from_str("Expected ':'"),
            ParseErrorKind::TrailingInput => String::from_str("Unexpected element after value"),
            ParseErrorKind::TooDeep => String::from_str("Nesting too deep"),
        }
    }
}

/// What a production yields: what it built and the index of the first token behind it,
/// or the error that stopped it.
pub type Parsed<T> = Result<(T, int), JsonParseError>;

/// Whether the token at `pos` exists and is of the given kind.
pub open spec fn is_kind(t: Seq<KindModel>, pos: int, kind: KindModel) -> bool {
    0 <= pos < t.len() && t[pos] == kind
}

/// The failure of the given kind at token `pos`.
pub open spec fn missed(kind: ParseErrorKind, pos: int) -> JsonParseError {
    JsonParseError { kind, location: pos as usize }
}

/// `string`, entered behind the opening quote: a closing quote at once, for the empty
/// string, or a content token and then the closing quote.
pub open spec fn parse_string(t: Seq<KindModel>, pos: int) -> Parsed<Seq<char>> {
    if is_kind(t, pos, KindModel::DoubleQuote) {
        Ok((Seq::empty(), pos + 1))
    } else if 0 <= pos < t.len() && t[pos] is String {
        if is_kind(t, pos + 1, KindModel::DoubleQuote) {
            Ok((t[pos]->String_0, pos + 2))
        } else {
            Err(missed(ParseErrorKind::ExpectedQuote, pos + 1))
        }
    } else {
        Err(missed(ParseErrorKind::ExpectedString, pos))
    }
}

/// `value`, entered at its first token, with `depth` levels of nesting still allowed.
pub open spec fn parse_value(t: Seq<KindModel>, pos: int, depth: nat) -> Parsed<JsonModel>
    decreases t.len() - pos, 0nat,
{
    if pos < 0 || pos >= t.len() {
        Err(missed(ParseErrorKind::ExpectedValue, pos))
    } else {
        match t[pos] {
            KindModel::LeftBrace => if depth == 0 {
                Err(missed(ParseErrorKind::TooDeep, pos))
            } else {
                parse_object(t, pos + 1, (depth - 1) as nat)
            },
            KindModel::LeftBracket => if depth == 0 {
                Err(missed(ParseErrorKind::TooDeep, pos))
            } else {
                parse_array(t, pos + 1, (depth - 1) as nat)
            },
            KindModel::DoubleQuote => match parse_string(t, pos + 1) {
                Ok((s, next)) => Ok((JsonModel::String(s), next)),
                Err(e) => Err(e),
            },
            KindModel::Number(x) => Ok((JsonModel::Number(x), pos + 1)),
            KindModel::True => Ok((JsonModel::Bool(true), pos + 1)),
            KindModel::False => Ok((JsonModel::Bool(false), pos + 1)),
            KindModel::Null => Ok((JsonModel::Null, pos + 1)),
            _ => Err(missed(ParseErrorKind::ExpectedValue, pos)),
        }
    }
}

/// `array`, entered behind `[`.
pub open spec fn parse_array(t: Seq<KindModel>, pos: int, depth: nat) -> Parsed<JsonModel>
    decreases t.len() - pos, 2nat,
{
    if is_kind(t, pos, KindModel::RightBracket) {
        Ok((JsonModel::Array(Seq::empty()), pos + 1))
    } else {
        parse_elements(t, pos, depth, Seq::empty())
    }
}

/// The elements of an array from `pos` on, behind those that `done` holds: a value, then
/// either `,` and more elements or `]`.
///
/// A value always ends behind where it began (`lemma_value_advances`); the comparison
/// `pos < next` says so where the definition needs it to be well founded.
pub open spec fn parse_elements(
    t: Seq<KindModel>,
    pos: int,
    depth: nat,
    done: Seq<JsonModel>,
) -> Parsed<JsonModel>
    decreases t.len() - pos, 1nat,
{
    match parse_value(t, pos, depth) {
        Err(e) => Err(e),
        Ok((v, next)) => if is_kind(t, next, KindModel::Comma) && pos < next {
            parse_elements(t, next + 1, depth, done.push(v))
        } else if is_kind(t, next, KindModel::RightBracket) {
            Ok((JsonModel::Array(done.push(v)), next + 1))
        } else {
            Err(missed(ParseErrorKind::ExpectedBracket, next))
        },
    }
}

/// `object`, entered behind `{`.
pub open spec fn parse_object(t: Seq<KindModel>, pos: int, depth: nat) -> Parsed<JsonModel>
    decreases t.len() - pos, 2nat,
{
    if is_kind(t, pos, KindModel::RightBrace) {
        Ok((JsonModel::Object(Seq::empty()), pos + 1))
    } else {
        parse_members(t, pos, depth, Seq::empty())
    }
}

/// The members of an object from `pos` on, behind those that `done` holds: a key between
/// quotes, `:`, a value, then either `,` and more members or `}`. A key that `done`
/// already has keeps its place and takes the later value.
///
/// As in `parse_elements`, `pos < next` always holds.
pub open spec fn parse_members(
    t: Seq<KindModel>,
    pos: int,
    depth: nat,
    done: Members,
) -> Parsed<JsonModel>
    decreases t.len() - pos, 1nat,
{
    if !is_kind(t, pos, KindModel::DoubleQuote) {
        Err(missed(ParseErrorKind::ExpectedString, pos))
    } else {
        match parse_string(t, pos + 1) {
            Err(e) => Err(e),
            Ok((key, colon)) => if !is_kind(t, colon, KindModel::Colon) {
                Err(missed(ParseErrorKind::ExpectedColon, colon))
            } else {
                match parse_value(t, colon + 1, depth) {
                    Err(e) => Err(e),
                    Ok((v, next)) => if is_kind(t, next, KindModel::Comma) && pos < next {
                        parse_members(t, next + 1, depth, upsert(done, key, v))
                    } else if is_kind(t, next, KindModel::RightBrace) {
                        Ok((JsonModel::Object(upsert(done, key, v)), next + 1))
                    } else {
                        Err(missed(ParseErrorKind::ExpectedBrace, next))
                    },
                }
            },
        }
    }
}

/// `json`: one value from `pos` on, behind which nothing stands but, at most, the end
/// marker as the last token.
pub open spec fn parse_tokens(t: Seq<KindModel>, pos: int, depth: nat) -> Result<
    JsonModel,
    JsonParseError,
> {
    match parse_value(t, pos, depth) {
        Err(e) => Err(e),
        Ok((v, next)) => if next >= t.len() || (t[next] == KindModel::EOF && next + 1 == t.len()) {
            Ok(v)
        } else {
            Err(missed(ParseErrorKind::TrailingInput, next))
        },
    }
}

/// Whether `r`, where it is a success, ends behind `pos` and within `len` tokens.
pub open spec fn advances<T>(r: Parsed<T>, pos: int, len: nat) -> bool {
    r matches Ok((_, next)) ==> pos < next <= len
}

/// A production that succeeds ends behind where it began, and within the tokens.
pub proof fn lemma_value_advances(t: Seq<KindModel>, pos: int, depth: nat)
    requires
        0 <= pos,
    ensures
        advances(parse_value(t, pos, depth), pos, t.len()),
        advances(parse_array(t, pos, depth), pos, t.len()),
        advances(parse_object(t, pos, depth), pos, t.len()),
        forall|done: Seq<JsonModel>|
            advances(#[trigger] parse_elements(t, pos, depth, done), pos, t.len()),
        forall|done: Members|
            advances(#[trigger] parse_members(t, pos, depth, done), pos, t.len()),
    decreases t.len() - pos,
{
    if pos < t.len() {
        lemma_value_advances(t, pos + 1, depth);
        if depth > 0 {
            lemma_value_advances(t, pos + 1, (depth - 1) as nat);
        }
        assert forall|done: Seq<JsonModel>|
            advances(#[trigger] parse_elements(t, pos, depth, done), pos, t.len()) by {
            match parse_value(t, pos, depth) {
                Ok((v, next)) => {
                    if is_kind(t, next, KindModel::Comma) && pos < next {
                        lemma_value_advances(t, next + 1, depth);
                        assert(advances(
                            parse_elements(t, next + 1, depth, done.push(v)),
                            next + 1,
                            t.len(),
                        ));
                    }
                },
                Err(e) => {},
            }
        }
        assert forall|done: Members|
            advances(#[trigger] parse_members(t, pos, depth, done), pos, t.len()) by {
            if let Ok((key, colon)) = parse_string(t, pos + 1) {
                if is_kind(t, pos, KindModel::DoubleQuote) && is_kind(t, colon, KindModel::Colon) {
                    lemma_value_advances(t, colon + 1, depth);
                    match parse_value(t, colon + 1, depth) {
                        Ok((v, next)) => {
                            if is_kind(t, next, KindModel::Comma) && pos < next {
                                lemma_value_advances(t, next + 1, depth);
                                assert(advances(
                                    parse_members(t, next + 1, depth, upsert(done, key, v)),
                                    next + 1,
                                    t.len(),
                                ));
                            }
                        },
                        Err(e) => {},
                    }
                }
            }
        }
        assert(advances(parse_elements(t, pos, depth, Seq::empty()), pos, t.len()));
        assert(advances(parse_members(t, pos, depth, Seq::empty()), pos, t.len()));
    }
}

/// The kinds of the tokens, in order.
pub open spec fn token_kinds(tokens: Seq<Token>) -> Seq<KindModel> {
    tokens.map_values(|t: Token| t.kind@)
}

/// What a production returned: the value taken by its view, with the cursor behind it.
pub open spec fn parsed(r: Result<JsonValue, JsonParseError>, cursor: int) -> Parsed<JsonModel> {
    match r {
        Ok(v) => Ok((v@, cursor)),
        Err(e) => Err(e),
    }
}

/// What the parser returned, the value taken by its view.
pub open spec fn parsed_json(r: Result<JsonValue, JsonParseError>) -> Result<
    JsonModel,
    JsonParseError,
> {
    match r {
        Ok(v) => Ok(v@),
        Err(e) => Err(e),
    }
}

/// Tokens, a cursor into them, and the depth to which arrays and objects may nest.
pub struct Parser {
    tokens: Vec<Token>,
    current: usize,
    max_depth: usize,
}

impl Parser {
    #[verifier::type_invariant]
    spec fn well_formed(self) -> bool {
        self.current <= self.tokens.len()
    }

    /// The tokens.
    pub closed spec fn held(self) -> Seq<Token> {
        self.tokens@
    }

    /// The kinds of the tokens, which are all that the parser looks at.
    pub open spec fn tokens(self) -> Seq<KindModel> {
        token_kinds(self.held())
    }

    /// The index of the token under the cursor, which is never beyond the end.
    pub closed spec fn current(self) -> int {
        self.current as int
    }

    /// How deep arrays and objects may nest.
    pub closed spec fn max_depth(self) -> nat {
        self.max_depth as nat
    }

    /// A parser at the first of `tokens`, which lets arrays and objects nest
    /// `DEFAULT_MAX_DEPTH` deep.
    pub fn new(tokens: Vec<Token>) -> (parser: Parser)
        ensures
            parser.held() == tokens@,
            parser.current() == 0,
            parser.max_depth() == DEFAULT_MAX_DEPTH,
    {
        Parser { tokens, current: 0, max_depth: DEFAULT_MAX_DEPTH }
    }

    /// A parser at the first of `tokens`, which lets arrays and objects nest `max_depth`
    /// deep.
    pub fn with_max_depth(tokens: Vec<Token>, max_depth: usize) -> (parser: Parser)
        ensures
            parser.held() == tokens@,
            parser.current() == 0,
            parser.max_depth() == max_depth,
    {
        Parser { tokens, current: 0, max_depth }
    }

    /// The value that the tokens from the cursor on make, or the first syntax error. After
    /// a success the cursor is behind the value: at the end of the tokens, or on the end
    /// marker that is the last of them. After a failure it is where the error says.
    pub fn parse(&mut self) -> (r: Result<JsonValue, JsonParseError>)
        ensures
            parsed_json(r) == parse_tokens(
                old(self).tokens(),
                old(self).current(),
                old(self).max_depth(),
            ),
            r is Ok ==> parsed(r, final(self).current()) == parse_value(
                old(self).tokens(),
                old(self).current(),
                old(self).max_depth(),
            ),
            r is Ok ==> final(self).tokens().len() - 1 <= final(self).current()
                <= final(self).tokens().len(),
            r matches Err(e) ==> final(self).current() == e.location,
            final(self).held() == old(self).held(),
            final(self).max_depth() == old(self).max_depth(),
    {
        self.json()
    }

    /// The token under the cursor; at the end of the tokens nothing.
    fn peek(&self) -> (r: Option<&Token>)
        ensures
            r is Some <==> self.current() < self.held().len(),
            r matches Some(token) ==> *token == self.held()[self.current()],
    {
        if self.current < self.tokens.len() {
            Some(&self.tokens[self.current])
        } else {
            None
        }
    }

    /// Moves the cursor on by one token; at the end of the tokens it stays.
    fn advance(&mut self)
        ensures
            final(self).held() == old(self).held(),
            final(self).max_depth() == old(self).max_depth(),
            final(self).current() == if old(self).current() < old(self).tokens().len() {
                old(self).current() + 1
            } else {
                old(self).current()
            },
    {
        proof {
            use_type_invariant(&*self);
        }
        if self.current < self.tokens.len() {
            self.current += 1;
        }
    }

    /// Whether the token under the cursor exists and is of the given kind.
    fn check(&self, kind: &TokenKind) -> (r: bool)
        ensures
            r == is_kind(self.tokens(), self.current(), kind@),
    {
        match self.peek() {
            Some(token) => token.kind.same(kind),
            None => false,
        }
    }

    /// The cursor as a token index.
    fn location(&self) -> (r: usize)
        ensures
            r == self.current(),
            r <= self.tokens().len(),
    {
        proof {
            use_type_invariant(self);
        }
        self.current
    }

    /// `json`: one value, behind which nothing stands but, at most, the end marker as
    /// the last token.
    fn json(&mut self) -> (r: Result<JsonValue, JsonParseError>)
        ensures
            parsed_json(r) == parse_tokens(
                old(self).tokens(),
                old(self).current(),
                old(self).max_depth(),
            ),
            r is Ok ==> parsed(r, final(self).current()) == parse_value(
                old(self).tokens(),
                old(self).current(),
                old(self).max_depth(),
            ),
            r is Ok ==> final(self).tokens().len() - 1 <= final(self).current()
                <= final(self).tokens().len(),
            r matches Err(e) ==> final(self).current() == e.location,
            final(self).held() == old(self).held(),
            final(self).max_depth() == old(self).max_depth(),
    {
        let depth = self.max_depth;
        let value = self.value(depth)?;
        proof {
            use_type_invariant(&*self);
        }
        if self.current >= self.tokens.len() {
            return Ok(value);
        }
        if self.check(&TokenKind::EOF) && self.current + 1 == self.tokens.len() {
            return Ok(value);
        }
        Err(JsonParseError::new(ParseErrorKind::TrailingInput, self.current))
    }

    /// `value`, with the cursor on its first token and `depth` levels of nesting still
    /// allowed.
    fn value(&mut self, depth: usize) -> (r: Result<JsonValue, JsonParseError>)
        ensures
            parsed(r, final(self).current()) == parse_value(
                old(self).tokens(),
                old(self).current(),
                depth as nat,
            ),
            r matches Err(e) ==> final(self).current() == e.location,
            final(self).held() == old(self).held(),
            final(self).max_depth() == old(self).max_depth(),
        decreases old(self).tokens().len() - old(self).current(), 0nat,
    {
        let location = self.location();
        match self.peek() {
            Some(Token { kind: TokenKind::LeftBrace, .. }) => {
                if depth == 0 {
                    return Err(JsonParseError::new(ParseErrorKind::TooDeep, location));
                }
                self.advance();
                self.object(depth - 1)
            },
            Some(Token { kind: TokenKind::LeftBracket, .. }) => {
                if depth == 0 {
                    return Err(JsonParseError::new(ParseErrorKind::TooDeep, location));
                }
                self.advance();
                self.array(depth - 1)
            },
            Some(Token { kind: TokenKind::DoubleQuote, .. }) => {
                self.advance();
                let s = self.string()?;
                Ok(JsonValue::String(s))
            },
            Some(Token { kind: TokenKind::Number(num), .. }) => {
                let value = JsonValue::Number(num.clone());
                self.advance();
                Ok(value)
            },
            Some(Token { kind: TokenKind::True, .. }) => {
                self.advance();
                Ok(JsonValue::JsonBool(JsonBool::True))
            },
            Some(Token { kind: TokenKind::False, .. }) => {
                self.advance();
                Ok(JsonValue::JsonBool(JsonBool::False))
            },
            Some(Token { kind: TokenKind::Null, .. }) => {
                self.advance();
                Ok(JsonValue::Null)
            },
            _ => Err(JsonParseError::new(ParseErrorKind::ExpectedValue, location)),
        }
    }

    /// `object`, with the cursor behind `{`.
    fn object(&mut self, depth: usize) -> (r: Result<JsonValue, JsonParseError>)
        ensures
            parsed(r, final(self).current()) == parse_object(
                old(self).tokens(),
                old(self).current(),
                depth as nat,
            ),
            r matches Err(e) ==> final(self).current() == e.location,
            final(self).held() == old(self).held(),
            final(self).max_depth() == old(self).max_depth(),
        decreases old(self).tokens().len() - old(self).current(), 2nat,
    {
        if self.check(&TokenKind::RightBrace) {
            self.advance();
            return Ok(JsonValue::Object(JsonObject::new()));
        }
        let mut members = JsonObject::new();
        loop
            invariant
                self.held() == old(self).held(),
                self.max_depth() == old(self).max_depth(),
                old(self).current() <= self.current(),
                parse_object(old(self).tokens(), old(self).current(), depth as nat)
                    == parse_members(self.tokens(), self.current(), depth as nat, members@),
            decreases self.tokens().len() - self.current(),
        {
            let ghost start = self.current();
            proof {
                use_type_invariant(&*self);
            }
            self.member(&mut members, depth)?;
            proof {
                let colon = parse_string(self.tokens(), start + 1)->Ok_0.1;
                lemma_value_advances(self.tokens(), colon + 1, depth as nat);
            }
            if self.check(&TokenKind::Comma) {
                self.advance();
            } else if self.check(&TokenKind::RightBrace) {
                self.advance();
                return Ok(JsonValue::Object(members));
            } else {
                return Err(JsonParseError::new(ParseErrorKind::ExpectedBrace, self.location()));
            }
        }
    }

    /// `array`, with the cursor behind `[`.
    fn array(&mut self, depth: usize) -> (r: Result<JsonValue, JsonParseError>)
        ensures
            parsed(r, final(self).current()) == parse_array(
                old(self).tokens(),
                old(self).current(),
                depth as nat,
            ),
            r matches Err(e) ==> final(self).current() == e.location,
            final(self).held() == old(self).held(),
            final(self).max_depth() == old(self).max_depth(),
        decreases old(self).tokens().len() - old(self).current(), 2nat,
    {
        if self.check(&TokenKind::RightBracket) {
            self.advance();
            let elements: Vec<JsonValue> = Vec::new();
            proof {
                lemma_array_view(elements);
                assert(value_models(elements@) == Seq::<JsonModel>::empty());
            }
            return Ok(JsonValue::Array(elements));
        }
        let mut elements: Vec<JsonValue> = Vec::new();
        assert(value_models(elements@) == Seq::<JsonModel>::empty());
        loop
            invariant
                self.held() == old(self).held(),
                self.max_depth() == old(self).max_depth(),
                old(self).current() <= self.current(),
                parse_array(old(self).tokens(), old(self).current(), depth as nat)
                    == parse_elements(
                    self.tokens(),
                    self.current(),
                    depth as nat,
                    value_models(elements@),
                ),
            decreases self.tokens().len() - self.current(),
        {
            let ghost start = self.current();
            let ghost done = value_models(elements@);
            proof {
                use_type_invariant(&*self);
                lemma_value_advances(self.tokens(), start, depth as nat);
            }
            let value = self.value(depth)?;
            elements.push(value);
            assert(value_models(elements@) == done.push(value@));
            if self.check(&TokenKind::Comma) {
                self.advance();
            } else if self.check(&TokenKind::RightBracket) {
                self.advance();
                proof {
                    lemma_array_view(elements);
                }
                return Ok(JsonValue::Array(elements));
            } else {
                return Err(JsonParseError::new(ParseErrorKind::ExpectedBracket, self.location()));
            }
        }
    }

    /// `string`, with the cursor behind the opening quote.
    fn string(&mut self) -> (r: Result<String, JsonParseError>)
        ensures
            match r {
                Ok(s) => parse_string(old(self).tokens(), old(self).current()) == Ok::<
                    (Seq<char>, int),
                    JsonParseError,
                >((s@, final(self).current())),
                Err(e) => parse_string(old(self).tokens(), old(self).current()) == Err::<
                    (Seq<char>, int),
                    JsonParseError,
                >(e),
            },
            r matches Err(e) ==> final(self).current() == e.location,
            final(self).held() == old(self).held(),
            final(self).max_depth() == old(self).max_depth(),
    {
        if self.check(&TokenKind::DoubleQuote) {
            self.advance();
            return Ok(String::new());
        }
        let location = self.location();
        match self.peek() {
            Some(Token { kind: TokenKind::String(content), .. }) => {
                let s = content.clone();
                self.advance();
                if self.check(&TokenKind::DoubleQuote) {
                    self.advance();
                    Ok(s)
                } else {
                    Err(JsonParseError::new(ParseErrorKind::ExpectedQuote, self.location()))
                }
            },
            _ => Err(JsonParseError::new(ParseErrorKind::ExpectedString, location)),
        }
    }

    /// `member`, with the cursor on the key's opening quote: the key, `:`, the value,
    /// which `object` then holds under the key. Where no member stands there, `object`
    /// stays as it was.
    fn member(&mut self, object: &mut JsonObject, depth: usize) -> (r: Result<
        (),
        JsonParseError,
    >)
        ensures
            r matches Err(e) ==> final(self).current() == e.location,
            final(self).held() == old(self).held(),
            final(self).max_depth() == old(self).max_depth(),
            match r {
                Ok(_) => {
                    let t = old(self).tokens();
                    let pos = old(self).current();
                    &&& is_kind(t, pos, KindModel::DoubleQuote)
                    &&& parse_string(t, pos + 1) matches Ok((key, colon))
                    &&& is_kind(t, colon, KindModel::Colon)
                    &&& parse_value(t, colon + 1, depth as nat) matches Ok((v, next))
                    &&& final(self).current() == next
                    &&& final(object)@ == upsert(old(object)@, key, v)
                },
                Err(e) => {
                    &&& final(object)@ == old(object)@
                    &&& forall|done: Members|
                        #[trigger] parse_members(
                            old(self).tokens(),
                            old(self).current(),
                            depth as nat,
                            done,
                        ) == Err::<(JsonModel, int), JsonParseError>(e)
                },
            },
        decreases old(self).tokens().len() - old(self).current(), 1nat,
    {
        if !self.check(&TokenKind::DoubleQuote) {
            return Err(JsonParseError::new(ParseErrorKind::ExpectedString, self.location()));
        }
        self.advance();
        let key = self.string()?;
        if !self.check(&TokenKind::Colon) {
            return Err(JsonParseError::new(ParseErrorKind::ExpectedColon, self.location()));
        }
        self.advance();
        let value = self.value(depth)?;
        object.insert(key, value);
        Ok(())
    }
}

} // verus!
