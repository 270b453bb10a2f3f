//! The tokenizer: from the characters of a document to its tokens, in one pass from
//! left to right.

use vstd::prelude::*;
use vstd::string::*;
use crate::number::{is_number_literal, JsonNumber};
use crate::text::{
    chars_of, collect, digit, is_digit, is_letter, is_white, lemma_run_end,
    lemma_run_end_bounds, run_end,
};

verus! {

/// What a token is.
#[derive(Debug, PartialEq, Clone)]
pub enum TokenKind {
    LeftBrace,
    RightBrace,
    LeftBracket,
    RightBracket,
    Minus,
    Plus,
    True,
    False,
    Null,
    Colon,
    Comma,
    DoubleQuote,
    SingleQuote,
    BackSlash,
    Dot,
    /// The characters between two quotes, as they stand in the source.
    String(String),
    /// A number literal.
    Number(JsonNumber),
    /// The end of the source.
    EOF,
}

/// What a token is, as mathematics sees it.
pub enum KindModel {
    LeftBrace,
    RightBrace,
    LeftBracket,
    RightBracket,
    Minus,
    Plus,
    True,
    False,
    Null,
    Colon,
    Comma,
    DoubleQuote,
    SingleQuote,
    BackSlash,
    Dot,
    String(Seq<char>),
    Number(Seq<char>),
    EOF,
}

impl View for TokenKind {
    type V = KindModel;

    open spec fn view(&self) -> KindModel {
        match self {
            TokenKind::LeftBrace => KindModel::LeftBrace,
            TokenKind::RightBrace => KindModel::RightBrace,
            TokenKind::LeftBracket => KindModel::LeftBracket,
            TokenKind::RightBracket => KindModel::RightBracket,
            TokenKind::Minus => KindModel::Minus,
            TokenKind::Plus => KindModel::Plus,
            TokenKind::True => KindModel::True,
            TokenKind::False => KindModel::False,
            TokenKind::Null => KindModel::Null,
            TokenKind::Colon => KindModel::Colon,
            TokenKind::Comma => KindModel::Comma,
            TokenKind::DoubleQuote => KindModel::DoubleQuote,
            TokenKind::SingleQuote => KindModel::SingleQuote,
            TokenKind::BackSlash => KindModel::BackSlash,
            TokenKind::Dot => KindModel::Dot,
            TokenKind::String(s) => KindModel::String(s@),
            TokenKind::Number(n) => KindModel::Number(n@),
            TokenKind::EOF => KindModel::EOF,
        }
    }
}

impl TokenKind {
    /// Whether the two are of one kind and, where the kind has a payload, hold the same
    /// characters.
    pub fn same(&self, other: &TokenKind) -> (r: bool)
        ensures
            r == (self@ == other@),
    {
        match (self, other) {
            (TokenKind::LeftBrace, TokenKind::LeftBrace) => true,
            (TokenKind::RightBrace, TokenKind::RightBrace) => true,
            (TokenKind::LeftBracket, TokenKind::LeftBracket) => true,
            (TokenKind::RightBracket, TokenKind::RightBracket) => true,
            (TokenKind::Minus, TokenKind::Minus) => true,
            (TokenKind::Plus, TokenKind::Plus) => true,
            (TokenKind::True, TokenKind::True) => true,
            (TokenKind::False, TokenKind::False) => true,
            (TokenKind::Null, TokenKind::Null) => true,
            (TokenKind::Colon, TokenKind::Colon) => true,
            (TokenKind::Comma, TokenKind::Comma) => true,
            (TokenKind::DoubleQuote, TokenKind::DoubleQuote) => true,
            (TokenKind::SingleQuote, TokenKind::SingleQuote) => true,
            (TokenKind::BackSlash, TokenKind::BackSlash) => true,
            (TokenKind::Dot, TokenKind::Dot) => true,
            (TokenKind::String(a), TokenKind::String(b)) => *a == *b,
            (TokenKind::Number(a), TokenKind::Number(b)) => a.same(b),
            (TokenKind::EOF, TokenKind::EOF) => true,
            _ => false,
        }
    }
}

/// A token: what it is, and the offset of the character at which it begins.
#[derive(Debug, PartialEq, Clone)]
pub struct Token {
    pub kind: TokenKind,
    pub position: usize,
}

/// A token as mathematics sees it.
pub struct TokenModel {
    pub kind: KindModel,
    pub position: nat,
}

impl View for Token {
    type V = TokenModel;

    open spec fn view(&self) -> TokenModel {
        TokenModel { kind: self.kind@, position: self.position as nat }
    }
}

impl Token {
    /// The token of the given kind that begins at `position`.
    pub fn new(kind: TokenKind, position: usize) -> (t: Token)
        ensures
            t.kind == kind,
            t.position == position,
    {
        Token { kind, position }
    }
}

/// The views of the tokens, in order.
pub open spec fn token_models(tokens: Seq<Token>) -> Seq<TokenModel> {
    tokens.map_values(|t: Token| t@)
}

/// The kinds of the tokens, in order.
pub open spec fn kinds_of(tokens: Seq<TokenModel>) -> Seq<KindModel> {
    tokens.map_values(|t: TokenModel| t.kind)
}

/// What the tokenizer returned, the tokens taken by their views.
pub open spec fn lexed(r: Result<Vec<Token>, LexError>) -> Result<Seq<TokenModel>, LexError> {
    match r {
        Ok(tokens) => Ok(token_models(tokens@)),
        Err(e) => Err(e),
    }
}

/// Why a source has no tokens.
#[derive(Debug, Clone, Copy, PartialEq, Eq)]
pub enum LexErrorKind {
    /// A quote opens a string that no second quote closes.
    UnterminatedString,
    /// Digits, points and exponent marks that together are no number literal.
    MalformedNumber,
    /// A word other than `true`, `false` and `null`.
    UnknownKeyword,
    /// A character with which no token begins.
    UnexpectedCharacter,
}

/// Why a source has no tokens, and the offset at which the offending text begins.
#[derive(Debug, Clone, Copy, PartialEq, Eq)]
pub struct LexError {
    pub kind: LexErrorKind,
    pub position: usize,
}

/// The words that describe an error of the given kind.
pub open spec fn lex_error_text(kind: LexErrorKind) -> Seq<char> {
    match kind {
        LexErrorKind::UnterminatedString => "Unmatched '\"'"@,
        LexErrorKind::MalformedNumber => "Malformed Number Expression"@,
        LexErrorKind::UnknownKeyword => "Unrecognized keyword"@,
        LexErrorKind::UnexpectedCharacter => "Unexpected character"@,
    }
}

impl LexError {
    /// The error in words, without its position.
    pub fn msg(&self) -> (r: String)
        ensures
            r@ == lex_error_text(self.kind),
    {
        match self.kind {
            LexErrorKind::UnterminatedString => String::from_str("Unmatched '\"'"),
            LexErrorKind::MalformedNumber => String::from_str("Malformed Number Expression"),
            LexErrorKind::UnknownKeyword => String::from_str("Unrecognized keyword"),
            LexErrorKind::UnexpectedCharacter => String::from_str("Unexpected character"),
        }
    }
}

/// The token that a single character of punctuation makes, if it makes one.
pub open spec fn punctuation(c: char) -> Option<KindModel> {
    if c == '{' {
        Some(KindModel::LeftBrace)
    } else if c == '}' {
        Some(KindModel::RightBrace)
    } else if c == '[' {
        Some(KindModel::LeftBracket)
    } else if c == ']' {
        Some(KindModel::RightBracket)
    } else if c == ',' {
        Some(KindModel::Comma)
    } else if c == '\'' {
        Some(KindModel::SingleQuote)
    } else if c == '\\' {
        Some(KindModel::BackSlash)
    } else if c == '.' {
        Some(KindModel::Dot)
    } else if c == '-' {
        Some(KindModel::Minus)
    } else if c == '+' {
        Some(KindModel::Plus)
    } else if c == ':' {
        Some(KindModel::Colon)
    } else {
        None
    }
}

/// The token that a word makes, if it is one of the three keywords.
pub open spec fn keyword(word: Seq<char>) -> Option<KindModel> {
    if word == seq!['t', 'r', 'u', 'e'] {
        Some(KindModel::True)
    } else if word == seq!['f', 'a', 'l', 's', 'e'] {
        Some(KindModel::False)
    } else if word == seq!['n', 'u', 'l', 'l'] {
        Some(KindModel::Null)
    } else {
        None
    }
}

/// The characters with which a word begins: the letters, as far as they were not taken
/// for punctuation, a quote, white space or a digit before.
pub open spec fn opens_word(c: char) -> bool {
    punctuation(c) is None && c != '"' && !is_white(c) && !is_digit(c) && is_letter(c)
}

/// The characters that the scan of a number takes in: digits, the point and the two
/// exponent marks.
pub open spec fn is_number_char(c: char) -> bool {
    is_digit(c) || c == '.' || c == 'e' || c == 'E'
}

/// Where the string content that starts at `i` ends: at the next quote, or at the end of
/// the source where there is none.
pub open spec fn string_end(s: Seq<char>, i: int) -> int {
    run_end(s, i, |c: char| c != '"')
}

/// Where the scan of a number that starts at `i` ends.
pub open spec fn number_end(s: Seq<char>, i: int) -> int {
    run_end(s, i, |c: char| is_number_char(c))
}

/// Where the word that starts at `i` ends.
pub open spec fn word_end(s: Seq<char>, i: int) -> int {
    run_end(s, i, |c: char| is_letter(c))
}

/// The position of the end marker: that of the last character, and 0 for an empty source.
pub open spec fn end_position(s: Seq<char>) -> nat {
    if s.len() == 0 {
        0
    } else {
        (s.len() - 1) as nat
    }
}

/// The given tokens with `rest` behind them; the failure of `rest` where it is one.
pub open spec fn followed_by(
    first: Seq<TokenModel>,
    rest: Result<Seq<TokenModel>, LexError>,
) -> Result<Seq<TokenModel>, LexError> {
    match rest {
        Ok(more) => Ok(first + more),
        Err(e) => Err(e),
    }
}

/// The token of the given kind at offset `i`.
pub open spec fn token_at(kind: KindModel, i: int) -> TokenModel {
    TokenModel { kind, position: i as nat }
}

/// The failure of the given kind at offset `i`.
pub open spec fn failure_at(kind: LexErrorKind, i: int) -> LexError {
    LexError { kind, position: i as usize }
}

/// One step of the tokenizer, at an offset `i` within the source: the tokens that begin
/// there and the offset at which the tokenizer goes on, or the lexical error there.
///
/// The character at `i` decides. Punctuation makes a token of its own. A quote opens a
/// string: a quote token, the content up to the next quote as a string token, and a
/// quote token for the closing quote, which must exist. White space makes no token. A
/// digit opens a number: all digits, points and exponent marks that follow are taken in,
/// and together they must be a number literal. A letter opens a word: all letters that
/// follow are taken in, and together they must be a keyword. No other character may
/// stand there.
pub open spec fn lex_step(s: Seq<char>, i: int) -> Result<(Seq<TokenModel>, int), LexError> {
    if punctuation(s[i]) is Some {
        Ok((seq![token_at(punctuation(s[i])->0, i)], i + 1))
    } else if s[i] == '"' {
        let j = string_end(s, i + 1);
        if j >= s.len() {
            Err(failure_at(LexErrorKind::UnterminatedString, i))
        } else {
            Ok(
                (
                    seq![
                        token_at(KindModel::DoubleQuote, i),
                        token_at(KindModel::String(s.subrange(i + 1, j)), i + 1),
                        token_at(KindModel::DoubleQuote, j),
                    ],
                    j + 1,
                ),
            )
        }
    } else if is_white(s[i]) {
        Ok((Seq::empty(), i + 1))
    } else if is_digit(s[i]) {
        let j = number_end(s, i);
        let text = s.subrange(i, j);
        if is_number_literal(text) {
            Ok((seq![token_at(KindModel::Number(text), i)], j))
        } else {
            Err(failure_at(LexErrorKind::MalformedNumber, i))
        }
    } else if is_letter(s[i]) {
        let j = word_end(s, i);
        match keyword(s.subrange(i, j)) {
            Some(kind) => Ok((seq![token_at(kind, i)], j)),
            None => Err(failure_at(LexErrorKind::UnknownKeyword, i)),
        }
    } else {
        Err(failure_at(LexErrorKind::UnexpectedCharacter, i))
    }
}

/// A step that succeeds ends behind where it began, and within the source.
pub proof fn lemma_step_advances(s: Seq<char>, i: int)
    requires
        0 <= i < s.len(),
    ensures
        lex_step(s, i) matches Ok((_, next)) ==> i < next <= s.len(),
{
    lemma_run_end_bounds(s, i + 1, |c: char| c != '"');
    lemma_run_end_bounds(s, i + 1, |c: char| is_number_char(c));
    lemma_run_end_bounds(s, i + 1, |c: char| is_letter(c));
}

/// The tokens of `s` from offset `i` on, the end marker last, or the first lexical error
/// from there on: step by step up to the end of the source.
pub open spec fn lex_from(s: Seq<char>, i: int) -> Result<Seq<TokenModel>, LexError>
    decreases s.len() - i,
    via lex_from_decreases
{
    if i < 0 || i >= s.len() {
        Ok(seq![TokenModel { kind: KindModel::EOF, position: end_position(s) }])
    } else {
        match lex_step(s, i) {
            Ok((first, next)) => followed_by(first, lex_from(s, next)),
            Err(e) => Err(e),
        }
    }
}

#[via_fn]
proof fn lex_from_decreases(s: Seq<char>, i: int) {
    if 0 <= i < s.len() {
        lemma_step_advances(s, i);
    }
}

/// What a mode of the tokenizer did at offset `i` is what the step there is: after a
/// success the step's tokens stand behind those that were there before, and `cursor` is
/// where the step ends; a failure is the step's failure, and leaves the tokens as they
/// were.
pub open spec fn stepped(
    s: Seq<char>,
    i: int,
    r: Result<(), LexError>,
    before: Seq<Token>,
    after: Seq<Token>,
    cursor: int,
) -> bool {
    match r {
        Ok(_) => {
            &&& lex_step(s, i) matches Ok((first, next))
            &&& cursor == next
            &&& token_models(after) == token_models(before) + first
        },
        Err(e) => {
            &&& lex_step(s, i) == Err::<(Seq<TokenModel>, int), LexError>(e)
            &&& after == before
        },
    }
}

/// The tokens of a whole source.
pub open spec fn lex_text(s: Seq<char>) -> Result<Seq<TokenModel>, LexError> {
    lex_from(s, 0)
}

/// A source and a cursor into it.
pub struct Lexer {
    source: Vec<char>,
    index: usize,
}

impl Lexer {
    #[verifier::type_invariant]
    spec fn well_formed(self) -> bool {
        self.index <= self.source.len()
    }

    /// The characters of the source.
    pub closed spec fn source(self) -> Seq<char> {
        self.source@
    }

    /// The offset of the cursor, which is never beyond the end of the source.
    pub closed spec fn index(self) -> int {
        self.index as int
    }

    /// A lexer at the start of `source`.
    pub fn new(source: String) -> (lexer: Lexer)
        ensures
            lexer.source() == source@,
            lexer.index() == 0,
    {
        Lexer { source: chars_of(source.as_str()), index: 0 }
    }

    /// The character under the cursor; at the end of the source nothing.
    pub open spec fn under_cursor(self) -> Option<char> {
        if 0 <= self.index() < self.source().len() {
            Some(self.source()[self.index()])
        } else {
            None
        }
    }

    /// The character under the cursor, after which the cursor moves on by one; at the end
    /// of the source nothing, and the cursor stays.
    pub fn next(&mut self) -> (c: Option<char>)
        ensures
            c == old(self).under_cursor(),
            final(self).source() == old(self).source(),
            final(self).index() == if c is Some {
                old(self).index() + 1
            } else {
                old(self).index()
            },
    {
        proof {
            use_type_invariant(&*self);
        }
        if self.index < self.source.len() {
            let c = self.source[self.index];
            self.index += 1;
            Some(c)
        } else {
            None
        }
    }

    /// The character under the cursor; at the end of the source nothing.
    pub fn peek(&self) -> (c: Option<char>)
        ensures
            c == self.under_cursor(),
    {
        if self.index < self.source.len() {
            Some(self.source[self.index])
        } else {
            None
        }
    }

    /// String mode, with the cursor on the opening quote: a quote token, the content up
    /// to the next quote as a string token, a quote token for the closing quote; the
    /// cursor ends behind the closing quote. Without a closing quote the string is
    /// unterminated, which is reported at the opening quote; the cursor is then at the
    /// end of the source.
    fn string(&mut self, tokens: &mut Vec<Token>) -> (r: Result<(), LexError>)
        requires
            old(self).under_cursor() == Some('"'),
        ensures
            final(self).source() == old(self).source(),
            stepped(
                old(self).source(),
                old(self).index(),
                r,
                old(tokens)@,
                final(tokens)@,
                final(self).index(),
            ),
            r is Err ==> final(self).index() == old(self).source().len(),
    {
        proof {
            use_type_invariant(&*self);
        }
        let open = self.index;
        let start_index = open + 1;
        self.index = start_index;
        while self.index < self.source.len() && self.source[self.index] != '"'
            invariant
                start_index <= self.index <= self.source.len(),
                self.source@ == old(self).source@,
                forall|k: int| start_index <= k < self.index ==> self.source@[k] != '"',
            decreases self.source.len() - self.index,
        {
            self.index += 1;
        }
        proof {
            lemma_run_end(self.source@, start_index as int, self.index as int, |c: char| c != '"');
        }
        if self.index >= self.source.len() {
            return Err(LexError { kind: LexErrorKind::UnterminatedString, position: open });
        }
        let content = collect(&self.source, start_index, self.index);
        tokens.push(Token::new(TokenKind::DoubleQuote, open));
        tokens.push(Token::new(TokenKind::String(content), start_index));
        tokens.push(Token::new(TokenKind::DoubleQuote, self.index));
        assert(token_models(tokens@) == token_models(old(tokens)@) + seq![
            token_at(KindModel::DoubleQuote, open as int),
            token_at(KindModel::String(content@), start_index as int),
            token_at(KindModel::DoubleQuote, self.index as int),
        ]);
        self.index += 1;
        Ok(())
    }

    /// Number mode, with the cursor on a digit: the digits, points and exponent marks
    /// from there on are taken in and make one number token if together they are a
    /// number literal; the cursor ends behind them, whether they are one or not. If
    /// they are none the number is malformed, which is reported at its first digit.
    fn number(&mut self, tokens: &mut Vec<Token>) -> (r: Result<(), LexError>)
        requires
            old(self).under_cursor() matches Some(c) && is_digit(c),
        ensures
            final(self).source() == old(self).source(),
            stepped(
                old(self).source(),
                old(self).index(),
                r,
                old(tokens)@,
                final(tokens)@,
                final(self).index(),
            ),
            r is Err ==> final(self).index() == number_end(
                old(self).source(),
                old(self).index(),
            ),
    {
        proof {
            use_type_invariant(&*self);
        }
        let start_index = self.index;
        while self.index < self.source.len() && number_char(self.source[self.index])
            invariant
                start_index <= self.index <= self.source.len(),
                self.source@ == old(self).source@,
                forall|k: int| start_index <= k < self.index ==> is_number_char(self.source@[k]),
            decreases self.source.len() - self.index,
        {
            self.index += 1;
        }
        proof {
            lemma_run_end(
                self.source@,
                start_index as int,
                self.index as int,
                |c: char| is_number_char(c),
            );
        }
        let text = collect(&self.source, start_index, self.index);
        match JsonNumber::new(text.as_str()) {
            Some(n) => {
                tokens.push(Token::new(TokenKind::Number(n), start_index));
                assert(token_models(tokens@) == token_models(old(tokens)@) + seq![
                    token_at(KindModel::Number(text@), start_index as int),
                ]);
                Ok(())
            },
            None => Err(LexError { kind: LexErrorKind::MalformedNumber, position: start_index }),
        }
    }

    /// Keyword mode, with the cursor on a letter: the letters from there on are taken in
    /// and make one token if together they are `true`, `false` or `null`; the cursor
    /// ends behind them, whatever the word. Any other word is reported at its first
    /// letter.
    fn keyword(&mut self, tokens: &mut Vec<Token>) -> (r: Result<(), LexError>)
        requires
            old(self).under_cursor() matches Some(c) && opens_word(c),
        ensures
            final(self).source() == old(self).source(),
            stepped(
                old(self).source(),
                old(self).index(),
                r,
                old(tokens)@,
                final(tokens)@,
                final(self).index(),
            ),
            r is Err ==> final(self).index() == word_end(old(self).source(), old(self).index()),
    {
        proof {
            use_type_invariant(&*self);
        }
        let start_index = self.index;
        while self.index < self.source.len() && self.source[self.index].is_alphabetic()
            invariant
                start_index <= self.index <= self.source.len(),
                self.source@ == old(self).source@,
                forall|k: int| start_index <= k < self.index ==> is_letter(self.source@[k]),
            decreases self.source.len() - self.index,
        {
            self.index += 1;
        }
        proof {
            lemma_run_end(
                self.source@,
                start_index as int,
                self.index as int,
                |c: char| is_letter(c),
            );
            reveal_strlit("true");
            reveal_strlit("false");
            reveal_strlit("null");
            assert("true"@ == seq!['t', 'r', 'u', 'e']);
            assert("false"@ == seq!['f', 'a', 'l', 's', 'e']);
            assert("null"@ == seq!['n', 'u', 'l', 'l']);
        }
        let word = collect(&self.source, start_index, self.index);
        let kind = if word == String::from_str("true") {
            TokenKind::True
        } else if word == String::from_str("false") {
            TokenKind::False
        } else if word == String::from_str("null") {
            TokenKind::Null
        } else {
            return Err(LexError { kind: LexErrorKind::UnknownKeyword, position: start_index });
        };
        assert(keyword(word@) == Some(kind@));
        tokens.push(Token::new(kind, start_index));
        assert(token_models(tokens@) == token_models(old(tokens)@) + seq![
            token_at(kind@, start_index as int),
        ]);
        Ok(())
    }

    /// The tokens of the source from the cursor on, the end marker last, or the first
    /// lexical error.
    pub fn lex(self) -> (r: Result<Vec<Token>, LexError>)
        ensures
            lexed(r) == lex_from(self.source(), self.index()),
    {
        let mut lexer = self;
        let mut tokens: Vec<Token> = Vec::new();
        proof {
            use_type_invariant(&lexer);
            lemma_followed_by_nothing(lex_from(lexer.source@, lexer.index as int));
        }
        loop
            invariant
                lexer.source@ == self.source@,
                lexer.index <= lexer.source.len(),
                lex_from(self.source@, self.index as int) == followed_by(
                    token_models(tokens@),
                    lex_from(lexer.source@, lexer.index as int),
                ),
            decreases lexer.source.len() - lexer.index,
        {
            let ghost before = tokens@;
            let ghost i = lexer.index as int;
            let ghost s = lexer.source@;
            proof {
                if i < s.len() {
                    lemma_step_advances(s, i);
                }
            }
            let step = match lexer.peek() {
                None => {
                    let end = if lexer.index == 0 {
                        0
                    } else {
                        lexer.index - 1
                    };
                    tokens.push(Token::new(TokenKind::EOF, end));
                    assert(token_models(tokens@) == token_models(before) + seq![
                        TokenModel { kind: KindModel::EOF, position: end_position(s) },
                    ]);
                    return Ok(tokens);
                },
                Some(ch) => match punctuation_kind(ch) {
                    Some(kind) => {
                        tokens.push(Token::new(kind, lexer.index));
                        lexer.next();
                        assert(token_models(tokens@) == token_models(before) + seq![
                            token_at(punctuation(ch)->0, i),
                        ]);
                        Ok(())
                    },
                    None => {
                        if ch == '"' {
                            lexer.string(&mut tokens)
                        } else if ch.is_whitespace() {
                            lexer.next();
                            assert(token_models(tokens@) == token_models(before) + Seq::empty());
                            Ok(())
                        } else if digit(ch) {
                            lexer.number(&mut tokens)
                        } else if ch.is_alphabetic() {
                            lexer.keyword(&mut tokens)
                        } else {
                            Err(
                                LexError {
                                    kind: LexErrorKind::UnexpectedCharacter,
                                    position: lexer.index,
                                },
                            )
                        }
                    },
                },
            };
            proof {
                use_type_invariant(&lexer);
                assert(stepped(s, i, step, before, tokens@, lexer.index as int));
            }
            if let Err(e) = step {
                return Err(e);
            }
            proof {
                lemma_followed_by_twice(
                    token_models(before),
                    lex_step(s, i)->Ok_0.0,
                    lex_from(s, lexer.index as int),
                );
            }
        }
    }
}

/// Nothing in front of a result leaves it as it is.
pub proof fn lemma_followed_by_nothing(rest: Result<Seq<TokenModel>, LexError>)
    ensures
        followed_by(Seq::empty(), rest) == rest,
{
    if let Ok(more) = rest {
        assert(Seq::<TokenModel>::empty() + more == more);
    }
}

/// Putting tokens in front of a result twice is putting them in front at once.
pub proof fn lemma_followed_by_twice(
    a: Seq<TokenModel>,
    b: Seq<TokenModel>,
    rest: Result<Seq<TokenModel>, LexError>,
)
    ensures
        followed_by(a, followed_by(b, rest)) == followed_by(a + b, rest),
{
    if let Ok(more) = rest {
        assert(a + (b + more) == (a + b) + more);
    }
}

/// Whether the scan of a number takes `c` in.
fn number_char(c: char) -> (r: bool)
    ensures
        r == is_number_char(c),
{
    digit(c) || c == '.' || c == 'e' || c == 'E'
}

/// The token kind that a single character of punctuation makes, if it makes one.
fn punctuation_kind(c: char) -> (r: Option<TokenKind>)
    ensures
        r is Some <==> punctuation(c) is Some,
        r matches Some(kind) ==> punctuation(c) == Some(kind@),
{
    if c == '{' {
        Some(TokenKind::LeftBrace)
    } else if c == '}' {
        Some(TokenKind::RightBrace)
    } else if c == '[' {
        Some(TokenKind::LeftBracket)
    } else if c == ']' {
        Some(TokenKind::RightBracket)
    } else if c == ',' {
        Some(TokenKind::Comma)
    } else if c == '\'' {
        Some(TokenKind::SingleQuote)
    } else if c == '\\' {
        Some(TokenKind::BackSlash)
    } else if c == '.' {
        Some(TokenKind::Dot)
    } else if c == '-' {
        Some(TokenKind::Minus)
    } else if c == '+' {
        Some(TokenKind::Plus)
    } else if c == ':' {
        Some(TokenKind::Colon)
    } else {
        None
    }
}

} // verus!
