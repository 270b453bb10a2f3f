use jsocks::lexer::{LexError, LexErrorKind, Lexer, Token, TokenKind};
use jsocks::number::JsonNumber;

fn lex(source: &str) -> Result<Vec<Token>, LexError> {
    Lexer::new(source.to_string()).lex()
}

fn kinds(source: &str) -> Vec<TokenKind> {
    lex(source).unwrap().into_iter().map(|t| t.kind).collect()
}

fn positions(source: &str) -> Vec<usize> {
    lex(source).unwrap().into_iter().map(|t| t.position).collect()
}

fn number(text: &str) -> TokenKind {
    TokenKind::Number(JsonNumber::new(text).unwrap())
}

fn string(text: &str) -> TokenKind {
    TokenKind::String(text.to_string())
}

#[test]
fn punctuation_makes_one_token_each() {
    assert_eq!(
        kinds("{}[],:-+.\\'"),
        vec![
            TokenKind::LeftBrace,
            TokenKind::RightBrace,
            TokenKind::LeftBracket,
            TokenKind::RightBracket,
            TokenKind::Comma,
            TokenKind::Colon,
            TokenKind::Minus,
            TokenKind::Plus,
            TokenKind::Dot,
            TokenKind::BackSlash,
            TokenKind::SingleQuote,
            TokenKind::EOF,
        ]
    );
    assert_eq!(positions("{}[],:-+.\\'"), vec![0, 1, 2, 3, 4, 5, 6, 7, 8, 9, 10, 10]);
}

#[test]
fn empty_source_is_the_end_marker_alone() {
    let tokens = lex("").unwrap();
    assert_eq!(tokens.len(), 1);
    assert_eq!(tokens[0].kind, TokenKind::EOF);
    assert_eq!(tokens[0].position, 0);
}

#[test]
fn end_marker_stands_at_the_last_character() {
    assert_eq!(positions("1"), vec![0, 0]);
    assert_eq!(positions("12 "), vec![0, 2]);
    assert_eq!(positions("[ ]"), vec![0, 2, 2]);
}

#[test]
fn white_space_is_passed_over() {
    assert_eq!(
        kinds(" \t\n\r\u{b}\u{c}[\u{a0}\u{2003}]\u{3000}"),
        vec![TokenKind::LeftBracket, TokenKind::RightBracket, TokenKind::EOF]
    );
    assert_eq!(positions("  [\n]"), vec![2, 4, 4]);
}

#[test]
fn string_is_a_content_token_between_two_quote_tokens() {
    assert_eq!(
        kinds("\"abc\""),
        vec![TokenKind::DoubleQuote, string("abc"), TokenKind::DoubleQuote, TokenKind::EOF]
    );
    assert_eq!(positions("\"abc\""), vec![0, 1, 4, 4]);
}

#[test]
fn empty_string_has_an_empty_content_token() {
    assert_eq!(
        kinds("\"\""),
        vec![TokenKind::DoubleQuote, string(""), TokenKind::DoubleQuote, TokenKind::EOF]
    );
    assert_eq!(positions("\"\""), vec![0, 1, 1, 1]);
}

#[test]
fn string_content_is_taken_as_it_stands() {
    assert_eq!(
        kinds("\"a\\n b{1,}\u{e9}\""),
        vec![
            TokenKind::DoubleQuote,
            string("a\\n b{1,}\u{e9}"),
            TokenKind::DoubleQuote,
            TokenKind::EOF
        ]
    );
    // a backslash does not protect a quote: the string ends there, and `b` begins a word
    assert_eq!(
        lex("\"a\\\"b\""),
        Err(LexError { kind: LexErrorKind::UnknownKeyword, position: 4 })
    );
    assert_eq!(
        kinds("\"a\\\" "),
        vec![TokenKind::DoubleQuote, string("a\\"), TokenKind::DoubleQuote, TokenKind::EOF]
    );
}

#[test]
fn positions_count_characters_not_bytes() {
    assert_eq!(positions("\"\u{e9}\u{4eac}\" 1"), vec![0, 1, 3, 5, 5]);
}

#[test]
fn unterminated_string_is_reported_at_the_opening_quote() {
    assert_eq!(
        lex("{\"a\": \"b"),
        Err(LexError { kind: LexErrorKind::UnterminatedString, position: 6 })
    );
    assert_eq!(
        lex("\""),
        Err(LexError { kind: LexErrorKind::UnterminatedString, position: 0 })
    );
}

#[test]
fn numbers_keep_their_literal() {
    assert_eq!(kinds("1"), vec![number("1"), TokenKind::EOF]);
    assert_eq!(kinds("1.5"), vec![number("1.5"), TokenKind::EOF]);
    assert_eq!(kinds("1e10"), vec![number("1e10"), TokenKind::EOF]);
    assert_eq!(kinds("1.5E3"), vec![number("1.5E3"), TokenKind::EOF]);
    assert_eq!(kinds("5."), vec![number("5."), TokenKind::EOF]);
    assert_eq!(kinds("5.e2"), vec![number("5.e2"), TokenKind::EOF]);
    assert_eq!(kinds("007"), vec![number("007"), TokenKind::EOF]);
    assert_eq!(
        kinds("12,3"),
        vec![number("12"), TokenKind::Comma, number("3"), TokenKind::EOF]
    );
}

#[test]
fn number_scan_stops_at_a_sign() {
    assert_eq!(
        kinds("1-2"),
        vec![number("1"), TokenKind::Minus, number("2"), TokenKind::EOF]
    );
    // the exponent mark is taken in, the sign is not: `1.5E` is no literal
    assert_eq!(
        lex("1.5E-3"),
        Err(LexError { kind: LexErrorKind::MalformedNumber, position: 0 })
    );
}

#[test]
fn malformed_numbers_are_reported_at_their_first_digit() {
    for source in ["1.2.3", "1e", "1e5e", "1ee5", "1.e", "1e.5", "1e5.", " 1..2"] {
        let start = source.len() - source.trim_start().len();
        assert_eq!(
            lex(source),
            Err(LexError { kind: LexErrorKind::MalformedNumber, position: start }),
            "{}",
            source
        );
    }
}

#[test]
fn a_point_before_digits_is_a_token_of_its_own() {
    assert_eq!(kinds(".5"), vec![TokenKind::Dot, number("5"), TokenKind::EOF]);
}

#[test]
fn keywords() {
    assert_eq!(
        kinds("true false null"),
        vec![TokenKind::True, TokenKind::False, TokenKind::Null, TokenKind::EOF]
    );
    assert_eq!(positions("true false null"), vec![0, 5, 11, 14]);
}

#[test]
fn other_words_are_rejected_at_their_first_letter() {
    for source in ["True", "nul", "nulll", "truefalse", "x", "\u{e9}t\u{e9}", "tru\u{e9}"] {
        assert_eq!(
            lex(source),
            Err(LexError { kind: LexErrorKind::UnknownKeyword, position: 0 }),
            "{}",
            source
        );
    }
    assert_eq!(
        lex("[true, nope]"),
        Err(LexError { kind: LexErrorKind::UnknownKeyword, position: 7 })
    );
}

#[test]
fn a_word_ends_where_the_letters_end() {
    assert_eq!(kinds("true1"), vec![TokenKind::True, number("1"), TokenKind::EOF]);
    assert_eq!(kinds("null]"), vec![TokenKind::Null, TokenKind::RightBracket, TokenKind::EOF]);
    assert_eq!(kinds("1true"), vec![number("1"), TokenKind::True, TokenKind::EOF]);
    // `e` is a letter as well as an exponent mark: the mode that was entered decides
    assert_eq!(
        lex("1else"),
        Err(LexError { kind: LexErrorKind::MalformedNumber, position: 0 })
    );
    assert_eq!(
        lex("else1"),
        Err(LexError { kind: LexErrorKind::UnknownKeyword, position: 0 })
    );
}

#[test]
fn unexpected_characters() {
    let cases = [("#", 0), ("[1, @]", 4), ("\u{20ac}", 0), ("_", 0), ("{;}", 1), ("\u{661}", 0)];
    for (source, position) in cases {
        assert_eq!(
            lex(source),
            Err(LexError { kind: LexErrorKind::UnexpectedCharacter, position }),
            "{}",
            source
        );
    }
}

#[test]
fn the_first_lexical_error_wins() {
    assert_eq!(
        lex("nope \"open"),
        Err(LexError { kind: LexErrorKind::UnknownKeyword, position: 0 })
    );
    assert_eq!(
        lex("1.2.3 #"),
        Err(LexError { kind: LexErrorKind::MalformedNumber, position: 0 })
    );
}

#[test]
fn lexical_error_messages() {
    let at = |kind| LexError { kind, position: 0 }.msg();
    assert_eq!(at(LexErrorKind::UnterminatedString), "Unmatched '\"'");
    assert_eq!(at(LexErrorKind::MalformedNumber), "Malformed Number Expression");
    assert_eq!(at(LexErrorKind::UnknownKeyword), "Unrecognized keyword");
    assert_eq!(at(LexErrorKind::UnexpectedCharacter), "Unexpected character");
}

#[test]
fn cursor_moves_by_next_and_stays_at_the_end() {
    let mut lexer = Lexer::new("ab".to_string());
    assert_eq!(lexer.peek(), Some('a'));
    assert_eq!(lexer.peek(), Some('a'));
    assert_eq!(lexer.next(), Some('a'));
    assert_eq!(lexer.peek(), Some('b'));
    assert_eq!(lexer.next(), Some('b'));
    assert_eq!(lexer.peek(), None);
    assert_eq!(lexer.next(), None);
    assert_eq!(lexer.next(), None);
    let tokens = lexer.lex().unwrap();
    assert_eq!(tokens.len(), 1);
    assert_eq!(tokens[0].position, 1);
}

#[test]
fn lexing_starts_at_the_cursor() {
    let mut lexer = Lexer::new("] [".to_string());
    lexer.next();
    let tokens = lexer.lex().unwrap();
    assert_eq!(tokens.len(), 2);
    assert_eq!(tokens[0].kind, TokenKind::LeftBracket);
    assert_eq!(tokens[0].position, 2);
}

#[test]
fn kinds_compare_by_kind_and_payload() {
    assert!(TokenKind::Comma.same(&TokenKind::Comma));
    assert!(!TokenKind::Comma.same(&TokenKind::Colon));
    assert!(!TokenKind::EOF.same(&string("")));
    assert!(string("a").same(&string("a")));
    assert!(!string("a").same(&string("b")));
    assert!(!string("1").same(&number("1")));
    assert!(number("1").same(&number("1")));
    assert!(!number("1").same(&number("1.0")));
}

#[test]
fn token_new_keeps_its_arguments() {
    let t = Token::new(TokenKind::Colon, 7);
    assert_eq!(t.kind, TokenKind::Colon);
    assert_eq!(t.position, 7);
}

#[test]
fn every_ascii_character_alone() {
    for code in 0u8..128 {
        let c = code as char;
        let source = c.to_string();
        let got = lex(&source);
        let at = |kind| Err(LexError { kind, position: 0 });
        if "{}[],:-+.\\'".contains(c) {
            assert_eq!(got.unwrap().len(), 2, "{:?}", c);
        } else if c == '"' {
            assert_eq!(got, at(LexErrorKind::UnterminatedString), "{:?}", c);
        } else if c == ' ' || ('\u{9}'..='\u{d}').contains(&c) {
            assert_eq!(kinds(&source), vec![TokenKind::EOF], "{:?}", c);
        } else if c.is_ascii_digit() {
            assert_eq!(kinds(&source), vec![number(&source), TokenKind::EOF], "{:?}", c);
        } else if c.is_ascii_alphabetic() {
            assert_eq!(got, at(LexErrorKind::UnknownKeyword), "{:?}", c);
        } else {
            assert_eq!(got, at(LexErrorKind::UnexpectedCharacter), "{:?}", c);
        }
    }
}

#[test]
fn characters_beyond_ascii() {
    // white space
    let spaces = [
        '\u{85}', '\u{a0}', '\u{1680}', '\u{2000}', '\u{200a}', '\u{2028}', '\u{2029}', '\u{202f}',
        '\u{205f}', '\u{3000}',
    ];
    for c in spaces {
        assert_eq!(kinds(&c.to_string()), vec![TokenKind::EOF], "{:?}", c);
    }
    // letters
    for c in ['\u{e9}', '\u{3b1}', '\u{4eac}', '\u{5d0}', '\u{aa}'] {
        assert_eq!(
            lex(&c.to_string()),
            Err(LexError { kind: LexErrorKind::UnknownKeyword, position: 0 }),
            "{:?}",
            c
        );
    }
    // neither
    for c in ['\u{200b}', '\u{20ac}', '\u{1f49d}', '\u{a7}', '\u{661}', '\u{feff}'] {
        assert_eq!(
            lex(&c.to_string()),
            Err(LexError { kind: LexErrorKind::UnexpectedCharacter, position: 0 }),
            "{:?}",
            c
        );
    }
}
