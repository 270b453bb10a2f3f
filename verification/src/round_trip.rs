//! What holds of parsing and dumping together: the text of a value, read back, is the
//! value; what is read is well formed; and reading is a function of the text.

use vstd::prelude::*;
use crate::json_value::{
    dump_items, dump_member, dump_members, dump_text, key_separator, quoted, separator,
    JsonModel, JsonValue,
};
use crate::lexer::{
    is_number_char, keyword, kinds_of, lemma_step_advances, lex_from, lex_step, lex_text,
    punctuation, string_end, token_at, KindModel, LexError, TokenModel,
};
use crate::number::{digits_end, fraction_end, is_number_literal};
use crate::object::{keys_unique, lemma_key_index, lemma_upsert_unique, upsert, Members};
use crate::text::{chars_of, is_digit, is_letter, lemma_run_end, lemma_run_end_bounds};
use crate::parser::{
    is_kind, parse_array, parse_elements, parse_members, parse_object, parse_string,
    parse_value, JsonParseError, Parsed, DEFAULT_MAX_DEPTH,
};
use crate::{parse_text, parsed_text, JsonError};

verus! {

/// No character of `s` is a quote.
pub open spec fn no_quote(s: Seq<char>) -> bool {
    forall|i: int| 0 <= i < s.len() ==> s[i] != '"'
}

/// A value that can be written and read back: no string and no key holds a quote, every
/// number is a number literal, and no object has a key twice.
pub open spec fn well_formed(m: JsonModel) -> bool
    decreases m,
{
    match m {
        JsonModel::Object(members) => {
            &&& keys_unique(members)
            &&& forall|i: int|
                0 <= i < members.len() ==> no_quote((#[trigger] members[i]).0) && well_formed(
                    members[i].1,
                )
        },
        JsonModel::Array(items) => forall|i: int|
            0 <= i < items.len() ==> well_formed(#[trigger] items[i]),
        JsonModel::String(s) => no_quote(s),
        JsonModel::Number(t) => is_number_literal(t),
        JsonModel::Bool(_) => true,
        JsonModel::Null => true,
    }
}

/// Arrays and objects nest at most `depth` deep in the value.
pub open spec fn fits(m: JsonModel, depth: nat) -> bool
    decreases m,
{
    match m {
        JsonModel::Object(members) => {
            &&& depth > 0
            &&& forall|i: int|
                0 <= i < members.len() ==> fits((#[trigger] members[i]).1, (depth - 1) as nat)
        },
        JsonModel::Array(items) => {
            &&& depth > 0
            &&& forall|i: int|
                0 <= i < items.len() ==> fits(#[trigger] items[i], (depth - 1) as nat)
        },
        _ => true,
    }
}

/// The tokens of a value's text, by kind.
pub open spec fn tokens_of(m: JsonModel) -> Seq<KindModel>
    decreases m, 0nat,
{
    match m {
        JsonModel::Null => seq![KindModel::Null],
        JsonModel::Bool(true) => seq![KindModel::True],
        JsonModel::Bool(false) => seq![KindModel::False],
        JsonModel::String(s) => string_tokens(s),
        JsonModel::Number(t) => seq![KindModel::Number(t)],
        JsonModel::Array(items) => seq![KindModel::LeftBracket] + items_tokens(items)
            + seq![KindModel::RightBracket],
        JsonModel::Object(members) => seq![KindModel::LeftBrace] + members_tokens(members)
            + seq![KindModel::RightBrace],
    }
}

/// The tokens of a string between its quotes.
pub open spec fn string_tokens(s: Seq<char>) -> Seq<KindModel> {
    seq![KindModel::DoubleQuote, KindModel::String(s), KindModel::DoubleQuote]
}

/// The tokens of the elements of an array, a comma between each two.
pub open spec fn items_tokens(items: Seq<JsonModel>) -> Seq<KindModel>
    decreases items, 0nat,
{
    if items.len() == 0 {
        Seq::empty()
    } else if items.len() == 1 {
        tokens_of(items[0])
    } else {
        tokens_of(items[0]) + seq![KindModel::Comma] + items_tokens(items.drop_first())
    }
}

/// The tokens of a member.
pub open spec fn member_tokens(key: Seq<char>, value: JsonModel) -> Seq<KindModel>
    decreases value, 1nat,
{
    string_tokens(key) + seq![KindModel::Colon] + tokens_of(value)
}

/// The tokens of the members of an object, a comma between each two.
pub open spec fn members_tokens(members: Members) -> Seq<KindModel>
    decreases members, 0nat,
{
    if members.len() == 0 {
        Seq::empty()
    } else if members.len() == 1 {
        member_tokens(members[0].0, members[0].1)
    } else {
        member_tokens(members[0].0, members[0].1) + seq![KindModel::Comma] + members_tokens(
            members.drop_first(),
        )
    }
}

/// The kinds of the tokens of `s` from `i` on, or the first lexical error.
pub open spec fn lex_kinds(s: Seq<char>, i: int) -> Result<Seq<KindModel>, LexError> {
    match lex_from(s, i) {
        Ok(tokens) => Ok(kinds_of(tokens)),
        Err(e) => Err(e),
    }
}

/// The given kinds with `rest` behind them; the failure of `rest` where it is one.
pub open spec fn kinds_then(
    first: Seq<KindModel>,
    rest: Result<Seq<KindModel>, LexError>,
) -> Result<Seq<KindModel>, LexError> {
    match rest {
        Ok(more) => Ok(first + more),
        Err(e) => Err(e),
    }
}

/// `s` holds `d` from position `i` on.
pub open spec fn has_at<A>(s: Seq<A>, i: int, d: Seq<A>) -> bool {
    0 <= i && i + d.len() <= s.len() && s.subrange(i, i + d.len()) == d
}

/// No number and no word that ends before offset `j` could go on at `j`.
pub open spec fn delimited(s: Seq<char>, j: int) -> bool {
    j >= s.len() || (!is_number_char(s[j]) && !is_letter(s[j]))
}

proof fn lemma_has_at_index<A>(s: Seq<A>, i: int, d: Seq<A>, k: int)
    requires
        has_at(s, i, d),
        0 <= k < d.len(),
    ensures
        s[i + k] == d[k],
{
}

proof fn lemma_has_at_split<A>(s: Seq<A>, i: int, a: Seq<A>, b: Seq<A>)
    requires
        has_at(s, i, a + b),
    ensures
        has_at(s, i, a),
        has_at(s, i + a.len(), b),
{
    let d = a + b;
    assert forall|k: int| 0 <= k < a.len() implies s.subrange(i, i + a.len())[k] == a[k] by {
        lemma_has_at_index(s, i, d, k);
    }
    assert(s.subrange(i, i + a.len()) =~= a);
    assert forall|k: int| 0 <= k < b.len() implies s.subrange(i + a.len(), i + a.len() + b.len())[k]
        == b[k] by {
        lemma_has_at_index(s, i, d, a.len() + k);
    }
    assert(s.subrange(i + a.len(), i + a.len() + b.len()) =~= b);
}

proof fn lemma_kinds_then_twice(
    a: Seq<KindModel>,
    b: Seq<KindModel>,
    rest: Result<Seq<KindModel>, LexError>,
)
    ensures
        kinds_then(a, kinds_then(b, rest)) == kinds_then(a + b, rest),
{
    if let Ok(more) = rest {
        assert(a + (b + more) == (a + b) + more);
    }
}

/// After a step, the kinds are those of the step's tokens and then those of the rest.
proof fn lemma_kinds_followed(s: Seq<char>, i: int, first: Seq<TokenModel>, j: int)
    requires
        0 <= i < s.len(),
        lex_step(s, i) == Ok::<(Seq<TokenModel>, int), LexError>((first, j)),
    ensures
        lex_kinds(s, i) == kinds_then(kinds_of(first), lex_kinds(s, j)),
{
    if let Ok(more) = lex_from(s, j) {
        assert(kinds_of(first + more) == kinds_of(first) + kinds_of(more));
    }
}

/// A character of punctuation is one token.
proof fn lemma_lex_punctuation(s: Seq<char>, i: int)
    requires
        0 <= i < s.len(),
        punctuation(s[i]) is Some,
    ensures
        lex_kinds(s, i) == kinds_then(seq![punctuation(s[i])->0], lex_kinds(s, i + 1)),
{
    let first = seq![token_at(punctuation(s[i])->0, i)];
    lemma_kinds_followed(s, i, first, i + 1);
    assert(kinds_of(first) == seq![punctuation(s[i])->0]);
}

/// A space is no token.
proof fn lemma_lex_space(s: Seq<char>, i: int)
    requires
        0 <= i < s.len(),
        s[i] == ' ',
    ensures
        lex_kinds(s, i) == lex_kinds(s, i + 1),
{
}

/// A string without a quote in it, between quotes, is three tokens.
proof fn lemma_lex_string(s: Seq<char>, i: int, content: Seq<char>)
    requires
        has_at(s, i, quoted(content)),
        no_quote(content),
    ensures
        lex_kinds(s, i) == kinds_then(
            string_tokens(content),
            lex_kinds(s, i + content.len() + 2),
        ),
{
    let q = quoted(content);
    let j = i + 1 + content.len();
    lemma_has_at_index(s, i, q, 0);
    lemma_has_at_index(s, i, q, 1 + content.len() as int);
    assert forall|k: int| i + 1 <= k < j implies (|c: char| c != '"')(#[trigger] s[k]) by {
        lemma_has_at_index(s, i, q, k - i);
    }
    lemma_run_end(s, i + 1, j, |c: char| c != '"');
    assert forall|k: int| 0 <= k < content.len() implies s.subrange(i + 1, j)[k] == content[k] by {
        lemma_has_at_index(s, i, q, k + 1);
    }
    assert(s.subrange(i + 1, j) =~= content);
    let first = seq![
        token_at(KindModel::DoubleQuote, i),
        token_at(KindModel::String(content), i + 1),
        token_at(KindModel::DoubleQuote, j),
    ];
    lemma_kinds_followed(s, i, first, j + 1);
    assert(kinds_of(first) == string_tokens(content));
}

/// The characters of a number literal: a digit first, and nothing but digits, points and
/// exponent marks.
pub proof fn lemma_literal_chars(t: Seq<char>)
    requires
        is_number_literal(t),
    ensures
        t.len() > 0,
        is_digit(t[0]),
        forall|k: int| 0 <= k < t.len() ==> is_number_char(#[trigger] t[k]),
{
    let digit = |c: char| is_digit(c);
    let a = digits_end(t, 0);
    lemma_run_end_bounds(t, 0, digit);
    let b = fraction_end(t, a);
    if a < t.len() && t[a] == '.' {
        lemma_run_end_bounds(t, a + 1, digit);
    }
    if b != t.len() {
        lemma_run_end_bounds(t, b + 1, digit);
    }
}

/// A number literal that nothing prolongs is one token.
proof fn lemma_lex_number(s: Seq<char>, i: int, t: Seq<char>)
    requires
        has_at(s, i, t),
        is_number_literal(t),
        delimited(s, i + t.len()),
    ensures
        lex_kinds(s, i) == kinds_then(seq![KindModel::Number(t)], lex_kinds(s, i + t.len())),
{
    let j = i + t.len();
    lemma_literal_chars(t);
    lemma_has_at_index(s, i, t, 0);
    assert forall|k: int| i <= k < j implies (|c: char| is_number_char(c))(#[trigger] s[k]) by {
        lemma_has_at_index(s, i, t, k - i);
    }
    lemma_run_end(s, i, j, |c: char| is_number_char(c));
    let first = seq![token_at(KindModel::Number(t), i)];
    lemma_kinds_followed(s, i, first, j);
    assert(kinds_of(first) == seq![KindModel::Number(t)]);
}

/// A keyword that nothing prolongs is one token.
proof fn lemma_lex_keyword(s: Seq<char>, i: int, word: Seq<char>)
    requires
        has_at(s, i, word),
        keyword(word) is Some,
        delimited(s, i + word.len()),
    ensures
        lex_kinds(s, i) == kinds_then(seq![keyword(word)->0], lex_kinds(s, i + word.len())),
{
    let j = i + word.len();
    assert forall|k: int| 0 <= k < word.len() implies 'a' <= #[trigger] word[k] <= 'z' by {}
    lemma_has_at_index(s, i, word, 0);
    assert forall|k: int| i <= k < j implies (|c: char| is_letter(c))(#[trigger] s[k]) by {
        lemma_has_at_index(s, i, word, k - i);
    }
    lemma_run_end(s, i, j, |c: char| is_letter(c));
    let first = seq![token_at(keyword(word)->0, i)];
    lemma_kinds_followed(s, i, first, j);
    assert(kinds_of(first) == seq![keyword(word)->0]);
}

/// Nothing in front of a result leaves it as it is.
proof fn lemma_kinds_then_nothing(rest: Result<Seq<KindModel>, LexError>)
    ensures
        kinds_then(Seq::empty(), rest) == rest,
{
}

/// The text of a well-formed value that nothing prolongs is lexed into the value's
/// tokens, and lexing goes on behind it.
pub proof fn lemma_lex_value(s: Seq<char>, i: int, m: JsonModel)
    requires
        well_formed(m),
        has_at(s, i, dump_text(m)),
        delimited(s, i + dump_text(m).len()),
    ensures
        lex_kinds(s, i) == kinds_then(tokens_of(m), lex_kinds(s, i + dump_text(m).len())),
    decreases m, 0nat,
{
    let d = dump_text(m);
    let end = i + d.len();
    match m {
        JsonModel::Null => {
            lemma_lex_keyword(s, i, d);
        },
        JsonModel::Bool(b) => {
            lemma_lex_keyword(s, i, d);
        },
        JsonModel::Number(t) => {
            lemma_lex_number(s, i, t);
        },
        JsonModel::String(x) => {
            lemma_lex_string(s, i, x);
        },
        JsonModel::Array(items) => {
            let inner = dump_items(items);
            lemma_has_at_split(s, i, seq!['['] + inner, seq![']']);
            lemma_has_at_split(s, i, seq!['['], inner);
            lemma_has_at_index(s, i, seq!['['], 0);
            lemma_has_at_index(s, i + 1 + inner.len(), seq![']'], 0);
            lemma_lex_punctuation(s, i);
            lemma_lex_items(s, i + 1, items);
            lemma_lex_punctuation(s, i + 1 + inner.len());
            let rest = lex_kinds(s, end);
            lemma_kinds_then_twice(items_tokens(items), seq![KindModel::RightBracket], rest);
            lemma_kinds_then_twice(
                seq![KindModel::LeftBracket],
                items_tokens(items) + seq![KindModel::RightBracket],
                rest,
            );
            assert(seq![KindModel::LeftBracket] + (items_tokens(items)
                + seq![KindModel::RightBracket]) == tokens_of(m));
        },
        JsonModel::Object(members) => {
            let inner = dump_members(members);
            lemma_has_at_split(s, i, seq!['{'] + inner, seq!['}']);
            lemma_has_at_split(s, i, seq!['{'], inner);
            lemma_has_at_index(s, i, seq!['{'], 0);
            lemma_has_at_index(s, i + 1 + inner.len(), seq!['}'], 0);
            lemma_lex_punctuation(s, i);
            lemma_lex_members(s, i + 1, members);
            lemma_lex_punctuation(s, i + 1 + inner.len());
            let rest = lex_kinds(s, end);
            lemma_kinds_then_twice(members_tokens(members), seq![KindModel::RightBrace], rest);
            lemma_kinds_then_twice(
                seq![KindModel::LeftBrace],
                members_tokens(members) + seq![KindModel::RightBrace],
                rest,
            );
            assert(seq![KindModel::LeftBrace] + (members_tokens(members)
                + seq![KindModel::RightBrace]) == tokens_of(m));
        },
    }
}

/// A separator is a comma token.
proof fn lemma_lex_separator(s: Seq<char>, i: int)
    requires
        has_at(s, i, separator()),
    ensures
        lex_kinds(s, i) == kinds_then(seq![KindModel::Comma], lex_kinds(s, i + 2)),
{
    lemma_has_at_index(s, i, separator(), 0);
    lemma_has_at_index(s, i, separator(), 1);
    lemma_lex_punctuation(s, i);
    lemma_lex_space(s, i + 1);
}

/// A key separator is a colon token.
proof fn lemma_lex_key_separator(s: Seq<char>, i: int)
    requires
        has_at(s, i, key_separator()),
    ensures
        lex_kinds(s, i) == kinds_then(seq![KindModel::Colon], lex_kinds(s, i + 3)),
{
    lemma_has_at_index(s, i, key_separator(), 0);
    lemma_has_at_index(s, i, key_separator(), 1);
    lemma_has_at_index(s, i, key_separator(), 2);
    lemma_lex_space(s, i);
    lemma_lex_punctuation(s, i + 1);
    lemma_lex_space(s, i + 2);
}

/// The texts of well-formed elements, separated, are lexed into the elements' tokens
/// with commas between them.
proof fn lemma_lex_items(s: Seq<char>, i: int, items: Seq<JsonModel>)
    requires
        forall|k: int| 0 <= k < items.len() ==> well_formed(#[trigger] items[k]),
        has_at(s, i, dump_items(items)),
        delimited(s, i + dump_items(items).len()),
    ensures
        lex_kinds(s, i) == kinds_then(
            items_tokens(items),
            lex_kinds(s, i + dump_items(items).len()),
        ),
    decreases items, 1nat,
{
    let d = dump_items(items);
    if items.len() == 0 {
        lemma_kinds_then_nothing(lex_kinds(s, i));
    } else if items.len() == 1 {
        lemma_lex_value(s, i, items[0]);
    } else {
        let head = dump_text(items[0]);
        let tail = items.drop_first();
        let mid = i + head.len();
        lemma_has_at_split(s, i, head + separator(), dump_items(tail));
        lemma_has_at_split(s, i, head, separator());
        lemma_has_at_index(s, mid, separator(), 0);
        lemma_lex_value(s, i, items[0]);
        lemma_lex_separator(s, mid);
        assert forall|k: int| 0 <= k < tail.len() implies well_formed(#[trigger] tail[k]) by {}
        lemma_lex_items(s, mid + 2, tail);
        let rest = lex_kinds(s, i + d.len());
        lemma_kinds_then_twice(seq![KindModel::Comma], items_tokens(tail), rest);
        lemma_kinds_then_twice(
            tokens_of(items[0]),
            seq![KindModel::Comma] + items_tokens(tail),
            rest,
        );
        assert(tokens_of(items[0]) + (seq![KindModel::Comma] + items_tokens(tail))
            == items_tokens(items));
    }
}

/// The text of a member with a well-formed value is lexed into the member's tokens.
proof fn lemma_lex_member(s: Seq<char>, i: int, key: Seq<char>, value: JsonModel)
    requires
        no_quote(key),
        well_formed(value),
        has_at(s, i, dump_member(key, value)),
        delimited(s, i + dump_member(key, value).len()),
    ensures
        lex_kinds(s, i) == kinds_then(
            member_tokens(key, value),
            lex_kinds(s, i + dump_member(key, value).len()),
        ),
    decreases value, 1nat,
{
    let d = dump_member(key, value);
    let colon = i + key.len() + 2;
    lemma_has_at_split(s, i, quoted(key) + key_separator(), dump_text(value));
    lemma_has_at_split(s, i, quoted(key), key_separator());
    lemma_lex_string(s, i, key);
    lemma_lex_key_separator(s, colon);
    lemma_lex_value(s, colon + 3, value);
    let rest = lex_kinds(s, i + d.len());
    lemma_kinds_then_twice(seq![KindModel::Colon], tokens_of(value), rest);
    lemma_kinds_then_twice(string_tokens(key), seq![KindModel::Colon] + tokens_of(value), rest);
    assert(string_tokens(key) + (seq![KindModel::Colon] + tokens_of(value)) == member_tokens(
        key,
        value,
    ));
}

/// The texts of well-formed members, separated, are lexed into the members' tokens with
/// commas between them.
proof fn lemma_lex_members(s: Seq<char>, i: int, members: Members)
    requires
        forall|k: int|
            0 <= k < members.len() ==> no_quote((#[trigger] members[k]).0) && well_formed(
                members[k].1,
            ),
        has_at(s, i, dump_members(members)),
        delimited(s, i + dump_members(members).len()),
    ensures
        lex_kinds(s, i) == kinds_then(
            members_tokens(members),
            lex_kinds(s, i + dump_members(members).len()),
        ),
    decreases members, 2nat,
{
    let d = dump_members(members);
    if members.len() == 0 {
        lemma_kinds_then_nothing(lex_kinds(s, i));
    } else if members.len() == 1 {
        lemma_lex_member(s, i, members[0].0, members[0].1);
    } else {
        let head = dump_member(members[0].0, members[0].1);
        let tail = members.drop_first();
        let mid = i + head.len();
        lemma_has_at_split(s, i, head + separator(), dump_members(tail));
        lemma_has_at_split(s, i, head, separator());
        lemma_has_at_index(s, mid, separator(), 0);
        lemma_lex_member(s, i, members[0].0, members[0].1);
        lemma_lex_separator(s, mid);
        assert forall|k: int| 0 <= k < tail.len() implies no_quote((#[trigger] tail[k]).0)
            && well_formed(tail[k].1) by {}
        lemma_lex_members(s, mid + 2, tail);
        let rest = lex_kinds(s, i + d.len());
        lemma_kinds_then_twice(seq![KindModel::Comma], members_tokens(tail), rest);
        lemma_kinds_then_twice(
            member_tokens(members[0].0, members[0].1),
            seq![KindModel::Comma] + members_tokens(tail),
            rest,
        );
        assert(member_tokens(members[0].0, members[0].1) + (seq![KindModel::Comma]
            + members_tokens(tail)) == members_tokens(members));
    }
}

/// A value's tokens begin with a token that only a value begins with.
pub open spec fn begins_value(kind: KindModel) -> bool {
    kind is LeftBrace || kind is LeftBracket || kind is DoubleQuote || kind is Number
        || kind is True || kind is False || kind is Null
}

proof fn lemma_first_token(m: JsonModel)
    ensures
        tokens_of(m).len() > 0,
        begins_value(tokens_of(m)[0]),
{
}

/// The tokens of a string are parsed into the string.
proof fn lemma_parse_string(t: Seq<KindModel>, pos: int, content: Seq<char>)
    requires
        has_at(t, pos, string_tokens(content)),
    ensures
        parse_string(t, pos + 1) == Ok::<(Seq<char>, int), JsonParseError>((content, pos + 3)),
{
    lemma_has_at_index(t, pos, string_tokens(content), 1);
    lemma_has_at_index(t, pos, string_tokens(content), 2);
}

/// The tokens of a well-formed value that nests no deeper than allowed are parsed into
/// the value, whatever follows them.
pub proof fn lemma_parse_value(t: Seq<KindModel>, pos: int, m: JsonModel, depth: nat)
    requires
        well_formed(m),
        fits(m, depth),
        has_at(t, pos, tokens_of(m)),
    ensures
        parse_value(t, pos, depth) == Ok::<(JsonModel, int), JsonParseError>(
            (m, pos + tokens_of(m).len()),
        ),
    decreases m, 0nat,
{
    let k = tokens_of(m);
    lemma_has_at_index(t, pos, k, 0);
    match m {
        JsonModel::String(x) => {
            lemma_parse_string(t, pos, x);
        },
        JsonModel::Array(items) => {
            let inner = items_tokens(items);
            let close = seq![KindModel::RightBracket];
            lemma_has_at_split(t, pos, seq![KindModel::LeftBracket] + inner, close);
            lemma_has_at_split(t, pos, seq![KindModel::LeftBracket], inner);
            lemma_has_at_index(t, pos + 1 + inner.len(), close, 0);
            if items.len() > 0 {
                lemma_first_token(items[0]);
                lemma_has_at_index(t, pos + 1, inner, 0);
                assert(has_at(t, pos + 1, inner + close)) by {
                    assert(t.subrange(pos + 1, pos + 1 + (inner + close).len()) == inner + close);
                }
                lemma_parse_elements(t, pos + 1, (depth - 1) as nat, Seq::empty(), items);
            }
        },
        JsonModel::Object(members) => {
            let inner = members_tokens(members);
            let close = seq![KindModel::RightBrace];
            lemma_has_at_split(t, pos, seq![KindModel::LeftBrace] + inner, close);
            lemma_has_at_split(t, pos, seq![KindModel::LeftBrace], inner);
            lemma_has_at_index(t, pos + 1 + inner.len(), close, 0);
            if members.len() > 0 {
                let first = member_tokens(members[0].0, members[0].1);
                assert(inner[0] == first[0]);
                lemma_has_at_index(t, pos + 1, inner, 0);
                assert(has_at(t, pos + 1, inner + close)) by {
                    assert(t.subrange(pos + 1, pos + 1 + (inner + close).len()) == inner + close);
                }
                lemma_parse_members(t, pos + 1, (depth - 1) as nat, Seq::empty(), members);
            }
        },
        _ => {},
    }
}

/// The tokens of one or more elements and the closing bracket are parsed into the array
/// of the elements, behind those that were parsed before.
proof fn lemma_parse_elements(
    t: Seq<KindModel>,
    pos: int,
    depth: nat,
    done: Seq<JsonModel>,
    rest: Seq<JsonModel>,
)
    requires
        rest.len() > 0,
        forall|k: int|
            0 <= k < rest.len() ==> well_formed(#[trigger] rest[k]) && fits(rest[k], depth),
        has_at(t, pos, items_tokens(rest) + seq![KindModel::RightBracket]),
    ensures
        parse_elements(t, pos, depth, done) == Ok::<(JsonModel, int), JsonParseError>(
            (JsonModel::Array(done + rest), pos + items_tokens(rest).len() + 1),
        ),
    decreases rest, 1nat,
{
    let close = seq![KindModel::RightBracket];
    let head = tokens_of(rest[0]);
    let next = pos + head.len();
    lemma_first_token(rest[0]);
    if rest.len() == 1 {
        lemma_has_at_split(t, pos, head, close);
        lemma_has_at_index(t, next, close, 0);
        lemma_parse_value(t, pos, rest[0], depth);
        assert(done.push(rest[0]) == done + rest);
    } else {
        let tail = rest.drop_first();
        let comma = seq![KindModel::Comma];
        assert(items_tokens(rest) + close == head + (comma + (items_tokens(tail) + close)));
        lemma_has_at_split(t, pos, head, comma + (items_tokens(tail) + close));
        lemma_has_at_split(t, next, comma, items_tokens(tail) + close);
        lemma_has_at_index(t, next, comma, 0);
        lemma_parse_value(t, pos, rest[0], depth);
        assert forall|k: int| 0 <= k < tail.len() implies well_formed(#[trigger] tail[k]) && fits(
            tail[k],
            depth,
        ) by {}
        lemma_parse_elements(t, next + 1, depth, done.push(rest[0]), tail);
        assert(done.push(rest[0]) + tail == done + rest);
    }
}

/// A key that no member has goes to the end.
proof fn lemma_upsert_fresh(done: Members, key: Seq<char>, value: JsonModel)
    requires
        forall|i: int| 0 <= i < done.len() ==> (#[trigger] done[i]).0 != key,
    ensures
        upsert(done, key, value) == done.push((key, value)),
{
    lemma_key_index(done, key);
}

/// The tokens of one or more members with keys of their own and the closing brace are
/// parsed into the object of the members, behind those that were parsed before.
proof fn lemma_parse_members(
    t: Seq<KindModel>,
    pos: int,
    depth: nat,
    done: Members,
    rest: Members,
)
    requires
        rest.len() > 0,
        keys_unique(done + rest),
        forall|k: int|
            0 <= k < rest.len() ==> well_formed((#[trigger] rest[k]).1) && fits(rest[k].1, depth),
        has_at(t, pos, members_tokens(rest) + seq![KindModel::RightBrace]),
    ensures
        parse_members(t, pos, depth, done) == Ok::<(JsonModel, int), JsonParseError>(
            (JsonModel::Object(done + rest), pos + members_tokens(rest).len() + 1),
        ),
    decreases rest, 1nat,
{
    let close = seq![KindModel::RightBrace];
    let (key, value) = rest[0];
    let colon = seq![KindModel::Colon];
    let head = member_tokens(key, value);
    let next = pos + head.len();
    let all = done + rest;
    lemma_first_token(value);
    assert forall|i: int| 0 <= i < done.len() implies (#[trigger] done[i]).0 != key by {
        assert(all[i] == done[i]);
        assert(all[done.len() as int] == rest[0]);
    }
    lemma_upsert_fresh(done, key, value);
    let grown = done.push((key, value));
    assert(head == string_tokens(key) + (colon + tokens_of(value)));
    if rest.len() == 1 {
        lemma_has_at_split(t, pos, head, close);
        lemma_has_at_index(t, next, close, 0);
        assert(grown == done + rest);
    } else {
        let tail = rest.drop_first();
        let comma = seq![KindModel::Comma];
        assert(members_tokens(rest) + close == head + (comma + (members_tokens(tail) + close)));
        lemma_has_at_split(t, pos, head, comma + (members_tokens(tail) + close));
        lemma_has_at_split(t, next, comma, members_tokens(tail) + close);
        lemma_has_at_index(t, next, comma, 0);
        assert forall|k: int| 0 <= k < tail.len() implies well_formed((#[trigger] tail[k]).1)
            && fits(tail[k].1, depth) by {}
        assert(grown + tail == done + rest);
        lemma_parse_members(t, next + 1, depth, grown, tail);
    }
    lemma_has_at_split(t, pos, string_tokens(key), colon + tokens_of(value));
    lemma_has_at_split(t, pos + 3, colon, tokens_of(value));
    lemma_has_at_index(t, pos, string_tokens(key), 0);
    lemma_has_at_index(t, pos + 3, colon, 0);
    lemma_parse_string(t, pos, key);
    lemma_parse_value(t, pos + 4, value, depth);
}

/// The text of a value, read back, is the value: for every value in which no string and
/// no key holds a quote, every number is a number literal, no object has a key twice,
/// and arrays and objects nest no deeper than the reader follows them.
pub proof fn theorem_round_trip(m: JsonModel, depth: nat)
    requires
        well_formed(m),
        fits(m, depth),
    ensures
        parse_text(dump_text(m), depth) == Ok::<JsonModel, JsonError>(m),
{
    let s = dump_text(m);
    let k = tokens_of(m);
    let end = seq![KindModel::EOF];
    // the text is lexed into the value's tokens and the end marker
    assert(has_at(s, 0, s)) by {
        assert(s.subrange(0, s.len() as int) == s);
    }
    lemma_lex_value(s, 0, m);
    assert(lex_kinds(s, s.len() as int) == Ok::<Seq<KindModel>, LexError>(end)) by {
        assert(kinds_of(lex_from(s, s.len() as int)->Ok_0) == end);
    }
    let t = kinds_of(lex_text(s)->Ok_0);
    assert(t == k + end);
    // and these are parsed into the value
    assert(has_at(t, 0, k)) by {
        assert(t.subrange(0, k.len() as int) == k);
    }
    lemma_parse_value(t, 0, m, depth);
}

/// Every string token is free of quotes and every number token is a number literal.
pub open spec fn clean(t: Seq<KindModel>) -> bool {
    forall|j: int|
        0 <= j < t.len() ==> match #[trigger] t[j] {
            KindModel::String(x) => no_quote(x),
            KindModel::Number(x) => is_number_literal(x),
            _ => true,
        }
}

proof fn lemma_clean_append(a: Seq<KindModel>, b: Seq<KindModel>)
    requires
        clean(a),
        clean(b),
    ensures
        clean(a + b),
{
    assert forall|j: int| 0 <= j < (a + b).len() implies match #[trigger] (a + b)[j] {
        KindModel::String(x) => no_quote(x),
        KindModel::Number(x) => is_number_literal(x),
        _ => true,
    } by {
        if j < a.len() {
            assert((a + b)[j] == a[j]);
        } else {
            assert((a + b)[j] == b[j - a.len()]);
        }
    }
}

/// A step of the tokenizer yields clean tokens.
proof fn lemma_step_is_clean(s: Seq<char>, i: int)
    requires
        0 <= i < s.len(),
    ensures
        lex_step(s, i) matches Ok((first, _)) ==> clean(kinds_of(first)),
{
    if s[i] == '"' {
        let j = string_end(s, i + 1);
        let content = s.subrange(i + 1, j);
        lemma_run_end_bounds(s, i + 1, |c: char| c != '"');
        assert forall|k: int| 0 <= k < content.len() implies content[k] != '"' by {
            assert((|c: char| c != '"')(s[i + 1 + k]));
        }
    }
}

/// The tokenizer yields clean tokens.
pub proof fn lemma_lexed_is_clean(s: Seq<char>, i: int)
    ensures
        lex_kinds(s, i) matches Ok(t) ==> clean(t),
    decreases s.len() - i,
{
    if 0 <= i < s.len() {
        if let Ok((first, next)) = lex_step(s, i) {
            lemma_step_advances(s, i);
            lemma_step_is_clean(s, i);
            lemma_lexed_is_clean(s, next);
            if let Ok(more) = lex_kinds(s, next) {
                lemma_kinds_followed(s, i, first, next);
                lemma_clean_append(kinds_of(first), more);
            }
        }
    }
}

/// Whether `r`, where it is a success, is a well-formed value that nests at most `depth`
/// deep.
pub open spec fn sound(r: Parsed<JsonModel>, depth: nat) -> bool {
    r matches Ok((m, _)) ==> well_formed(m) && fits(m, depth)
}

/// The members are well formed, have keys of their own, and nest at most `depth` deep.
pub open spec fn sound_members(members: Members, depth: nat) -> bool {
    &&& keys_unique(members)
    &&& forall|i: int|
        0 <= i < members.len() ==> {
            &&& no_quote((#[trigger] members[i]).0)
            &&& well_formed(members[i].1)
            &&& fits(members[i].1, depth)
        }
}

/// The elements are well formed and nest at most `depth` deep.
pub open spec fn sound_items(items: Seq<JsonModel>, depth: nat) -> bool {
    forall|i: int|
        0 <= i < items.len() ==> well_formed(#[trigger] items[i]) && fits(items[i], depth)
}

proof fn lemma_array_sound(items: Seq<JsonModel>, depth: nat)
    requires
        sound_items(items, depth),
    ensures
        well_formed(JsonModel::Array(items)),
        fits(JsonModel::Array(items), depth + 1),
{
    assert forall|i: int| 0 <= i < items.len() implies fits(
        #[trigger] items[i],
        ((depth + 1) - 1) as nat,
    ) by {}
}

proof fn lemma_object_sound(members: Members, depth: nat)
    requires
        sound_members(members, depth),
    ensures
        well_formed(JsonModel::Object(members)),
        fits(JsonModel::Object(members), depth + 1),
{
    assert forall|i: int| 0 <= i < members.len() implies fits(
        (#[trigger] members[i]).1,
        ((depth + 1) - 1) as nat,
    ) by {}
}

proof fn lemma_upsert_sound(done: Members, key: Seq<char>, value: JsonModel, depth: nat)
    requires
        sound_members(done, depth),
        no_quote(key),
        well_formed(value),
        fits(value, depth),
    ensures
        sound_members(upsert(done, key, value), depth),
{
    lemma_key_index(done, key);
    lemma_upsert_unique(done, key, value);
}

/// What the parser makes of clean tokens is well formed and nests no deeper than
/// allowed.
pub proof fn lemma_parsed_is_sound(t: Seq<KindModel>, pos: int, depth: nat)
    requires
        clean(t),
        0 <= pos,
    ensures
        sound(parse_value(t, pos, depth), depth),
        sound(parse_array(t, pos, depth), depth + 1),
        sound(parse_object(t, pos, depth), depth + 1),
        forall|done: Seq<JsonModel>|
            sound_items(done, depth) ==> sound(
                #[trigger] parse_elements(t, pos, depth, done),
                depth + 1,
            ),
        forall|done: Members|
            sound_members(done, depth) ==> sound(
                #[trigger] parse_members(t, pos, depth, done),
                depth + 1,
            ),
    decreases t.len() - pos,
{
    if pos < t.len() {
        lemma_parsed_is_sound(t, pos + 1, depth);
        if depth > 0 {
            lemma_parsed_is_sound(t, pos + 1, (depth - 1) as nat);
        }
        assert forall|done: Seq<JsonModel>| sound_items(done, depth) implies sound(
            #[trigger] parse_elements(t, pos, depth, done),
            depth + 1,
        ) by {
            match parse_value(t, pos, depth) {
                Ok((v, next)) => {
                    let grown = done.push(v);
                    assert forall|k: int| 0 <= k < grown.len() implies well_formed(
                        #[trigger] grown[k],
                    ) && fits(grown[k], depth) by {
                        if k < done.len() {
                            assert(grown[k] == done[k]);
                        }
                    }
                    lemma_array_sound(grown, depth);
                    if is_kind(t, next, KindModel::Comma) && pos < next {
                        lemma_parsed_is_sound(t, next + 1, depth);
                        assert(sound(parse_elements(t, next + 1, depth, grown), depth + 1));
                    }
                },
                Err(e) => {},
            }
        }
        assert forall|done: Members| sound_members(done, depth) implies sound(
            #[trigger] parse_members(t, pos, depth, done),
            depth + 1,
        ) by {
            if let Ok((key, colon)) = parse_string(t, pos + 1) {
                if is_kind(t, pos, KindModel::DoubleQuote) && is_kind(t, colon, KindModel::Colon) {
                    lemma_parsed_is_sound(t, colon + 1, depth);
                    match parse_value(t, colon + 1, depth) {
                        Ok((v, next)) => {
                            lemma_upsert_sound(done, key, v, depth);
                            let grown = upsert(done, key, v);
                            lemma_object_sound(grown, depth);
                            if is_kind(t, next, KindModel::Comma) && pos < next {
                                lemma_parsed_is_sound(t, next + 1, depth);
                                assert(sound(parse_members(t, next + 1, depth, grown), depth + 1));
                            }
                        },
                        Err(e) => {},
                    }
                }
            }
        }
        lemma_array_sound(Seq::empty(), depth);
        lemma_object_sound(Seq::empty(), depth);
        assert(sound(parse_elements(t, pos, depth, Seq::empty()), depth + 1));
        assert(sound(parse_members(t, pos, depth, Seq::empty()), depth + 1));
    }
}

/// What is read from a text is well formed: no string and no key holds a quote, every
/// number is a number literal, no object has a key twice, and arrays and objects nest
/// no deeper than the reader follows them.
pub proof fn theorem_read_is_well_formed(text: Seq<char>, depth: nat)
    ensures
        parse_text(text, depth) matches Ok(m) ==> well_formed(m) && fits(m, depth),
{
    lemma_lexed_is_clean(text, 0);
    if let Ok(tokens) = lex_text(text) {
        lemma_parsed_is_sound(kinds_of(tokens), 0, depth);
    }
}

/// What was read can be written and read back: the text of a value that was read from
/// some text denotes that value.
pub proof fn theorem_read_write_read(text: Seq<char>, depth: nat)
    ensures
        parse_text(text, depth) matches Ok(m) ==> parse_text(dump_text(m), depth) == Ok::<
            JsonModel,
            JsonError,
        >(m),
{
    theorem_read_is_well_formed(text, depth);
    if let Ok(m) = parse_text(text, depth) {
        theorem_round_trip(m, depth);
    }
}

/// Reading is a function of the text: two readings of one text that both are what
/// `parse_json` promises yield the same value, or the same error.
pub proof fn theorem_deterministic(
    text: Seq<char>,
    first: Result<JsonValue, JsonError>,
    second: Result<JsonValue, JsonError>,
)
    requires
        parsed_text(first) == parse_text(text, DEFAULT_MAX_DEPTH as nat),
        parsed_text(second) == parse_text(text, DEFAULT_MAX_DEPTH as nat),
    ensures
        parsed_text(first) == parsed_text(second),
{
}

/// Whether no character of `s` is a quote.
fn without_quote(s: &str) -> (r: bool)
    ensures
        r == no_quote(s@),
{
    let v = chars_of(s);
    let mut i: usize = 0;
    while i < v.len()
        invariant
            i <= v.len(),
            v@ == s@,
            forall|k: int| 0 <= k < i ==> v@[k] != '"',
        decreases v.len() - i,
    {
        if v[i] == '"' {
            return false;
        }
        i += 1;
    }
    true
}

impl JsonValue {
    /// Whether the value is well formed and nests at most `depth` deep. If it is, its
    /// text, read back by a reader that follows arrays and objects `depth` deep, is the
    /// value.
    pub fn reads_back(&self, depth: usize) -> (r: bool)
        ensures
            r == (well_formed(self@) && fits(self@, depth as nat)),
            r ==> parse_text(dump_text(self@), depth as nat) == Ok::<JsonModel, JsonError>(self@),
        decreases self@,
    {
        let r = match self {
            JsonValue::Null => true,
            JsonValue::JsonBool(_) => true,
            JsonValue::Number(n) => {
                // a number is a literal by construction, as `as_str` says
                let _ = n.as_str();
                true
            },
            JsonValue::String(s) => without_quote(s.as_str()),
            JsonValue::Array(v) => {
                if depth == 0 {
                    return false;
                }
                let ghost items = self@->Array_0;
                let mut i: usize = 0;
                while i < v.len()
                    invariant
                        i <= v.len(),
                        depth > 0,
                        self@ == JsonModel::Array(items),
                        items.len() == v.len(),
                        forall|k: int| 0 <= k < v.len() ==> items[k] == (#[trigger] v@[k])@,
                        forall|k: int|
                            0 <= k < i ==> well_formed(#[trigger] items[k]) && fits(
                                items[k],
                                (depth - 1) as nat,
                            ),
                    decreases v.len() - i,
                {
                    assert(decreases_to!(self@ => self@->Array_0));
                    assert(decreases_to!(items => items[i as int]));
                    if !v[i].reads_back(depth - 1) {
                        assert(!(well_formed(items[i as int]) && fits(
                            items[i as int],
                            (depth - 1) as nat,
                        )));
                        return false;
                    }
                    i += 1;
                }
                true
            },
            JsonValue::Object(o) => {
                if depth == 0 {
                    return false;
                }
                let ghost members = o@;
                let n = o.len();
                let mut i: usize = 0;
                while i < n
                    invariant
                        i <= n,
                        depth > 0,
                        n == members.len(),
                        members == o@,
                        keys_unique(members),
                        self@ == JsonModel::Object(members),
                        forall|k: int|
                            0 <= k < i ==> {
                                &&& no_quote((#[trigger] members[k]).0)
                                &&& well_formed(members[k].1)
                                &&& fits(members[k].1, (depth - 1) as nat)
                            },
                    decreases n - i,
                {
                    match o.get_index(i) {
                        Some((key, value)) => {
                            assert(decreases_to!(self@ => self@->Object_0));
                            assert(decreases_to!(members => members[i as int]));
                            assert(decreases_to!(members[i as int] => members[i as int].1));
                            if !without_quote(key.as_str()) || !value.reads_back(depth - 1) {
                                assert(!(no_quote(members[i as int].0) && well_formed(
                                    members[i as int].1,
                                ) && fits(members[i as int].1, (depth - 1) as nat)));
                                return false;
                            }
                        },
                        None => {},
                    }
                    i += 1;
                }
                true
            },
        };
        proof {
            if r {
                theorem_round_trip(self@, depth as nat);
            }
        }
        r
    }
}

} // verus!
