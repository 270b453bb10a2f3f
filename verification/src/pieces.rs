//! The text of a value in pieces: what stands between the numbers as text, and the
//! numbers as numbers, for a caller that writes numbers in a way of its own.

use vstd::prelude::*;
use vstd::string::*;
use crate::json_value::{
    dump_items, dump_member, dump_members, dump_text, key_separator, quoted, separator,
    JsonModel, JsonValue,
};
use crate::number::JsonNumber;
use crate::object::Members;

verus! {

/// A piece of a value's text.
#[derive(Debug, PartialEq)]
pub enum Piece {
    /// Characters to be written as they are.
    Text(String),
    /// A number, to be written as its literal or in another way.
    Number(JsonNumber),
}

/// A piece as mathematics sees it.
pub enum PieceModel {
    Text(Seq<char>),
    /// The literal.
    Number(Seq<char>),
}

impl View for Piece {
    type V = PieceModel;

    open spec fn view(&self) -> PieceModel {
        match self {
            Piece::Text(s) => PieceModel::Text(s@),
            Piece::Number(n) => PieceModel::Number(n@),
        }
    }
}

/// The views of the pieces, in order.
pub open spec fn piece_models(pieces: Seq<Piece>) -> Seq<PieceModel> {
    pieces.map_values(|p: Piece| p@)
}

/// The one piece of text `s`.
pub open spec fn text(s: Seq<char>) -> Seq<PieceModel> {
    seq![PieceModel::Text(s)]
}

/// The pieces of a value's text: every number is a piece of its own, and what stands
/// before, between and behind the numbers is text.
pub open spec fn pieces_of(m: JsonModel) -> Seq<PieceModel>
    decreases m, 0nat,
{
    match m {
        JsonModel::Number(t) => seq![PieceModel::Number(t)],
        JsonModel::Array(items) => text(seq!['[']) + items_pieces(items) + text(seq![']']),
        JsonModel::Object(members) => text(seq!['{']) + members_pieces(members) + text(
            seq!['}'],
        ),
        _ => text(dump_text(m)),
    }
}

/// The pieces of the elements, with a separator between each two.
pub open spec fn items_pieces(items: Seq<JsonModel>) -> Seq<PieceModel>
    decreases items, 0nat,
{
    if items.len() == 0 {
        Seq::empty()
    } else if items.len() == 1 {
        pieces_of(items[0])
    } else {
        pieces_of(items[0]) + text(separator()) + items_pieces(items.drop_first())
    }
}

/// The pieces of a member: the key between quotes with the key separator, then the
/// pieces of the value.
pub open spec fn member_pieces(key: Seq<char>, value: JsonModel) -> Seq<PieceModel>
    decreases value, 1nat,
{
    text(quoted(key) + key_separator()) + pieces_of(value)
}

/// The pieces of the members, with a separator between each two.
pub open spec fn members_pieces(members: Members) -> Seq<PieceModel>
    decreases members, 0nat,
{
    if members.len() == 0 {
        Seq::empty()
    } else if members.len() == 1 {
        member_pieces(members[0].0, members[0].1)
    } else {
        member_pieces(members[0].0, members[0].1) + text(separator()) + members_pieces(
            members.drop_first(),
        )
    }
}

/// What a piece is written as when numbers are written as their literals.
pub open spec fn piece_text(piece: PieceModel) -> Seq<char> {
    match piece {
        PieceModel::Text(s) => s,
        PieceModel::Number(t) => t,
    }
}

/// The pieces written one behind the other, numbers as their literals.
pub open spec fn flatten(pieces: Seq<PieceModel>) -> Seq<char>
    decreases pieces.len(),
{
    if pieces.len() == 0 {
        Seq::empty()
    } else {
        piece_text(pieces[0]) + flatten(pieces.drop_first())
    }
}

/// Writing two runs of pieces is writing the one and then the other.
pub proof fn lemma_flatten_append(a: Seq<PieceModel>, b: Seq<PieceModel>)
    ensures
        flatten(a + b) == flatten(a) + flatten(b),
    decreases a.len(),
{
    if a.len() == 0 {
        assert(a + b == b);
    } else {
        assert((a + b).drop_first() == a.drop_first() + b);
        lemma_flatten_append(a.drop_first(), b);
    }
}

/// One piece of text is written as that text.
proof fn lemma_flatten_text(s: Seq<char>)
    ensures
        flatten(text(s)) == s,
{
    lemma_flatten_one(PieceModel::Text(s));
}

/// One piece is written as what it is written as.
proof fn lemma_flatten_one(piece: PieceModel)
    ensures
        flatten(seq![piece]) == piece_text(piece),
{
    let nothing = Seq::<PieceModel>::empty();
    assert(seq![piece].drop_first() == nothing);
    assert(flatten(nothing) == Seq::<char>::empty());
    assert(piece_text(piece) + Seq::<char>::empty() == piece_text(piece));
}

/// The pieces of a value, numbers written as their literals, are the value's text.
pub proof fn theorem_pieces_make_the_text(m: JsonModel)
    ensures
        flatten(pieces_of(m)) == dump_text(m),
    decreases m, 0nat,
{
    match m {
        JsonModel::Number(t) => {
            lemma_flatten_one(PieceModel::Number(t));
        },
        JsonModel::Array(items) => {
            lemma_items_make_the_text(items);
            lemma_flatten_text(seq!['[']);
            lemma_flatten_text(seq![']']);
            lemma_flatten_append(text(seq!['[']), items_pieces(items));
            lemma_flatten_append(text(seq!['[']) + items_pieces(items), text(seq![']']));
        },
        JsonModel::Object(members) => {
            lemma_members_make_the_text(members);
            lemma_flatten_text(seq!['{']);
            lemma_flatten_text(seq!['}']);
            lemma_flatten_append(text(seq!['{']), members_pieces(members));
            lemma_flatten_append(text(seq!['{']) + members_pieces(members), text(seq!['}']));
        },
        _ => {
            lemma_flatten_text(dump_text(m));
        },
    }
}

proof fn lemma_items_make_the_text(items: Seq<JsonModel>)
    ensures
        flatten(items_pieces(items)) == dump_items(items),
    decreases items, 1nat,
{
    if items.len() == 1 {
        theorem_pieces_make_the_text(items[0]);
    } else if items.len() > 1 {
        let tail = items.drop_first();
        theorem_pieces_make_the_text(items[0]);
        lemma_items_make_the_text(tail);
        lemma_flatten_text(separator());
        lemma_flatten_append(pieces_of(items[0]), text(separator()));
        lemma_flatten_append(pieces_of(items[0]) + text(separator()), items_pieces(tail));
    }
}

proof fn lemma_member_makes_the_text(key: Seq<char>, value: JsonModel)
    ensures
        flatten(member_pieces(key, value)) == dump_member(key, value),
    decreases value, 1nat,
{
    theorem_pieces_make_the_text(value);
    lemma_flatten_text(quoted(key) + key_separator());
    lemma_flatten_append(text(quoted(key) + key_separator()), pieces_of(value));
}

proof fn lemma_members_make_the_text(members: Members)
    ensures
        flatten(members_pieces(members)) == dump_members(members),
    decreases members, 2nat,
{
    if members.len() == 1 {
        lemma_member_makes_the_text(members[0].0, members[0].1);
    } else if members.len() > 1 {
        let tail = members.drop_first();
        let head = member_pieces(members[0].0, members[0].1);
        lemma_member_makes_the_text(members[0].0, members[0].1);
        lemma_members_make_the_text(tail);
        lemma_flatten_text(separator());
        lemma_flatten_append(head, text(separator()));
        lemma_flatten_append(head + text(separator()), members_pieces(tail));
    }
}

/// One more element at the end adds a separator and the element's pieces, or the pieces
/// alone where it is the first.
proof fn lemma_items_pieces_push(items: Seq<JsonModel>, last: JsonModel)
    ensures
        items_pieces(items.push(last)) == if items.len() == 0 {
            pieces_of(last)
        } else {
            items_pieces(items) + text(separator()) + pieces_of(last)
        },
    decreases items.len(),
{
    if items.len() > 0 {
        assert(items.push(last).drop_first() == items.drop_first().push(last));
        lemma_items_pieces_push(items.drop_first(), last);
    }
}

/// One more member at the end adds a separator and the member's pieces, or the pieces
/// alone where it is the first.
proof fn lemma_members_pieces_push(members: Members, key: Seq<char>, value: JsonModel)
    ensures
        members_pieces(members.push((key, value))) == if members.len() == 0 {
            member_pieces(key, value)
        } else {
            members_pieces(members) + text(separator()) + member_pieces(key, value)
        },
    decreases members.len(),
{
    if members.len() > 0 {
        assert(members.push((key, value)).drop_first() == members.drop_first().push((key, value)));
        lemma_members_pieces_push(members.drop_first(), key, value);
    }
}

impl JsonValue {
    /// The text of the value in pieces: written one behind the other, each number as
    /// its literal, they are what `dump` returns.
    pub fn pieces(&self) -> (r: Vec<Piece>)
        ensures
            piece_models(r@) == pieces_of(self@),
            flatten(piece_models(r@)) == dump_text(self@),
    {
        let mut out: Vec<Piece> = Vec::new();
        self.write_pieces(&mut out);
        proof {
            theorem_pieces_make_the_text(self@);
            assert(piece_models(out@) == Seq::<PieceModel>::empty() + pieces_of(self@));
        }
        out
    }

    /// Puts the pieces of the value behind those that `out` holds.
    fn write_pieces(&self, out: &mut Vec<Piece>)
        ensures
            piece_models(final(out)@) == piece_models(old(out)@) + pieces_of(self@),
        decreases self@,
    {
        let ghost before = piece_models(out@);
        match self {
            JsonValue::Number(n) => {
                out.push(Piece::Number(n.clone()));
                assert(piece_models(out@) == before + pieces_of(self@));
            },
            JsonValue::Array(v) => {
                proof {
                    reveal_strlit("[");
                    reveal_strlit("]");
                    reveal_strlit(", ");
                }
                let ghost items = self@->Array_0;
                out.push(Piece::Text(String::from_str("[")));
                proof {
                    assert("["@ == seq!['[']);
                    assert(piece_models(out@) == before + text(seq!['[']));
                    assert(before + text(seq!['[']) + items_pieces(items.take(0)) == before + text(
                        seq!['['],
                    ));
                }
                let mut i: usize = 0;
                while i < v.len()
                    invariant
                        i <= v.len(),
                        self@ == JsonModel::Array(items),
                        items.len() == v.len(),
                        forall|k: int| 0 <= k < v.len() ==> items[k] == (#[trigger] v@[k])@,
                        piece_models(out@) == before + text(seq!['[']) + items_pieces(
                            items.take(i as int),
                        ),
                        ", "@ == separator(),
                    decreases v.len() - i,
                {
                    let ghost so_far = piece_models(out@);
                    if i > 0 {
                        out.push(Piece::Text(String::from_str(", ")));
                        assert(piece_models(out@) == so_far + text(separator()));
                    }
                    assert(decreases_to!(self@ => self@->Array_0));
                    assert(decreases_to!(items => items[i as int]));
                    v[i].write_pieces(out);
                    proof {
                        lemma_items_pieces_push(items.take(i as int), items[i as int]);
                        assert(items.take(i + 1) == items.take(i as int).push(items[i as int]));
                    }
                    i += 1;
                }
                let ghost inner = piece_models(out@);
                out.push(Piece::Text(String::from_str("]")));
                proof {
                    assert("]"@ == seq![']']);
                    assert(items.take(v.len() as int) == items);
                    assert(piece_models(out@) == inner + text(seq![']']));
                }
            },
            JsonValue::Object(o) => {
                proof {
                    reveal_strlit("{");
                    reveal_strlit("}");
                    reveal_strlit(", ");
                    reveal_strlit("\"");
                    reveal_strlit(" : ");
                }
                let ghost members = o@;
                let n = o.len();
                out.push(Piece::Text(String::from_str("{")));
                proof {
                    assert("{"@ == seq!['{']);
                    assert(piece_models(out@) == before + text(seq!['{']));
                    assert(before + text(seq!['{']) + members_pieces(members.take(0)) == before
                        + text(seq!['{']));
                }
                let mut i: usize = 0;
                while i < n
                    invariant
                        i <= n,
                        n == members.len(),
                        members == o@,
                        self@ == JsonModel::Object(members),
                        piece_models(out@) == before + text(seq!['{']) + members_pieces(
                            members.take(i as int),
                        ),
                        ", "@ == separator(),
                        " : "@ == key_separator(),
                        "\""@ == seq!['"'],
                    decreases n - i,
                {
                    let ghost so_far = piece_models(out@);
                    if i > 0 {
                        out.push(Piece::Text(String::from_str(", ")));
                        assert(piece_models(out@) == so_far + text(separator()));
                    }
                    let ghost separated = piece_models(out@);
                    match o.get_index(i) {
                        Some((key, value)) => {
                            let mut label = String::from_str("\"");
                            label.append(key.as_str());
                            label.append("\"");
                            label.append(" : ");
                            assert(label@ == quoted(key@) + key_separator());
                            out.push(Piece::Text(label));
                            assert(piece_models(out@) == separated + text(label@));
                            assert(decreases_to!(self@ => self@->Object_0));
                            assert(decreases_to!(members => members[i as int]));
                            assert(decreases_to!(members[i as int] => members[i as int].1));
                            value.write_pieces(out);
                            assert(piece_models(out@) == separated + member_pieces(
                                key@,
                                value@,
                            ));
                        },
                        None => {},
                    }
                    proof {
                        let (key, value) = members[i as int];
                        lemma_members_pieces_push(members.take(i as int), key, value);
                        assert(members.take(i + 1) == members.take(i as int).push((key, value)));
                    }
                    i += 1;
                }
                let ghost inner = piece_models(out@);
                out.push(Piece::Text(String::from_str("}")));
                proof {
                    assert("}"@ == seq!['}']);
                    assert(members.take(n as int) == members);
                    assert(piece_models(out@) == inner + text(seq!['}']));
                }
            },
            _ => {
                out.push(Piece::Text(self.dump()));
                assert(piece_models(out@) == before + pieces_of(self@));
            },
        }
    }
}

} // verus!
