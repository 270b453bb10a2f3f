//! The value tree and its text form.

use vstd::prelude::*;
use vstd::string::*;
use crate::number::JsonNumber;
use crate::object::{JsonObject, Members};

verus! {

/// One of the two truth values.
#[derive(Debug, Clone, Copy, PartialEq, Eq)]
pub enum JsonBool {
    True,
    False,
}

/// A value as mathematics sees it.
pub enum JsonModel {
    /// Members in order, each a key and a value.
    Object(Members),
    /// Elements in order.
    Array(Seq<JsonModel>),
    /// The characters between the quotes.
    String(Seq<char>),
    /// The literal as written.
    Number(Seq<char>),
    Bool(bool),
    Null,
}

/// A value. It owns all that it holds.
#[derive(Debug, PartialEq)]
pub enum JsonValue {
    Object(JsonObject),
    Array(Vec<JsonValue>),
    String(String),
    Number(JsonNumber),
    JsonBool(JsonBool),
    Null,
}

impl View for JsonValue {
    type V = JsonModel;

    /// The value without its representation. (In the array case the bounds on `i` are
    /// there for the termination check; no other `i` is ever asked for.)
    open spec fn view(&self) -> JsonModel
        decreases self,
    {
        match self {
            JsonValue::Object(o) => JsonModel::Object(o@),
            JsonValue::Array(v) => JsonModel::Array(
                Seq::new(
                    v@.len(),
                    |i: int|
                        if 0 <= i < v@.len() {
                            v@[i]@
                        } else {
                            JsonModel::Null
                        },
                ),
            ),
            JsonValue::String(s) => JsonModel::String(s@),
            JsonValue::Number(n) => JsonModel::Number(n@),
            JsonValue::JsonBool(b) => JsonModel::Bool(b is True),
            JsonValue::Null => JsonModel::Null,
        }
    }
}

/// The views of the values, in order.
pub open spec fn value_models(values: Seq<JsonValue>) -> Seq<JsonModel> {
    values.map_values(|v: JsonValue| v@)
}

/// The view of an array holds the views of its elements.
pub proof fn lemma_array_view(elements: Vec<JsonValue>)
    ensures
        JsonValue::Array(elements)@ == JsonModel::Array(value_models(elements@)),
{
    assert(JsonValue::Array(elements)@->Array_0 =~= value_models(elements@));
}

/// What separates two elements of an array and two members of an object.
pub open spec fn separator() -> Seq<char> {
    seq![',', ' ']
}

/// What separates a key from its value.
pub open spec fn key_separator() -> Seq<char> {
    seq![' ', ':', ' ']
}

/// A string between quotes, its characters as they are.
pub open spec fn quoted(s: Seq<char>) -> Seq<char> {
    seq!['"'] + s + seq!['"']
}

/// The text of a value.
pub open spec fn dump_text(m: JsonModel) -> Seq<char>
    decreases m, 0nat,
{
    match m {
        JsonModel::Null => seq!['n', 'u', 'l', 'l'],
        JsonModel::Bool(true) => seq!['t', 'r', 'u', 'e'],
        JsonModel::Bool(false) => seq!['f', 'a', 'l', 's', 'e'],
        JsonModel::String(s) => quoted(s),
        JsonModel::Number(t) => t,
        JsonModel::Array(items) => seq!['['] + dump_items(items) + seq![']'],
        JsonModel::Object(members) => seq!['{'] + dump_members(members) + seq!['}'],
    }
}

/// The texts of the elements, with a separator between each two.
pub open spec fn dump_items(items: Seq<JsonModel>) -> Seq<char>
    decreases items, 0nat,
{
    if items.len() == 0 {
        Seq::empty()
    } else if items.len() == 1 {
        dump_text(items[0])
    } else {
        dump_text(items[0]) + separator() + dump_items(items.drop_first())
    }
}

/// The text of a member: the key between quotes, the key separator, the value's text.
pub open spec fn dump_member(key: Seq<char>, value: JsonModel) -> Seq<char>
    decreases value, 1nat,
{
    quoted(key) + key_separator() + dump_text(value)
}

/// The texts of the members, with a separator between each two.
pub open spec fn dump_members(members: Members) -> Seq<char>
    decreases members, 0nat,
{
    if members.len() == 0 {
        Seq::empty()
    } else if members.len() == 1 {
        dump_member(members[0].0, members[0].1)
    } else {
        dump_member(members[0].0, members[0].1) + separator() + dump_members(
            members.drop_first(),
        )
    }
}

/// One more element at the end adds a separator and the element's text, or the text
/// alone where it is the first.
pub proof fn lemma_dump_items_push(items: Seq<JsonModel>, last: JsonModel)
    ensures
        dump_items(items.push(last)) == if items.len() == 0 {
            dump_text(last)
        } else {
            dump_items(items) + separator() + dump_text(last)
        },
    decreases items.len(),
{
    if items.len() > 0 {
        assert(items.push(last).drop_first() == items.drop_first().push(last));
        lemma_dump_items_push(items.drop_first(), last);
    }
}

/// One more member at the end adds a separator and the member's text, or the text alone
/// where it is the first.
pub proof fn lemma_dump_members_push(members: Members, key: Seq<char>, value: JsonModel)
    ensures
        dump_members(members.push((key, value))) == if members.len() == 0 {
            dump_member(key, value)
        } else {
            dump_members(members) + separator() + dump_member(key, value)
        },
    decreases members.len(),
{
    if members.len() > 0 {
        assert(members.push((key, value)).drop_first() == members.drop_first().push((key, value)));
        lemma_dump_members_push(members.drop_first(), key, value);
    }
}

impl JsonValue {
    /// The text of the value: `null`, `true` and `false` as such, a string between
    /// quotes with its characters as they are, a number as its literal, an array as
    /// `[e1, e2]`, an object as `{"k1" : v1, "k2" : v2}` with the members in order.
    pub fn dump(&self) -> (r: String)
        ensures
            r@ == dump_text(self@),
        decreases self@,
    {
        match self {
            JsonValue::Null => {
                proof {
                    reveal_strlit("null");
                }
                String::from_str("null")
            },
            JsonValue::JsonBool(JsonBool::True) => {
                proof {
                    reveal_strlit("true");
                }
                String::from_str("true")
            },
            JsonValue::JsonBool(JsonBool::False) => {
                proof {
                    reveal_strlit("false");
                }
                String::from_str("false")
            },
            JsonValue::String(s) => {
                proof {
                    reveal_strlit("\"");
                }
                let mut out = String::from_str("\"");
                out.append(s.as_str());
                out.append("\"");
                out
            },
            JsonValue::Number(n) => String::from_str(n.as_str()),
            JsonValue::Array(v) => {
                proof {
                    reveal_strlit("[");
                    reveal_strlit("]");
                    reveal_strlit(", ");
                }
                let ghost items = self@->Array_0;
                let mut out = String::from_str("[");
                let mut i: usize = 0;
                while i < v.len()
                    invariant
                        i <= v.len(),
                        self@ == JsonModel::Array(items),
                        items.len() == v.len(),
                        forall|k: int| 0 <= k < v.len() ==> items[k] == (#[trigger] v@[k])@,
                        out@ == seq!['['] + dump_items(items.take(i as int)),
                        ", "@ == separator(),
                    decreases v.len() - i,
                {
                    if i > 0 {
                        out.append(", ");
                    }
                    assert(decreases_to!(self@ => self@->Array_0));
                    let item = v[i].dump();
                    out.append(item.as_str());
                    proof {
                        lemma_dump_items_push(items.take(i as int), items[i as int]);
                        assert(items.take(i + 1) == items.take(i as int).push(items[i as int]));
                    }
                    i += 1;
                }
                out.append("]");
                assert(items.take(v.len() as int) == items);
                out
            },
            JsonValue::Object(o) => {
                proof {
                    reveal_strlit("{");
                    reveal_strlit("}");
                    reveal_strlit(", ");
                    reveal_strlit("\"");
                    reveal_strlit(" : ");
                }
                let ghost members = o@;
                let n = o.len();
                let mut out = String::from_str("{");
                let mut i: usize = 0;
                while i < n
                    invariant
                        i <= n,
                        n == members.len(),
                        members == o@,
                        self@ == JsonModel::Object(members),
                        out@ == seq!['{'] + dump_members(members.take(i as int)),
                        ", "@ == separator(),
                        " : "@ == key_separator(),
                        "\""@ == seq!['"'],
                    decreases n - i,
                {
                    if i > 0 {
                        out.append(", ");
                    }
                    match o.get_index(i) {
                        Some((key, value)) => {
                            out.append("\"");
                            out.append(key.as_str());
                            out.append("\"");
                            out.append(" : ");
                            assert(decreases_to!(self@ => self@->Object_0));
                            let text = value.dump();
                            out.append(text.as_str());
                        },
                        None => {},
                    }
                    proof {
                        let (key, value) = members[i as int];
                        lemma_dump_members_push(members.take(i as int), key, value);
                        assert(members.take(i + 1) == members.take(i as int).push((key, value)));
                    }
                    i += 1;
                }
                out.append("}");
                assert(members.take(n as int) == members);
                out
            },
        }
    }
}

} // verus!
