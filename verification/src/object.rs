//! Objects: an ordered map from keys to values, in which a key occurs once and keeps
//! the place of its first insertion.
//!
//! The map is an `IndexMap` of the crate `indexmap`. Verus does not look into it: what
//! it holds goes by the name `object_entries`, and what `map_new`, `map_insert`,
//! `map_len` and `map_get_index` say of it is what `indexmap` documents, taken on trust.

use vstd::prelude::*;
use indexmap::IndexMap;
use crate::json_value::{JsonModel, JsonValue};

verus! {

/// The members of an object as mathematics sees them: pairs of a key and a value, in
/// order.
pub type Members = Seq<(Seq<char>, JsonModel)>;

/// The position of the first member with the given key, or the number of members where
/// no member has it.
pub open spec fn key_index(members: Members, key: Seq<char>) -> int
    decreases members.len(),
{
    if members.len() == 0 {
        0
    } else if members[0].0 == key {
        0
    } else {
        1 + key_index(members.drop_first(), key)
    }
}

/// Whether some member has the given key.
pub open spec fn has_key(members: Members, key: Seq<char>) -> bool {
    key_index(members, key) < members.len()
}

/// The members after `key` has been given `value`: a key that is already there keeps
/// its place and takes the new value; a new key goes to the end.
pub open spec fn upsert(members: Members, key: Seq<char>, value: JsonModel) -> Members {
    if has_key(members, key) {
        members.update(key_index(members, key), (key, value))
    } else {
        members.push((key, value))
    }
}

/// No two members share a key.
pub open spec fn keys_unique(members: Members) -> bool {
    forall|i: int, j: int|
        0 <= i < j < members.len() ==> (#[trigger] members[i]).0 != (#[trigger] members[j]).0
}

/// `key_index` finds the first member with the key, and nothing before it has the key.
pub proof fn lemma_key_index(members: Members, key: Seq<char>)
    ensures
        0 <= key_index(members, key) <= members.len(),
        has_key(members, key) ==> members[key_index(members, key)].0 == key,
        forall|i: int| 0 <= i < key_index(members, key) ==> (#[trigger] members[i]).0 != key,
    decreases members.len(),
{
    if members.len() > 0 && members[0].0 != key {
        let rest = members.drop_first();
        lemma_key_index(rest, key);
        assert forall|i: int| 0 <= i < key_index(members, key) implies (#[trigger] members[i]).0
            != key by {
            if i > 0 {
                assert(rest[i - 1] == members[i]);
            }
        }
    }
}

/// Giving a key a value keeps the keys unique.
pub proof fn lemma_upsert_unique(members: Members, key: Seq<char>, value: JsonModel)
    requires
        keys_unique(members),
    ensures
        keys_unique(upsert(members, key, value)),
{
    lemma_key_index(members, key);
}

/// The members of an object, each value taken by its view, in the order in which the
/// map holds them.
pub uninterp spec fn object_entries(o: JsonObject) -> Members;

/// An ordered map from keys to values, opaque to Verus. Two objects are `==` when they
/// hold the same members, in whatever order.
#[verifier::external_body]
#[derive(Debug, PartialEq)]
pub struct JsonObject {
    map: IndexMap<String, JsonValue>,
}

/// `IndexMap::new`: a map without entries.
#[verifier::external_body]
fn map_new() -> (o: JsonObject)
    ensures
        object_entries(o) == Members::empty(),
{
    JsonObject { map: IndexMap::new() }
}

/// `IndexMap::insert`: where an equal key is in the map, it stays where it is and gets
/// the new value; otherwise the pair becomes the last entry. No other entry changes.
#[verifier::external_body]
fn map_insert(o: &mut JsonObject, key: String, value: JsonValue)
    ensures
        object_entries(*final(o)) == upsert(object_entries(*old(o)), key@, value@),
{
    o.map.insert(key, value);
}

/// `IndexMap::len`: the number of entries. A map holds a key once, so no two of its `n`
/// entries have the same key.
#[verifier::external_body]
fn map_len(o: &JsonObject) -> (n: usize)
    ensures
        n == object_entries(*o).len(),
        keys_unique(object_entries(*o).take(n as int)),
{
    o.map.len()
}

/// `IndexMap::get_index`: the entry at position `i` in the order, or nothing where the
/// map has `i` entries or fewer.
#[verifier::external_body]
fn map_get_index(o: &JsonObject, i: usize) -> (r: Option<(&String, &JsonValue)>)
    ensures
        r is Some <==> i < object_entries(*o).len(),
        r matches Some(e) ==> e.0@ == object_entries(*o)[i as int].0,
        r matches Some(e) ==> e.1@ == object_entries(*o)[i as int].1,
{
    o.map.get_index(i)
}

impl View for JsonObject {
    type V = Members;

    open spec fn view(&self) -> Members {
        object_entries(*self)
    }
}

impl JsonObject {
    /// An object without members.
    pub fn new() -> (o: JsonObject)
        ensures
            o@ == Members::empty(),
    {
        map_new()
    }

    /// Gives `key` the value `value`: a key that is already there keeps its place and
    /// takes the new value; a new key goes to the end.
    pub fn insert(&mut self, key: String, value: JsonValue)
        ensures
            final(self)@ == upsert(old(self)@, key@, value@),
    {
        map_insert(self, key, value)
    }

    /// The number of members, no two of which have the same key.
    pub fn len(&self) -> (n: usize)
        ensures
            n == self@.len(),
            keys_unique(self@),
    {
        let n = map_len(self);
        assert(self@.take(n as int) == self@);
        n
    }

    /// The member at position `i`, or nothing where there are `i` members or fewer.
    pub fn get_index(&self, i: usize) -> (r: Option<(&String, &JsonValue)>)
        ensures
            r is Some <==> i < self@.len(),
            r matches Some(e) ==> e.0@ == self@[i as int].0,
            r matches Some(e) ==> e.1@ == self@[i as int].1,
    {
        map_get_index(self, i)
    }
}

} // verus!
