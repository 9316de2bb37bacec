//! A JSON document model: the values that the wire decoder produces and that
//! path selection walks.
use vstd::prelude::*;

verus! {

/// A JSON number. Floating-point values are carried by their IEEE-754 bits.
#[derive(Debug, Clone, Copy, PartialEq, Eq)]
pub enum JsonNumber {
    Unsigned(u64),
    Signed(i64),
    /// An `f64`, by its bit pattern.
    Double(u64),
    /// An `f32`, by its bit pattern.
    Single(u32),
}

/// A JSON value. Object entries keep their order; keys are expected to be distinct.
#[derive(Debug, PartialEq)]
pub enum JsonValue {
    Null,
    Bool(bool),
    Number(JsonNumber),
    Text(String),
    Array(Vec<JsonValue>),
    Object(Vec<(String, JsonValue)>),
}

/// Index of the first entry whose key is `key`.
pub open spec fn entry_index(entries: Seq<(String, JsonValue)>, key: Seq<char>) -> Option<int>
    decreases entries.len(),
{
    if entries.len() == 0 {
        None
    } else {
        match entry_index(entries.drop_last(), key) {
            Some(i) => Some(i),
            None => if entries.last().0@ == key {
                Some(entries.len() - 1)
            } else {
                None
            },
        }
    }
}

pub proof fn lemma_entry_index(entries: Seq<(String, JsonValue)>, key: Seq<char>, i: int)
    requires
        0 <= i <= entries.len(),
        forall|k: int| 0 <= k < i ==> (#[trigger] entries[k]).0@ != key,
    ensures
        i < entries.len() && entries[i].0@ == key ==> entry_index(entries, key) == Some(i),
        i == entries.len() ==> entry_index(entries, key) is None,
    decreases entries.len(),
{
    if entries.len() > 0 {
        let j = if i == entries.len() { i - 1 } else { i };
        assert forall|k: int| 0 <= k < j implies (#[trigger] entries.drop_last()[k]).0@
            != key by {
            assert(entries.drop_last()[k] == entries[k]);
        }
        if j < entries.len() - 1 {
            assert(entries.drop_last()[j] == entries[j]);
        }
        lemma_entry_index(entries.drop_last(), key, j);
    }
}

/// `Map::get`: the value of the first entry with key `key`.
pub fn object_get<'a>(entries: &'a Vec<(String, JsonValue)>, key: &str) -> (r: Option<
    &'a JsonValue,
>)
    ensures
        match entry_index(entries@, key@) {
            Some(i) => r == Some(&entries@[i].1),
            None => r is None,
        },
{
    let mut i: usize = 0;
    while i < entries.len()
        invariant
            i <= entries.len(),
            forall|k: int| 0 <= k < i ==> (#[trigger] entries@[k]).0@ != key@,
        decreases entries.len() - i,
    {
        if crate::text::str_eq(entries[i].0.as_str(), key) {
            proof {
                lemma_entry_index(entries@, key@, i as int);
            }
            return Some(&entries[i].1);
        }
        i += 1;
    }
    proof {
        lemma_entry_index(entries@, key@, i as int);
    }
    None
}

/// The meaning of a [`JsonValue`]: the same tree with strings as character sequences.
pub enum Json {
    Null,
    Bool(bool),
    Number(JsonNumber),
    Text(Seq<char>),
    Array(Seq<Json>),
    Object(Seq<(Seq<char>, Json)>),
}

pub open spec fn json_of(v: JsonValue) -> Json
    decreases v, 2nat,
{
    match v {
        JsonValue::Null => Json::Null,
        JsonValue::Bool(b) => Json::Bool(b),
        JsonValue::Number(n) => Json::Number(n),
        JsonValue::Text(t) => Json::Text(t@),
        JsonValue::Array(items) => Json::Array(json_list(items@)),
        JsonValue::Object(entries) => Json::Object(json_entries(entries@)),
    }
}

pub open spec fn json_list(items: Seq<JsonValue>) -> Seq<Json>
    decreases items, 1nat,
{
    if items.len() == 0 {
        seq![]
    } else {
        json_list(items.drop_last()).push(json_of(items.last()))
    }
}

pub open spec fn json_entries(entries: Seq<(String, JsonValue)>) -> Seq<(Seq<char>, Json)>
    decreases entries, 0nat,
{
    if entries.len() == 0 {
        seq![]
    } else {
        json_entries(entries.drop_last()).push((entries.last().0@, json_of(entries.last().1)))
    }
}

impl View for JsonValue {
    type V = Json;

    open spec fn view(&self) -> Json {
        json_of(*self)
    }
}

} // verus!
