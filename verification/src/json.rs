//! JSON documents as the event mapping reads them: the library's model of
//! `serde_json::Value`. An object is the sequence of its members; numbers are
//! carried through unread.
use vstd::prelude::*;

use crate::text::str_equal;

verus! {

#[verifier::external_type_specification]
#[verifier::external_body]
pub struct ExNumber(serde_json::Number);

/// A JSON document.
#[derive(Debug, PartialEq, Eq)]
pub enum JsonValue {
    Null,
    Bool(bool),
    Number(serde_json::Number),
    String(String),
    Array(Vec<JsonValue>),
    Object(Vec<(String, JsonValue)>),
}

/// The position of the first member of `entries` named `key`.
pub open spec fn key_position(entries: Seq<(String, JsonValue)>, key: Seq<char>) -> Option<int>
    decreases entries.len(),
{
    if entries.len() == 0 {
        None
    } else {
        match key_position(entries.drop_last(), key) {
            Some(i) => Some(i),
            None => if entries.last().0@ == key {
                Some(entries.len() - 1)
            } else {
                None
            },
        }
    }
}

/// The value of the first member of `entries` named `key` (`Value::get`).
pub open spec fn member(entries: Seq<(String, JsonValue)>, key: Seq<char>) -> Option<JsonValue> {
    match key_position(entries, key) {
        Some(i) => Some(entries[i].1),
        None => None,
    }
}

/// Whether `v` is the empty object (`json!({})`).
pub open spec fn is_empty_object(v: JsonValue) -> bool {
    v matches JsonValue::Object(e) && e@.len() == 0
}

/// Whether `v` is a string of the characters `s`.
pub open spec fn is_string(v: JsonValue, s: Seq<char>) -> bool {
    v matches JsonValue::String(t) && t@ == s
}

pub proof fn lemma_key_position_bounds(entries: Seq<(String, JsonValue)>, key: Seq<char>)
    ensures
        key_position(entries, key) matches Some(i) ==> 0 <= i < entries.len() && entries[i].0@
            == key,
    decreases entries.len(),
{
    if entries.len() > 0 {
        lemma_key_position_bounds(entries.drop_last(), key);
    }
}

/// The position of the first member of `entries` named `key`.
pub fn find_key(entries: &Vec<(String, JsonValue)>, key: &str) -> (r: Option<usize>)
    ensures
        match r {
            Some(i) => key_position(entries@, key@) == Some(i as int),
            None => key_position(entries@, key@) is None,
        },
{
    let mut i: usize = 0;
    assert(entries@.take(0) =~= Seq::<(String, JsonValue)>::empty());
    while i < entries.len()
        invariant
            i <= entries.len(),
            key_position(entries@.take(i as int), key@) is None,
        decreases entries.len() - i,
    {
        assert(entries@.take(i + 1).drop_last() =~= entries@.take(i as int));
        if str_equal(entries[i].0.as_str(), key) {
            proof {
                lemma_key_position_prefix(entries@, key@, i as int + 1);
            }
            return Some(i);
        }
        i = i + 1;
    }
    assert(entries@.take(entries.len() as int) =~= entries@);
    None
}

/// A first member found in a prefix is the first member of the whole.
pub proof fn lemma_key_position_prefix(entries: Seq<(String, JsonValue)>, key: Seq<char>, n: int)
    requires
        0 <= n <= entries.len(),
        key_position(entries.take(n), key) is Some,
    ensures
        key_position(entries, key) == key_position(entries.take(n), key),
    decreases entries.len() - n,
{
    if n < entries.len() {
        assert(entries.take(n + 1).drop_last() =~= entries.take(n));
        lemma_key_position_prefix(entries, key, n + 1);
    } else {
        assert(entries.take(n) =~= entries);
    }
}

/// The member value at `i` of `entries`, removing it.
pub fn take_member(entries: &mut Vec<(String, JsonValue)>, i: usize) -> (r: JsonValue)
    requires
        i < old(entries)@.len(),
    ensures
        r == old(entries)@[i as int].1,
        final(entries)@ == old(entries)@.remove(i as int),
{
    let (_, v) = entries.remove(i);
    v
}

} // verus!
