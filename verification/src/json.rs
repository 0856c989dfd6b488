//! A JSON document as plain values, with the lookups that block extraction
//! reads it by.

use crate::text::same_text;
use vstd::prelude::*;

verus! {

/// A JSON value. An object keeps its members as a list, in order; nothing
/// here keeps a key from occurring twice, and a lookup reads the first
/// member of the key. A number keeps what reading it as an `i64` gives.
pub enum JsonValue {
    Null,
    Bool(bool),
    /// A number, with its value where it is an integer that fits in an `i64`.
    Number(Option<i64>),
    String(String),
    Array(Vec<JsonValue>),
    Object(Vec<(String, JsonValue)>),
}

/// The value of the first member named `key`, searching members `0..n`.
pub open spec fn first_member(members: Seq<(String, JsonValue)>, key: Seq<char>, n: int) -> Option<
    JsonValue,
>
    decreases n,
{
    if n <= 0 {
        None
    } else {
        match first_member(members, key, n - 1) {
            Some(v) => Some(v),
            None => if members[n - 1].0@ == key {
                Some(members[n - 1].1)
            } else {
                None
            },
        }
    }
}

impl JsonValue {
    /// The member named `key` of an object; nothing for any other value.
    pub open spec fn member(self, key: Seq<char>) -> Option<JsonValue> {
        match self {
            JsonValue::Object(members) => first_member(members@, key, members@.len() as int),
            _ => None,
        }
    }

    /// The element at position `i` of an array; nothing for any other value
    /// or a position past the end.
    pub open spec fn element(self, i: int) -> Option<JsonValue> {
        match self {
            JsonValue::Array(items) => if 0 <= i < items@.len() {
                Some(items@[i])
            } else {
                None
            },
            _ => None,
        }
    }

    /// The text of a string.
    pub open spec fn text(self) -> Option<Seq<char>> {
        match self {
            JsonValue::String(s) => Some(s@),
            _ => None,
        }
    }

    /// The value of a number that is an `i64`.
    pub open spec fn int_value(self) -> Option<i64> {
        match self {
            JsonValue::Number(n) => n,
            _ => None,
        }
    }

    /// The value of a boolean.
    pub open spec fn bool_value(self) -> Option<bool> {
        match self {
            JsonValue::Bool(b) => Some(b),
            _ => None,
        }
    }

    /// The elements of an array.
    pub open spec fn items(self) -> Option<Seq<JsonValue>> {
        match self {
            JsonValue::Array(items) => Some(items@),
            _ => None,
        }
    }

    /// Looks up a member of an object by key.
    pub fn get(&self, key: &str) -> (res: Option<&JsonValue>)
        ensures
            match res {
                Some(v) => self.member(key@) == Some(*v),
                None => self.member(key@) is None,
            },
    {
        match self {
            JsonValue::Object(members) => {
                let mut k: usize = 0;
                while k < members.len()
                    invariant
                        k <= members@.len(),
                        *self == JsonValue::Object(*members),
                        first_member(members@, key@, k as int) is None,
                    decreases members@.len() - k,
                {
                    let entry = &members[k];
                    if same_text(entry.0.as_str(), key) {
                        proof {
                            assert(first_member(members@, key@, k + 1) == Some(entry.1));
                            lemma_first_member_stays(members@, key@, k + 1, members@.len() as int);
                            assert(*self == JsonValue::Object(*members));
                            assert(self.member(key@) == Some(entry.1));
                        }
                        return Some(&entry.1);
                    }
                    k += 1;
                }
                None
            },
            _ => None,
        }
    }

    /// The element of an array at a position.
    pub fn at(&self, i: usize) -> (res: Option<&JsonValue>)
        ensures
            match res {
                Some(v) => self.element(i as int) == Some(*v),
                None => self.element(i as int) is None,
            },
    {
        match self {
            JsonValue::Array(items) => {
                if i < items.len() {
                    Some(&items[i])
                } else {
                    None
                }
            },
            _ => None,
        }
    }

    pub fn as_str(&self) -> (res: Option<&String>)
        ensures
            match res {
                Some(s) => self.text() == Some(s@),
                None => self.text() is None,
            },
    {
        match self {
            JsonValue::String(s) => Some(s),
            _ => None,
        }
    }

    pub fn as_i64(&self) -> (res: Option<i64>)
        ensures
            res == self.int_value(),
    {
        match self {
            JsonValue::Number(n) => *n,
            _ => None,
        }
    }

    pub fn as_bool(&self) -> (res: Option<bool>)
        ensures
            res == self.bool_value(),
    {
        match self {
            JsonValue::Bool(b) => Some(*b),
            _ => None,
        }
    }

    pub fn as_array(&self) -> (res: Option<&Vec<JsonValue>>)
        ensures
            match res {
                Some(items) => self.items() == Some(items@),
                None => self.items() is None,
            },
    {
        match self {
            JsonValue::Array(items) => Some(items),
            _ => None,
        }
    }

    pub fn is_null(&self) -> (res: bool)
        ensures
            res == (self is Null),
    {
        match self {
            JsonValue::Null => true,
            _ => false,
        }
    }
}

/// Once a member is found among the first `k`, searching further finds the
/// same one.
pub proof fn lemma_first_member_stays(
    members: Seq<(String, JsonValue)>,
    key: Seq<char>,
    k: int,
    n: int,
)
    requires
        0 <= k <= n,
        first_member(members, key, k) is Some,
    ensures
        first_member(members, key, n) == first_member(members, key, k),
    decreases n - k,
{
    if n > k {
        lemma_first_member_stays(members, key, k, n - 1);
    }
}

} // verus!
