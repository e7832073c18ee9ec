//! A JSON document model: what the stored entities and the remote answers
//! hold, as plain values.
use vstd::prelude::*;
use crate::text::text_eq;

verus! {

/// A JSON number, as the parser keeps it.
#[derive(Debug)]
pub enum JsonNumber {
    /// A non-negative integer that fits in 64 bits.
    Unsigned(u64),
    /// A negative integer that fits in 64 bits.
    Negative(i64),
    /// Any other number, kept as the text it is written with.
    Other(String),
}

/// A JSON value. Object members keep their order; a lookup finds the first
/// member with the key.
#[derive(Debug)]
pub enum JsonValue {
    Null,
    Bool(bool),
    Number(JsonNumber),
    Str(String),
    Array(Vec<JsonValue>),
    Object(Vec<(String, JsonValue)>),
}

/// The value of the first member named `key`, if any.
pub open spec fn member_value(members: Seq<(String, JsonValue)>, key: Seq<char>) -> Option<JsonValue>
    decreases members.len(),
{
    if members.len() == 0 {
        None
    } else if members[0].0@ == key {
        Some(members[0].1)
    } else {
        member_value(members.drop_first(), key)
    }
}

impl JsonValue {
    /// `value.get(key)`: the member `key` of an object.
    pub open spec fn field(self, key: Seq<char>) -> Option<JsonValue> {
        match self {
            JsonValue::Object(members) => member_value(members@, key),
            _ => None,
        }
    }

    /// `value.get(i)`: the element `i` of an array.
    pub open spec fn element(self, i: int) -> Option<JsonValue> {
        match self {
            JsonValue::Array(items) => if 0 <= i < items@.len() {
                Some(items@[i])
            } else {
                None
            },
            _ => None,
        }
    }

    /// `value.as_u64()`.
    pub open spec fn u64_value(self) -> Option<u64> {
        match self {
            JsonValue::Number(JsonNumber::Unsigned(n)) => Some(n),
            _ => None,
        }
    }

    /// `value.as_str()`.
    pub open spec fn text(self) -> Option<Seq<char>> {
        match self {
            JsonValue::Str(s) => Some(s@),
            _ => None,
        }
    }

    /// `value.as_array()`.
    pub open spec fn items(self) -> Option<Seq<JsonValue>> {
        match self {
            JsonValue::Array(items) => Some(items@),
            _ => None,
        }
    }

    /// `value.as_object()`: the members of an object, in order.
    pub open spec fn members(self) -> Option<Seq<(String, JsonValue)>> {
        match self {
            JsonValue::Object(members) => Some(members@),
            _ => None,
        }
    }

    /// `serde_json::Value::as_object`.
    pub fn as_object(&self) -> (r: Option<&Vec<(String, JsonValue)>>)
        ensures
            r matches Some(v) ==> self.members() == Some(v@),
            r is None ==> self.members() is None,
    {
        match self {
            JsonValue::Object(members) => Some(members),
            _ => None,
        }
    }

    /// The member `key` of an object (`serde_json::Value::get` with a text).
    pub fn get(&self, key: &str) -> (r: Option<&JsonValue>)
        ensures
            r matches Some(v) ==> self.field(key@) == Some(*v),
            r is None ==> self.field(key@) is None,
    {
        match self {
            JsonValue::Object(members) => {
                let mut i: usize = 0;
                assert(members@.skip(0) =~= members@);
                while i < members.len()
                    invariant
                        i <= members@.len(),
                        self.field(key@) == member_value(members@, key@),
                        member_value(members@, key@) == member_value(members@.skip(i as int), key@),
                    decreases members@.len() - i,
                {
                    proof {
                        assert(members@.skip(i as int)[0] == members@[i as int]);
                        assert(members@.skip(i as int).drop_first() =~= members@.skip(i + 1));
                    }
                    if text_eq(members[i].0.as_str(), key) {
                        assert(member_value(members@.skip(i as int), key@) == Some(
                            members@[i as int].1,
                        ));
                        return Some(&members[i].1);
                    }
                    i = i + 1;
                }
                None
            },
            _ => None,
        }
    }

    /// The element `i` of an array (`serde_json::Value::get` with an index).
    pub fn at(&self, i: usize) -> (r: Option<&JsonValue>)
        ensures
            r matches Some(v) ==> self.element(i as int) == Some(*v),
            r is None ==> self.element(i as int) is None,
    {
        match self {
            JsonValue::Array(items) => {
                if i < items.len() {
                    Some(&items[i])
                } else {
                    None
                }
            },
            _ => None,
        }
    }

    /// `serde_json::Value::as_u64`.
    pub fn as_u64(&self) -> (r: Option<u64>)
        ensures
            r == self.u64_value(),
    {
        match self {
            JsonValue::Number(JsonNumber::Unsigned(n)) => Some(*n),
            _ => None,
        }
    }

    /// `serde_json::Value::as_str`.
    pub fn as_str(&self) -> (r: Option<&str>)
        ensures
            r matches Some(s) ==> self.text() == Some(s@),
            r is None ==> self.text() is None,
    {
        match self {
            JsonValue::Str(s) => Some(s.as_str()),
            _ => None,
        }
    }

    /// `serde_json::Value::as_array`.
    pub fn as_array(&self) -> (r: Option<&Vec<JsonValue>>)
        ensures
            r matches Some(v) ==> self.items() == Some(v@),
            r is None ==> self.items() is None,
    {
        match self {
            JsonValue::Array(items) => Some(items),
            _ => None,
        }
    }

    /// `serde_json::Value::is_array`.
    pub fn is_array(&self) -> (r: bool)
        ensures
            r == self.items() is Some,
    {
        match self {
            JsonValue::Array(_) => true,
            _ => false,
        }
    }
}

} // verus!
