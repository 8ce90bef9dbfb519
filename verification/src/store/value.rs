//! What a key holds.
use crate::text::bytes_to_vec;
use vstd::prelude::*;

verus! {

/// One value stored under a key.
///
/// Redis is a typed store: a value is a string, list, hash, set or sorted
/// set. Only strings exist so far; a string holds arbitrary bytes.
#[derive(Debug, PartialEq)]
pub enum RedisValue {
    String(Vec<u8>),
}

impl View for RedisValue {
    /// The bytes of the string.
    type V = Seq<u8>;

    open spec fn view(&self) -> Seq<u8> {
        match self {
            RedisValue::String(bytes) => bytes@,
        }
    }
}

impl RedisValue {
    /// The name `TYPE` reports. Lowercase and exact: clients match on it.
    ///
    /// There is no `"none"` here: a missing key is not a value.
    pub fn type_label(&self) -> (r: &str)
        ensures
            r@ == "string"@,
    {
        match self {
            RedisValue::String(_) => "string",
        }
    }

    /// A copy of the value.
    pub fn duplicate(&self) -> (r: RedisValue)
        ensures
            r@ == self@,
    {
        match self {
            RedisValue::String(bytes) => RedisValue::String(bytes_to_vec(bytes.as_slice())),
        }
    }
}

} // verus!
