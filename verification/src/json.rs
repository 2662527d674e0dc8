use vstd::prelude::*;
use crate::text::{opt_text, str_eq, text};

verus! {

/// A JSON value, holding what this library reads of one: strings, booleans,
/// arrays, objects (their entries in order, keys distinct), and of a number
/// only its value when it is an integer that fits in `u64`.
pub enum JsonValue {
    Null,
    Bool(bool),
    /// `Some(n)` for a number that is the unsigned integer `n`; `None` for a
    /// negative or fractional number.
    Number(Option<u64>),
    Str(String),
    Array(Vec<JsonValue>),
    Object(Vec<(String, JsonValue)>),
}

/// The value of the first entry called `key`.
pub open spec fn entry_lookup(es: Seq<(String, JsonValue)>, key: Seq<char>) -> Option<JsonValue>
    decreases es.len(),
{
    if es.len() == 0 {
        None
    } else if es[0].0@ == key {
        Some(es[0].1)
    } else {
        entry_lookup(es.drop_first(), key)
    }
}

/// The member `key` of an object; nothing for any other value.
pub open spec fn json_get(v: JsonValue, key: Seq<char>) -> Option<JsonValue> {
    match v {
        JsonValue::Object(es) => entry_lookup(es@, key),
        _ => None,
    }
}

/// The member `key` of `v`, when `v` is there.
pub open spec fn json_get_opt(v: Option<JsonValue>, key: Seq<char>) -> Option<JsonValue> {
    match v {
        Some(x) => json_get(x, key),
        None => None,
    }
}

/// The text of `v` when it is a string.
pub open spec fn json_str(v: Option<JsonValue>) -> Option<Seq<char>> {
    match v {
        Some(JsonValue::Str(s)) => Some(s@),
        _ => None,
    }
}

/// The value of `v` when it is an unsigned integer.
pub open spec fn json_u64(v: Option<JsonValue>) -> Option<u64> {
    match v {
        Some(JsonValue::Number(n)) => n,
        _ => None,
    }
}

/// The member `key` of `v` (`serde_json::Value::get` with a string key).
pub fn get<'a>(v: &'a JsonValue, key: &str) -> (r: Option<&'a JsonValue>)
    ensures
        match r {
            Some(x) => json_get(*v, key@) == Some(*x),
            None => json_get(*v, key@) is None,
        },
{
    match v {
        JsonValue::Object(es) => {
            let n = es.len();
            let mut i: usize = 0;
            assert(es@.skip(0) == es@);
            while i < n
                invariant
                    n == es@.len(),
                    i <= n,
                    *v == JsonValue::Object(*es),
                    entry_lookup(es@, key@) == entry_lookup(es@.skip(i as int), key@),
                decreases n - i,
            {
                assert(es@.skip(i as int).drop_first() == es@.skip(i + 1));
                if str_eq(es[i].0.as_str(), key) {
                    assert(es@.skip(i as int)[0] == es@[i as int]);
                    assert(es@[i as int].0@ == key@);
                    assert(entry_lookup(es@.skip(i as int), key@) == Some(es@[i as int].1));
                    return Some(&es[i].1);
                }
                assert(es@.skip(i as int)[0] == es@[i as int]);
                i = i + 1;
            }
            assert(es@.skip(n as int).len() == 0);
            None
        },
        _ => None,
    }
}

/// The member `key` of `v`, when `v` is there.
pub fn get_opt<'a>(v: Option<&'a JsonValue>, key: &str) -> (r: Option<&'a JsonValue>)
    ensures
        match r {
            Some(x) => json_get_opt(opt_deref(v), key@) == Some(*x),
            None => json_get_opt(opt_deref(v), key@) is None,
        },
{
    match v {
        Some(x) => get(x, key),
        None => None,
    }
}

/// The value behind an optional reference.
pub open spec fn opt_deref(v: Option<&JsonValue>) -> Option<JsonValue> {
    match v {
        Some(x) => Some(*x),
        None => None,
    }
}

/// An owned copy of the text of `v` when it is a string.
pub fn str_of(v: Option<&JsonValue>) -> (r: Option<String>)
    ensures
        opt_text(r) == json_str(opt_deref(v)),
{
    match v {
        Some(JsonValue::Str(s)) => Some(text(s.as_str())),
        _ => None,
    }
}

/// The value of `v` when it is an unsigned integer (`as_u64`).
pub fn u64_of(v: Option<&JsonValue>) -> (r: Option<u64>)
    ensures
        r == json_u64(opt_deref(v)),
{
    match v {
        Some(JsonValue::Number(n)) => *n,
        _ => None,
    }
}

} // verus!
