//! The JSON side of the store: serde_json does the encoding and decoding,
//! this module frames batches and reads durable records.
use vstd::prelude::*;
use vstd::string::StringExecFns;

use crate::event::StoredEvent;

verus! {

#[verifier::external_type_specification]
#[verifier::external_body]
pub struct ExValue(serde_json::Value);

#[verifier::external_type_specification]
#[verifier::external_body]
pub struct ExJsonError(serde_json::Error);

/// Whether serde_json parses the text `s` as a JSON value.
pub uninterp spec fn json_parses(s: Seq<char>) -> bool;

/// The lower-case hexadecimal digit of `d`, for `d < 16`.
pub open spec fn hex_digit(d: nat) -> char {
    seq!['0', '1', '2', '3', '4', '5', '6', '7', '8', '9', 'a', 'b', 'c', 'd', 'e', 'f'][d as int]
}

/// How a character stands inside a JSON string literal: quote and backslash
/// behind a backslash, the control characters with a short escape where one
/// exists and as `\u00xx` otherwise, every other character as itself.
pub open spec fn escape_char(c: char) -> Seq<char> {
    if c == '"' {
        seq!['\\', '"']
    } else if c == '\\' {
        seq!['\\', '\\']
    } else if c == '\x08' {
        seq!['\\', 'b']
    } else if c == '\t' {
        seq!['\\', 't']
    } else if c == '\n' {
        seq!['\\', 'n']
    } else if c == '\x0C' {
        seq!['\\', 'f']
    } else if c == '\r' {
        seq!['\\', 'r']
    } else if (c as u32) < 0x20 {
        seq!['\\', 'u', '0', '0', hex_digit((c as u32 / 16) as nat), hex_digit((c as u32 % 16) as nat)]
    } else {
        seq![c]
    }
}

/// The characters of `s`, each escaped.
pub open spec fn escaped(s: Seq<char>) -> Seq<char>
    decreases s.len(),
{
    if s.len() == 0 {
        seq![]
    } else {
        escaped(s.drop_last()) + escape_char(s.last())
    }
}

/// The JSON string literal of the text `s`.
pub open spec fn json_string(s: Seq<char>) -> Seq<char> {
    seq!['"'] + escaped(s) + seq!['"']
}

/// The number of texts of `records` that parse as JSON.
pub open spec fn decodable_count(records: Seq<String>) -> nat
    decreases records.len(),
{
    if records.len() == 0 {
        0
    } else {
        decodable_count(records.drop_last()) + if json_parses(records.last()@) {
            1nat
        } else {
            0nat
        }
    }
}

/// The field under which the durable layer keeps a record's key.
pub const KEY_FIELD: &'static str = "_idb_key";

/// Relies on serde_json::to_string: the compact JSON text of a value. A
/// `Value` has string keys only and serialises into a `Vec`, so this does
/// not fail.
#[verifier::external_body]
pub(crate) fn encode_value(v: &serde_json::Value) -> (r: Result<String, serde_json::Error>)
    ensures
        r is Ok,
{
    serde_json::to_string(v)
}

/// Relies on serde_json::from_str: parses a JSON text into a value.
#[verifier::external_body]
pub(crate) fn parse_value(s: &str) -> (r: Result<serde_json::Value, serde_json::Error>)
    ensures
        r is Ok <==> json_parses(s@),
{
    serde_json::from_str(s)
}

/// Relies on serde_json::Value::get: the field `name` of an object.
#[verifier::external_body]
fn field_of<'a>(v: &'a serde_json::Value, name: &str) -> (r: Option<&'a serde_json::Value>) {
    v.get(name)
}

/// Relies on serde_json::Value::as_u64: the value as an unsigned integer.
pub assume_specification[ serde_json::Value::as_u64 ](v: &serde_json::Value) -> Option<u64>;

#[verifier::external_type_specification]
#[verifier::external_body]
#[verifier::reject_recursive_types(K)]
#[verifier::reject_recursive_types(V)]
pub struct ExMap<K, V>(serde_json::Map<K, V>);

/// Relies on serde_json::Value::as_object_mut: the fields of an object.
pub assume_specification[ serde_json::Value::as_object_mut ](v: &mut serde_json::Value) -> Option<
    &mut serde_json::Map<String, serde_json::Value>,
>;

/// Relies on serde_json::Map::remove: takes a field out of an object.
pub assume_specification<Q>[ serde_json::Map::<String, serde_json::Value>::remove::<Q> ](
    m: &mut serde_json::Map<String, serde_json::Value>,
    key: &Q,
) -> Option<serde_json::Value>
    where
        String: std::borrow::Borrow<Q>,
        Q: ?Sized + Ord + Eq + std::hash::Hash,
;

/// Relies on serde_json::to_string on a string slice: its JSON string
/// literal, escaped by serde_json's table; writing into a `Vec` does not
/// fail.
#[verifier::external_body]
pub(crate) fn quote_json(s: &str) -> (r: Result<String, serde_json::Error>)
    ensures
        r is Ok,
        r->Ok_0@ == json_string(s@),
{
    serde_json::to_string(s)
}

/// The texts of `items` joined with commas.
pub open spec fn joined(items: Seq<Seq<char>>) -> Seq<char>
    decreases items.len(),
{
    if items.len() == 0 {
        seq![]
    } else if items.len() == 1 {
        items[0]
    } else {
        joined(items.drop_last()) + ","@ + items.last()
    }
}

/// The JSON object of a batch: the records under `batch`, then the time it
/// was sent and the writer key, each already a JSON string literal.
pub open spec fn batch_text(items: Seq<Seq<char>>, sent_at: Seq<char>, write_key: Seq<char>) -> Seq<
    char,
> {
    "{\"batch\":["@ + joined(items) + "],\"sentAt\":"@ + sent_at + ",\"writeKey\":"@ + write_key
        + "}"@
}

/// The views of a sequence of strings.
pub open spec fn texts_of(items: Seq<String>) -> Seq<Seq<char>> {
    items.map_values(|s: String| s@)
}

/// Frames a batch: `items` are the records' JSON texts, `sent_at` and
/// `write_key` JSON string literals.
pub fn frame_batch(items: &Vec<String>, sent_at: &str, write_key: &str) -> (r: String)
    ensures
        r@ == batch_text(texts_of(items@), sent_at@, write_key@),
{
    let mut out = String::from_str("{\"batch\":[");
    let mut list = String::new();
    let mut i: usize = 0;
    while i < items.len()
        invariant
            i <= items@.len(),
            list@ == joined(texts_of(items@.take(i as int))),
        decreases items@.len() - i,
    {
        let ghost before = list@;
        if i > 0 {
            list.append(",");
        }
        list.append(items[i].as_str());
        proof {
            let t = texts_of(items@.take(i + 1));
            assert(t.drop_last() =~= texts_of(items@.take(i as int)));
            assert(t.last() == items@[i as int]@);
            if i == 0 {
                assert(list@ =~= t[0]);
            }
        }
        i = i + 1;
    }
    proof {
        assert(items@.take(items@.len() as int) =~= items@);
    }
    out.append(list.as_str());
    out.append("],\"sentAt\":");
    out.append(sent_at);
    out.append(",\"writeKey\":");
    out.append(write_key);
    out.append("}");
    out
}

/// Reads a record as the durable layer returns it: the JSON text with the
/// key under `KEY_FIELD`. The key is taken out of the value; a key that is
/// missing, not an unsigned integer or beyond `u32` leaves the record
/// without one. A text that does not parse gives `None`.
pub fn decode_record(raw: &str) -> (r: Option<StoredEvent>)
    ensures
        r is Some <==> json_parses(raw@),
{
    let mut v = match parse_value(raw) {
        Ok(v) => v,
        Err(_) => return None,
    };
    let key: Option<u64> = match field_of(&v, KEY_FIELD) {
        Some(k) => k.as_u64(),
        None => None,
    };
    let idb_key: Option<u32> = match key {
        Some(k) => if k <= u32::MAX as u64 {
            Some(k as u32)
        } else {
            None
        },
        None => None,
    };
    match v.as_object_mut() {
        Some(obj) => {
            obj.remove(KEY_FIELD);
        },
        None => {},
    }
    match encode_value(&v) {
        Ok(value) => Some(StoredEvent { idb_key, value }),
        Err(_) => unreached(),
    }
}

} // verus!
