//! The envelope that wraps a chunk's text-encoded payload on disk: a JSON
//! object whose field `value` holds the payload as a JSON string.
use vstd::prelude::*;
use vstd::utf8::encode_utf8;

verus! {

/// The lower-case hexadecimal digit of a number below sixteen.
pub open spec fn hex_digit(n: u8) -> u8 {
    if n < 10 {
        (48 + n) as u8
    } else {
        (87 + n) as u8
    }
}

/// How serde_json writes one byte of a string's UTF-8 inside a JSON string:
/// the quote, the backslash and the control bytes escaped, the rest as is.
pub open spec fn json_escape_byte(b: u8) -> Seq<u8> {
    if b == 34 {
        seq![92u8, 34u8]
    } else if b == 92 {
        seq![92u8, 92u8]
    } else if b == 8 {
        seq![92u8, 98u8]
    } else if b == 9 {
        seq![92u8, 116u8]
    } else if b == 10 {
        seq![92u8, 110u8]
    } else if b == 12 {
        seq![92u8, 102u8]
    } else if b == 13 {
        seq![92u8, 114u8]
    } else if b < 32 {
        seq![92u8, 117u8, 48u8, 48u8, hex_digit(b / 16), hex_digit(b % 16)]
    } else {
        seq![b]
    }
}

/// The escaped form of a byte sequence inside a JSON string.
pub open spec fn json_escape(bytes: Seq<u8>) -> Seq<u8>
    decreases bytes.len(),
{
    if bytes.len() == 0 {
        seq![]
    } else {
        json_escape_byte(bytes[0]) + json_escape(bytes.drop_first())
    }
}

/// The JSON string literal that serde_json writes for a string.
pub open spec fn json_string_bytes(s: Seq<char>) -> Seq<u8> {
    seq![34u8] + json_escape(encode_utf8(s)) + seq![34u8]
}

/// The compact JSON object of one field holding a string.
pub open spec fn json_object_of(field: Seq<char>, value: Seq<char>) -> Seq<u8> {
    seq![123u8] + json_string_bytes(field) + seq![58u8] + json_string_bytes(value) + seq![125u8]
}

/// The string that serde_json finds under `field` in the JSON object that the
/// bytes hold; nothing where they hold no object, or the object has no such
/// field, or the field holds no string.
pub uninterp spec fn json_object_string_field(bytes: Seq<u8>, field: Seq<char>) -> Option<
    Seq<char>,
>;

/// Relies on serde_json::to_vec on a serde_json::Map of one string entry: the
/// compact object `{"field":"value"}`, which cannot fail to serialise, and
/// which serde_json reads back with `value` under `field`.
#[verifier::external_body]
fn write_string_field_object(field: &str, value: &str) -> (r: Vec<u8>)
    ensures
        r@ == json_object_of(field@, value@),
        json_object_string_field(r@, field@) == Some(value@),
{
    let mut object = serde_json::Map::new();
    object.insert(field.to_string(), serde_json::Value::String(value.to_string()));
    serde_json::to_vec(&object).unwrap_or_default()
}

/// Relies on serde_json::from_slice into a serde_json::Map, then Map::get and
/// Value::as_str: the string under `field` of the object that the bytes hold.
#[verifier::external_body]
fn read_string_field(bytes: &[u8], field: &str) -> (r: Option<String>)
    ensures
        r is Some <==> json_object_string_field(bytes@, field@) is Some,
        r is Some ==> json_object_string_field(bytes@, field@) == Some(r->Some_0@),
{
    let object: serde_json::Map<String, serde_json::Value> = serde_json::from_slice(bytes).ok()?;
    object.get(field)?.as_str().map(|s| s.to_string())
}

/// The name of the envelope's field.
pub open spec fn envelope_field() -> Seq<char> {
    seq!['v', 'a', 'l', 'u', 'e']
}

/// The envelope of a payload.
pub open spec fn envelope_of(payload: Seq<char>) -> Seq<u8> {
    json_object_of(envelope_field(), payload)
}

/// The payload that an envelope holds, or nothing where the bytes are not an
/// envelope.
pub open spec fn envelope_payload(bytes: Seq<u8>) -> Option<Seq<char>> {
    json_object_string_field(bytes, envelope_field())
}

fn field_name() -> (r: &'static str)
    ensures
        r@ == envelope_field(),
{
    let f = "value";
    proof {
        reveal_strlit("value");
    }
    assert(f@ =~= envelope_field());
    f
}

/// Wraps a payload in its envelope.
pub fn encode_envelope(payload: &str) -> (r: Vec<u8>)
    ensures
        r@ == envelope_of(payload@),
        envelope_payload(r@) == Some(payload@),
{
    write_string_field_object(field_name(), payload)
}

/// Reads the payload out of an envelope; nothing where the bytes are not one.
pub fn decode_envelope(bytes: &[u8]) -> (r: Option<String>)
    ensures
        r is Some <==> envelope_payload(bytes@) is Some,
        r is Some ==> envelope_payload(bytes@) == Some(r->Some_0@),
{
    read_string_field(bytes, field_name())
}

} // verus!
