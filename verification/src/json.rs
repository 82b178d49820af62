//! JSON values: what the requests and the responses hold.
//!
//! `serde_json` builds, reads and writes them. What it does is stated here over
//! the contents of a value, and the rest of the library is proved from that.
use vstd::prelude::*;
use vstd::string::*;

verus! {

/// What a JSON value holds.
pub enum Json {
    Null,
    Bool(bool),
    /// A number: the bits of the nearest 64-bit float, and the text by which it
    /// is written.
    Number { bits: u64, written: Seq<char> },
    Text(Seq<char>),
    Array(Seq<Json>),
    Object(Map<Seq<char>, Json>),
}

/// A value of `serde_json`. What it holds is known by [`contents`].
#[verifier::external_type_specification]
#[verifier::external_body]
pub struct ExValue(serde_json::Value);

/// An object of `serde_json`. What it holds is known by [`entries`].
#[verifier::external_type_specification]
#[verifier::external_body]
#[verifier::reject_recursive_types(K)]
#[verifier::reject_recursive_types(V)]
pub struct ExMap<K, V>(serde_json::Map<K, V>);

/// An error of `serde_json`. Nothing is known of it.
#[verifier::external_type_specification]
#[verifier::external_body]
pub struct ExError(serde_json::Error);

/// What the value holds.
pub uninterp spec fn contents(value: serde_json::Value) -> Json;

/// What the object holds, by its keys.
pub uninterp spec fn entries(object: serde_json::Map<String, serde_json::Value>) -> Map<
    Seq<char>,
    Json,
>;

/// The member of an object, or null where there is none.
pub open spec fn member(json: Json, key: Seq<char>) -> Json {
    match json {
        Json::Object(m) => if m.contains_key(key) {
            m[key]
        } else {
            Json::Null
        },
        _ => Json::Null,
    }
}

/// `serde_json::Value` indexed by a string: the member of that name, or null if
/// the value is no object or has no such member. It never fails.
#[verifier::external_body]
pub(crate) fn field<'a>(value: &'a serde_json::Value, key: &str) -> (r: &'a serde_json::Value)
    ensures
        contents(*r) == member(contents(*value), key@),
{
    &value[key]
}

/// `serde_json::Value::as_str`: the text, if the value is text.
#[verifier::external_body]
pub(crate) fn as_str(value: &serde_json::Value) -> (r: Option<&str>)
    ensures
        match contents(*value) {
            Json::Text(s) => r is Some && r->0@ == s,
            _ => r is None,
        },
{
    value.as_str()
}

/// `serde_json::Value::as_f64`: the nearest float, by its bits, if the value is a
/// number.
#[verifier::external_body]
pub(crate) fn as_bits(value: &serde_json::Value) -> (r: Option<u64>)
    ensures
        match contents(*value) {
            Json::Number { bits, .. } => r == Some(bits),
            _ => r is None,
        },
{
    value.as_f64().map(|x| x.to_bits())
}

/// `serde_json::Value::as_object`: the members, if the value is an object. There
/// are only so many of them.
#[verifier::external_body]
pub(crate) fn as_object(value: &serde_json::Value) -> (r: Option<
    &serde_json::Map<String, serde_json::Value>,
>)
    ensures
        match contents(*value) {
            Json::Object(m) => r is Some && entries(*r->0) == m && entries(
                *r->0,
            ).dom().finite(),
            _ => r is None,
        },
{
    value.as_object()
}

/// `serde_json::Map::len`: the number of members.
#[verifier::external_body]
pub(crate) fn count(object: &serde_json::Map<String, serde_json::Value>) -> (r: usize)
    ensures
        r == entries(*object).len(),
{
    object.len()
}

/// `serde_json::Map::get`: the member of that name.
#[verifier::external_body]
pub(crate) fn get<'a>(
    object: &'a serde_json::Map<String, serde_json::Value>,
    key: &str,
) -> (r: Option<&'a serde_json::Value>)
    ensures
        if entries(*object).contains_key(key@) {
            r is Some && contents(*r->0) == entries(*object)[key@]
        } else {
            r is None
        },
{
    object.get(key)
}

/// `serde_json::Value::from` a string: text.
#[verifier::external_body]
pub(crate) fn text_value(s: &str) -> (r: serde_json::Value)
    ensures
        contents(r) == Json::Text(s@),
{
    serde_json::Value::from(s)
}

/// What each value holds.
pub open spec fn all_contents(values: Seq<serde_json::Value>) -> Seq<Json> {
    values.map_values(|v: serde_json::Value| contents(v))
}

/// `serde_json::Value::from` a vector of values: an array.
#[verifier::external_body]
pub(crate) fn array_value(items: Vec<serde_json::Value>) -> (r: serde_json::Value)
    ensures
        contents(r) == Json::Array(all_contents(items@)),
{
    serde_json::Value::from(items)
}

/// `serde_json::Map::new`: no members.
#[verifier::external_body]
pub(crate) fn empty_object() -> (r: serde_json::Map<String, serde_json::Value>)
    ensures
        (entries(r) == Map::<Seq<char>, Json>::empty()),
{
    serde_json::Map::new()
}

/// `serde_json::Map::insert`: the member of that name is now `value`.
#[verifier::external_body]
pub(crate) fn insert(
    object: &mut serde_json::Map<String, serde_json::Value>,
    key: String,
    value: serde_json::Value,
)
    ensures
        entries(*final(object)) == entries(*old(object)).insert(key@, contents(value)),
{
    object.insert(key, value);
}

/// `serde_json::Value::from` a map: an object.
#[verifier::external_body]
pub(crate) fn object_value(object: serde_json::Map<String, serde_json::Value>) -> (r:
    serde_json::Value)
    ensures
        contents(r) == Json::Object(entries(object)),
{
    serde_json::Value::from(object)
}

/// The lower-case hexadecimal digit of value `d`.
pub open spec fn hex_digit(d: u32) -> char {
    if d < 10 {
        (('0' as u32) + d) as char
    } else {
        (('a' as u32) + (d - 10)) as char
    }
}

/// A character as it stands inside a JSON string.
pub open spec fn escaped(c: char) -> Seq<char> {
    if c == '"' || c == '\\' {
        seq!['\\', c]
    } else if c == '\u{8}' {
        seq!['\\', 'b']
    } else if c == '\t' {
        seq!['\\', 't']
    } else if c == '\n' {
        seq!['\\', 'n']
    } else if c == '\u{c}' {
        seq!['\\', 'f']
    } else if c == '\r' {
        seq!['\\', 'r']
    } else if (c as u32) < 0x20 {
        seq!['\\', 'u', '0', '0', hex_digit(c as u32 / 16), hex_digit(c as u32 % 16)]
    } else {
        seq![c]
    }
}

/// Characters as they stand inside a JSON string.
pub open spec fn all_escaped(s: Seq<char>) -> Seq<char>
    decreases s.len(),
{
    if s.len() == 0 {
        Seq::empty()
    } else {
        all_escaped(s.drop_last()) + escaped(s.last())
    }
}

/// Text written as a JSON string.
pub open spec fn quoted(s: Seq<char>) -> Seq<char> {
    seq!['"'] + all_escaped(s) + seq!['"']
}

/// `serde_json::to_string` of a string: the text between quotation marks, with
/// quotation marks, backslashes and control characters escaped. It never fails.
#[verifier::external_body]
pub(crate) fn to_string(s: &str) -> (r: Result<String, serde_json::Error>)
    ensures
        r is Ok && r->Ok_0@ == quoted(s@),
{
    serde_json::to_string(s)
}

/// The number of bytes in which a value that holds this is written.
pub uninterp spec fn written_size(json: Json) -> nat;

/// `serde_json::to_vec` of a value: the value written out. Nothing but its
/// contents decides how many bytes that takes. It never fails.
#[verifier::external_body]
pub(crate) fn to_vec(value: &serde_json::Value) -> (r: Result<Vec<u8>, serde_json::Error>)
    ensures
        r is Ok && r->Ok_0@.len() == written_size(contents(*value)),
{
    serde_json::to_vec(value)
}

} // verus!
