//! Calls to code outside of this library, with the contracts that the library
//! relies on.

use vstd::prelude::*;
use crate::json;
use crate::json::Tree;

verus! {

/// Appends one character to a string.
///
/// Specifies `String::push`, whose documentation says that it appends the
/// given character to the end of the string.
pub assume_specification[ String::push ](s: &mut String, c: char)
    ensures
        final(s)@ == old(s)@.push(c),
;

/// The upper case form of a text, by Unicode's rules: what `str::to_uppercase`
/// returns.
pub uninterp spec fn uppercase(s: Seq<char>) -> Seq<char>;

/// The text holds ASCII characters only.
pub open spec fn ascii(s: Seq<char>) -> bool {
    forall|i: int| 0 <= i < s.len() ==> (#[trigger] s[i] as u32) < 128
}

/// The upper case form of an ASCII text: each letter from `a` to `z` becomes
/// the one from `A` to `Z`.
pub open spec fn ascii_uppercase(s: Seq<char>) -> Seq<char> {
    s.map_values(
        |c: char|
            if 'a' <= c <= 'z' {
                (c as u32 - 32) as char
            } else {
                c
            },
    )
}

/// Calls `str::to_uppercase`. Its result is a function of the text; on a text
/// of ASCII characters it replaces each lower case letter and keeps the rest.
#[verifier::external_body]
pub(crate) fn to_uppercase(s: &str) -> (r: String)
    ensures
        r@ == uppercase(s@),
        ascii(s@) ==> r@ == ascii_uppercase(s@),
{
    s.to_uppercase()
}

/// The character is a letter or a number by Unicode's rules: what
/// `char::is_alphanumeric` says.
pub uninterp spec fn alphanumeric(c: char) -> bool;

/// The ASCII character is a letter or a digit.
pub open spec fn ascii_alphanumeric(c: char) -> bool {
    'a' <= c <= 'z' || 'A' <= c <= 'Z' || '0' <= c <= '9'
}

/// Calls `char::is_alphanumeric`. Its result is a function of the character; of
/// the ASCII characters the letters and digits are alphanumeric.
#[verifier::external_body]
pub(crate) fn is_alphanumeric(c: char) -> (r: bool)
    ensures
        r == alphanumeric(c),
        (c as u32) < 128 ==> r == ascii_alphanumeric(c),
{
    c.is_alphanumeric()
}

/// A JSON value of `serde_json`.
#[verifier::external_type_specification]
#[verifier::external_body]
pub struct ExJsonValue(serde_json::Value);

/// The error of `serde_json`.
#[verifier::external_type_specification]
#[verifier::external_body]
pub struct ExJsonError(serde_json::Error);

/// What a `serde_json::Value` holds.
pub uninterp spec fn json_held(v: serde_json::Value) -> Tree;

/// The value that a JSON text describes: what `serde_json::from_str` reads
/// from it, or nothing where that function fails.
pub uninterp spec fn json_document(s: Seq<char>) -> Option<Tree>;

/// Calls `serde_json::from_str`. Success and the value that it yields are
/// functions of the text.
#[verifier::external_body]
pub(crate) fn read_json(s: &str) -> (r: Result<serde_json::Value, serde_json::Error>)
    ensures
        match r {
            Ok(v) => json_document(s@) == Some(json_held(v)),
            Err(_) => json_document(s@) is None,
        },
{
    serde_json::from_str(s)
}

/// The top of a `serde_json::Value`, with the values below it as they are.
pub enum JsonNode {
    Null,
    Bool(bool),
    Number(String),
    Text(String),
    Array(Vec<serde_json::Value>),
    Object(Vec<(String, serde_json::Value)>),
}

/// What a `serde_json::Value` with the given top holds.
pub open spec fn node_held(n: JsonNode) -> Tree {
    match n {
        JsonNode::Null => Tree::Null,
        JsonNode::Bool(b) => Tree::Bool(b),
        JsonNode::Number(t) => Tree::Number(t@),
        JsonNode::Text(t) => Tree::Text(t@),
        JsonNode::Array(items) => Tree::Array(
            items@.map_values(|x: serde_json::Value| json_held(x)),
        ),
        JsonNode::Object(members) => Tree::Object(
            members@.map_values(|m: (String, serde_json::Value)| (m.0@, json_held(m.1))),
        ),
    }
}

/// Takes the top of a `serde_json::Value` apart, one variant for one. An
/// array's items and an object's members keep the order that the crate walks
/// them in; a number becomes the text that the crate writes for it.
#[verifier::external_body]
pub(crate) fn json_node(v: serde_json::Value) -> (r: JsonNode)
    ensures
        json_held(v) == node_held(r),
{
    match v {
        serde_json::Value::Null => JsonNode::Null,
        serde_json::Value::Bool(b) => JsonNode::Bool(b),
        serde_json::Value::Number(n) => JsonNode::Number(n.to_string()),
        serde_json::Value::String(t) => JsonNode::Text(t),
        serde_json::Value::Array(items) => JsonNode::Array(items),
        serde_json::Value::Object(members) => JsonNode::Object(members.into_iter().collect()),
    }
}

/// The text of a JSON object whose members are the given texts: what
/// `serde_json` writes for it.
pub uninterp spec fn json_object_text(members: Seq<(Seq<char>, Seq<char>)>) -> Seq<char>;

/// No two of the given texts have the same name.
pub open spec fn distinct_names(members: Seq<(Seq<char>, Seq<char>)>) -> bool {
    forall|i: int, j: int|
        0 <= i < j < members.len() ==> (#[trigger] members[i]).0 != (#[trigger] members[j]).0
}

/// The JSON value is an object whose members are the given texts and no others.
pub open spec fn holds_texts(t: Option<Tree>, members: Seq<(Seq<char>, Seq<char>)>) -> bool {
    &&& t matches Some(Tree::Object(_))
    &&& forall|i: int|
        0 <= i < members.len() ==> json::member(t->Some_0, (#[trigger] members[i]).0) == Some(
            Tree::Text(members[i].1),
        )
    &&& forall|key: Seq<char>| #[trigger]
        json::member(t->Some_0, key) is Some ==> exists|i: int|
            0 <= i < members.len() && (#[trigger] members[i]).0 == key
}

/// The names and values of the given pairs.
pub open spec fn fields(v: Seq<(String, String)>) -> Seq<(Seq<char>, Seq<char>)> {
    v.map_values(|p: (String, String)| (p.0@, p.1@))
}

/// Calls `to_string` on a `serde_json::Value` that is an object with the given
/// texts as its members. The result is a function of the names and the texts;
/// `serde_json::from_str` reads it back as an object with the same members.
#[verifier::external_body]
pub(crate) fn write_json_object(members: &Vec<(String, String)>) -> (r: String)
    requires
        distinct_names(fields(members@)),
    ensures
        r@ == json_object_text(fields(members@)),
        holds_texts(json_document(r@), fields(members@)),
{
    let held: serde_json::Map<String, serde_json::Value> = members.iter().map(
        |m| (m.0.clone(), serde_json::Value::String(m.1.clone())),
    ).collect();
    serde_json::Value::Object(held).to_string()
}

/// A reading of the system clock.
#[verifier::external_type_specification]
#[verifier::external_body]
pub struct ExSystemTime(std::time::SystemTime);

/// Reads the system clock.
///
/// Specifies `SystemTime::now`, of whose result nothing is claimed.
pub assume_specification[ std::time::SystemTime::now ]() -> std::time::SystemTime
;

/// The seconds and nanoseconds from the Unix epoch to a reading of the system
/// clock, or nothing for a reading before the epoch: what
/// `SystemTime::duration_since` says of the reading and `UNIX_EPOCH`.
pub uninterp spec fn unix_time(t: std::time::SystemTime) -> Option<(u64, u32)>;

/// Calls `SystemTime::duration_since` with `UNIX_EPOCH` and takes the duration
/// apart. The nanoseconds are less than a second.
#[verifier::external_body]
pub(crate) fn since_epoch(t: std::time::SystemTime) -> (r: Option<(u64, u32)>)
    ensures
        r == unix_time(t),
        r matches Some(reading) ==> reading.1 < 1_000_000_000,
{
    t.duration_since(std::time::UNIX_EPOCH).ok().map(|d| (d.as_secs(), d.subsec_nanos()))
}

/// The last second since the Unix epoch that `chrono` has a date for: the end
/// of the year 262142.
pub const LAST_DATED_SECOND: i64 = 8_210_266_876_799;

/// The text of RFC 3339 for a time since the Unix epoch: what
/// `chrono::DateTime::to_rfc3339` writes for it.
pub uninterp spec fn rfc3339(secs: i64, nanos: u32) -> Seq<char>;

/// Calls `chrono::DateTime::to_rfc3339` on the time that
/// `chrono::DateTime::from_timestamp` makes, which exists for these arguments.
#[verifier::external_body]
pub(crate) fn write_rfc3339(secs: i64, nanos: u32) -> (r: String)
    requires
        0 <= secs <= LAST_DATED_SECOND,
        nanos < 1_000_000_000,
    ensures
        r@ == rfc3339(secs, nanos),
{
    chrono::DateTime::from_timestamp(secs, nanos).unwrap_or_default().to_rfc3339()
}

/// The headers of an HTTP message.
#[verifier::external_type_specification]
#[verifier::external_body]
#[verifier::reject_recursive_types(T)]
pub struct ExHeaderMap<T>(reqwest::header::HeaderMap<T>);

/// The value of an HTTP header.
#[verifier::external_type_specification]
#[verifier::external_body]
pub struct ExHeaderValue(reqwest::header::HeaderValue);

/// The values of each header, by the header's name in lower case, in the order
/// in which they were added.
pub uninterp spec fn header_values(
    headers: reqwest::header::HeaderMap<reqwest::header::HeaderValue>,
) -> Map<Seq<char>, Seq<Seq<u8>>>;

/// Calls `HeaderMap::get`, which finds the first value of a header, and takes
/// the value's bytes. The names of headers are held in lower case.
#[verifier::external_body]
pub(crate) fn first_header(
    headers: &reqwest::header::HeaderMap<reqwest::header::HeaderValue>,
    name: &str,
) -> (r: Option<Vec<u8>>)
    requires
        forall|i: int| 0 <= i < name@.len() ==> !('A' <= #[trigger] name@[i] <= 'Z'),
    ensures
        match r {
            Some(bytes) => {
                &&& header_values(*headers).contains_key(name@)
                &&& header_values(*headers)[name@].len() > 0
                &&& bytes@ == header_values(*headers)[name@][0]
            },
            None => !header_values(*headers).contains_key(name@),
        },
{
    headers.get(name).map(|v| v.as_bytes().to_vec())
}

} // verus!
