//! Calls into outside crates: fresh ids (uuid), the clock (chrono), and
//! the JSON and YAML parsers (serde_json, serde_yaml). Each contract here
//! is trusted, not proved.

use vstd::prelude::*;
use crate::beads::str_views;
use crate::text::all_digits;

verus! {

/// `s` is a UUID in lower-case hyphenated form: 36 characters, hyphens at
/// positions 8, 13, 18 and 23, lower-case hexadecimal digits elsewhere.
pub open spec fn is_hyphenated_uuid(s: Seq<char>) -> bool {
    &&& s.len() == 36
    &&& forall|i: int|
        0 <= i < 36 ==> if i == 8 || i == 13 || i == 18 || i == 23 {
            #[trigger] s[i] == '-'
        } else {
            ('0' <= s[i] <= '9') || ('a' <= s[i] <= 'f')
        }
}

/// A new random id: `uuid::Uuid::new_v4()` written by its `Display` impl,
/// which is the lower-case hyphenated form. Only that form is stated: the
/// value is random.
#[verifier::external_body]
pub(crate) fn new_uuid() -> (r: String)
    ensures
        is_hyphenated_uuid(r@),
{
    uuid::Uuid::new_v4().to_string()
}

/// `s` is two decimal digits.
pub open spec fn two_digits(s: Seq<char>) -> bool {
    s.len() == 2 && all_digits(s)
}

/// `f` is the fraction of seconds that `to_rfc3339` writes: nothing, or a
/// `.` and 3, 6 or 9 digits.
pub open spec fn rfc3339_fraction(f: Seq<char>) -> bool {
    f.len() == 0 || (f[0] == '.' && (f.len() == 4 || f.len() == 7 || f.len() == 10) && all_digits(f.skip(1)))
}

/// `s` is a UTC time as chrono's `to_rfc3339` writes it: a year (four
/// digits, or `+` and five or more digits past 9999), then `-MM-DDTHH:MM:SS`,
/// an optional fraction of seconds, and the offset `+00:00`.
pub open spec fn is_rfc3339_utc(s: Seq<char>) -> bool {
    exists|k: int|
        {
            &&& (k == 4 && all_digits(s.take(4))) || (k >= 6 && s.len() > k && s[0] == '+' && all_digits(
                s.subrange(1, k),
            ))
            &&& #[trigger] s.skip(k).len() >= 21
            &&& {
                let r = s.skip(k);
                &&& r[0] == '-' && two_digits(r.subrange(1, 3)) && r[3] == '-' && two_digits(r.subrange(4, 6))
                &&& r[6] == 'T' && two_digits(r.subrange(7, 9)) && r[9] == ':' && two_digits(r.subrange(10, 12))
                &&& r[12] == ':' && two_digits(r.subrange(13, 15))
                &&& rfc3339_fraction(r.subrange(15, r.len() - 6))
                &&& r.skip(r.len() - 6) == "+00:00"@
            }
        }
}

/// The current time: `chrono::Utc::now()` written by `to_rfc3339`. Only its
/// form is stated (an RFC 3339 UTC time with offset `+00:00`): the value is
/// the clock's.
#[verifier::external_body]
pub(crate) fn now_rfc3339() -> (r: String)
    ensures
        is_rfc3339_utc(r@),
{
    chrono::Utc::now().to_rfc3339()
}

/// The current time: `chrono::Utc::now()` as milliseconds since the Unix
/// epoch (`timestamp_millis`). Only that it is not negative is stated
/// (`Utc::now` never reads before the epoch): the value is the clock's.
#[verifier::external_body]
pub(crate) fn now_millis() -> (r: i64)
    ensures
        r >= 0,
{
    chrono::Utc::now().timestamp_millis()
}

/// What `serde_json::from_str::<serde_json::Value>` makes of `text`:
/// `None` when it is not JSON, `Some(None)` when it is JSON but not an
/// object, `Some(Some(keys))` when it is an object with these keys.
pub uninterp spec fn json_object_keys(text: Seq<char>) -> Option<Option<Seq<Seq<char>>>>;

/// The string that `serde_yaml::from_str::<serde_yaml::Value>` followed by
/// `Value::get(key)` and `Value::as_str` gives for `text`: `None` when `text`
/// is not YAML, has no mapping entry `key`, or that entry is not a string.
pub uninterp spec fn yaml_string_field(text: Seq<char>, key: Seq<char>) -> Option<Seq<char>>;

/// Parses `text` with `serde_json::from_str` into a `serde_json::Value`
/// and, when it is an object, returns its keys (`Map::keys`). The contract
/// only names the result (`json_object_keys`); what JSON is accepted is
/// serde_json's.
#[verifier::external_body]
pub(crate) fn parse_json_object_keys(text: &str) -> (r: Option<Option<Vec<String>>>)
    ensures
        match r {
            Some(Some(k)) => json_object_keys(text@) == Some(Some(str_views(k@))),
            Some(None) => json_object_keys(text@) == Some(None::<Seq<Seq<char>>>),
            None => json_object_keys(text@) is None,
        },
{
    match serde_json::from_str::<serde_json::Value>(text) {
        Ok(serde_json::Value::Object(map)) => Some(Some(map.keys().cloned().collect())),
        Ok(_) => Some(None),
        Err(_) => None,
    }
}

/// Parses `text` with `serde_yaml::from_str` into a `serde_yaml::Value`,
/// looks up `key` with `Value::get` and reads it with `Value::as_str`. The
/// contract only names the result (`yaml_string_field`).
#[verifier::external_body]
pub(crate) fn parse_yaml_string_field(text: &str, key: &str) -> (r: Option<String>)
    ensures
        match r {
            Some(v) => yaml_string_field(text@, key@) == Some(v@),
            None => yaml_string_field(text@, key@) is None,
        },
{
    match serde_yaml::from_str::<serde_yaml::Value>(text) {
        Ok(value) => value.get(key).and_then(|v| v.as_str()).map(|v| v.to_string()),
        Err(_) => None,
    }
}

/// What `serde_json::from_str::<serde_json::Value>` followed by
/// `serde_json::to_string` makes of `text`: `None` when it is not JSON
/// (or cannot be written back).
pub uninterp spec fn json_reserialized(text: Seq<char>) -> Option<Seq<char>>;

/// What parsing `text` as a JSON object, setting its field `key` to the
/// string `value` (`Map::insert` of a `Value::String`) and writing it back
/// with `serde_json::to_string` gives: `None` when `text` is not a JSON
/// object (or cannot be written back).
pub uninterp spec fn json_with_string_field(text: Seq<char>, key: Seq<char>, value: Seq<char>) -> Option<Seq<char>>;

/// The string in field `key` of the JSON object in `text`: `None` when
/// `text` is not a JSON object, has no such field, or the field is not a
/// string (`Map::get` then `Value::as_str`).
pub uninterp spec fn json_string_field(text: Seq<char>, key: Seq<char>) -> Option<Seq<char>>;

/// Parses `text` with `serde_json::from_str` and writes the value back
/// with `serde_json::to_string`. The contract only names the result.
#[verifier::external_body]
pub(crate) fn json_reserialize(text: &str) -> (r: Option<String>)
    ensures
        match r {
            Some(t) => json_reserialized(text@) == Some(t@),
            None => json_reserialized(text@) is None,
        },
{
    match serde_json::from_str::<serde_json::Value>(text) {
        Ok(value) => serde_json::to_string(&value).ok(),
        Err(_) => None,
    }
}

/// Parses `text` with `serde_json::from_str`; when it is an object, sets
/// field `key` to the string `value` with `Map::insert` and writes the
/// object back with `serde_json::to_string`. The contract only names the
/// result.
#[verifier::external_body]
pub(crate) fn json_set_string_field(text: &str, key: &str, value: &str) -> (r: Option<String>)
    ensures
        match r {
            Some(t) => json_with_string_field(text@, key@, value@) == Some(t@),
            None => json_with_string_field(text@, key@, value@) is None,
        },
{
    match serde_json::from_str::<serde_json::Value>(text) {
        Ok(serde_json::Value::Object(mut map)) => {
            map.insert(key.to_string(), serde_json::Value::String(value.to_string()));
            serde_json::to_string(&serde_json::Value::Object(map)).ok()
        },
        _ => None,
    }
}

/// Parses `text` with `serde_json::from_str` and, when it is an object,
/// reads field `key` with `Map::get` and `Value::as_str`. The contract
/// only names the result.
#[verifier::external_body]
pub(crate) fn json_get_string_field(text: &str, key: &str) -> (r: Option<String>)
    ensures
        match r {
            Some(t) => json_string_field(text@, key@) == Some(t@),
            None => json_string_field(text@, key@) is None,
        },
{
    match serde_json::from_str::<serde_json::Value>(text) {
        Ok(serde_json::Value::Object(map)) => map.get(key).and_then(|v| v.as_str()).map(|v| v.to_string()),
        _ => None,
    }
}

} // verus!
