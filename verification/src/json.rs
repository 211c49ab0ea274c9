//! JSON values by their text.
//!
//! A value is held as JSON text; reading fields and writing text is left to
//! `serde_json`.
use vstd::prelude::*;

verus! {

/// Why a text is not JSON, if it is not.
pub uninterp spec fn json_fault(s: Seq<char>) -> Option<Seq<char>>;

/// `serde_json::from_str::<Value>`: the error in words for a text that is not
/// JSON, a function of the text.
#[verifier::external_body]
pub(crate) fn parse_fault(s: &str) -> (r: Option<String>)
    ensures
        match r {
            Some(e) => json_fault(s@) == Some(e@),
            None => json_fault(s@) is None,
        },
{
    match serde_json::from_str::<serde_json::Value>(s) {
        Ok(_) => None,
        Err(e) => Some(e.to_string()),
    }
}

/// The text of a string field of a JSON object.
pub uninterp spec fn json_string(s: Seq<char>, key: Seq<char>) -> Option<Seq<char>>;

/// `serde_json::Value::get` and `as_str` on a parsed text: the field's text, if
/// the text is a JSON object and the field is a string.
#[verifier::external_body]
pub(crate) fn string_field(s: &str, key: &str) -> (r: Option<String>)
    ensures
        match r {
            Some(v) => json_string(s@, key@) == Some(v@),
            None => json_string(s@, key@) is None,
        },
        json_fault(s@) is Some ==> r is None,
{
    match serde_json::from_str::<serde_json::Value>(s) {
        Ok(v) => v.get(key).and_then(|f| f.as_str()).map(|t| t.to_string()),
        Err(_) => None,
    }
}

/// The number of an integer field of a JSON object.
pub uninterp spec fn json_number(s: Seq<char>, key: Seq<char>) -> Option<u64>;

/// `serde_json::Value::get` and `as_u64` on a parsed text: the field's number,
/// if the text is a JSON object and the field is an unsigned 64-bit integer.
#[verifier::external_body]
pub(crate) fn number_field(s: &str, key: &str) -> (r: Option<u64>)
    ensures
        r == json_number(s@, key@),
        json_fault(s@) is Some ==> r is None,
{
    match serde_json::from_str::<serde_json::Value>(s) {
        Ok(v) => v.get(key).and_then(|f| f.as_u64()),
        Err(_) => None,
    }
}

/// The compact text of the value that a text denotes.
pub uninterp spec fn json_compact(s: Seq<char>) -> Option<Seq<char>>;

/// `serde_json::to_string` on a parsed text: the compact text of the value, if
/// the text is JSON.
#[verifier::external_body]
pub(crate) fn compact(s: &str) -> (r: Option<String>)
    ensures
        match r {
            Some(t) => json_compact(s@) == Some(t@),
            None => json_compact(s@) is None,
        },
        r is None <==> json_fault(s@) is Some,
{
    match serde_json::from_str::<serde_json::Value>(s) {
        Ok(v) => Some(serde_json::to_string(&v).unwrap_or_default()),
        Err(_) => None,
    }
}

/// The indented text of the value that a text denotes.
pub uninterp spec fn json_pretty(s: Seq<char>) -> Option<Seq<char>>;

/// `serde_json::to_string_pretty` on a parsed text: the indented text of the
/// value, if the text is JSON.
#[verifier::external_body]
pub(crate) fn pretty(s: &str) -> (r: Option<String>)
    ensures
        match r {
            Some(t) => json_pretty(s@) == Some(t@),
            None => json_pretty(s@) is None,
        },
        r is None <==> json_fault(s@) is Some,
{
    match serde_json::from_str::<serde_json::Value>(s) {
        Ok(v) => Some(serde_json::to_string_pretty(&v).unwrap_or_default()),
        Err(_) => None,
    }
}

/// A hexadecimal digit.
pub open spec fn hex_digit(d: int) -> char {
    if d < 10 {
        ('0' as int + d) as char
    } else {
        ('a' as int + d - 10) as char
    }
}

/// A character inside a JSON string literal. Quotes, backslashes and control
/// characters below the space are escaped, everything else stands for itself.
pub open spec fn escaped_char(c: char) -> Seq<char> {
    if c == '"' || c == '\\' {
        seq!['\\', c]
    } else if c as int == 8 {
        seq!['\\', 'b']
    } else if c as int == 9 {
        seq!['\\', 't']
    } else if c as int == 10 {
        seq!['\\', 'n']
    } else if c as int == 12 {
        seq!['\\', 'f']
    } else if c as int == 13 {
        seq!['\\', 'r']
    } else if (c as int) < 32 {
        seq!['\\', 'u', '0', '0', hex_digit(c as int / 16), hex_digit(c as int % 16)]
    } else {
        seq![c]
    }
}

/// The characters of a text inside a JSON string literal.
pub open spec fn escaped(s: Seq<char>) -> Seq<char>
    decreases s.len(),
{
    if s.len() == 0 {
        seq![]
    } else {
        escaped(s.drop_last()) + escaped_char(s.last())
    }
}

/// A JSON string literal.
pub open spec fn json_literal(s: Seq<char>) -> Seq<char> {
    seq!['"'] + escaped(s) + seq!['"']
}

/// `serde_json::to_string` on a string, which does not fail there: its JSON
/// literal, in quotes, with the short escapes where there is one and `\u00` with
/// two lower-case digits for the other control characters.
#[verifier::external_body]
pub(crate) fn literal(s: &str) -> (r: String)
    ensures
        r@ == json_literal(s@),
{
    serde_json::to_string(s).unwrap_or_default()
}

} // verus!
