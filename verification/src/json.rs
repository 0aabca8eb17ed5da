//! The little JSON that events are written and read in.
use vstd::prelude::*;

use crate::text::decimal;

verus! {

/// A lower-case hexadecimal digit.
pub open spec fn hex_digit(d: int) -> char {
    if d < 10 {
        ((48 + d) as u32) as char
    } else {
        ((87 + d) as u32) as char
    }
}

/// How a character stands inside a JSON string.
pub open spec fn escaped(c: char) -> Seq<char> {
    if c == '"' {
        seq!['\\', '"']
    } else if c == '\\' {
        seq!['\\', '\\']
    } else if c == '\n' {
        seq!['\\', 'n']
    } else if c == '\r' {
        seq!['\\', 'r']
    } else if c == '\t' {
        seq!['\\', 't']
    } else if c == '\x08' {
        seq!['\\', 'b']
    } else if c == '\x0C' {
        seq!['\\', 'f']
    } else if (c as int) < 32 {
        seq!['\\', 'u', '0', '0', hex_digit(c as int / 16), hex_digit(c as int % 16)]
    } else {
        seq![c]
    }
}

/// The characters of a text, each as it stands inside a JSON string.
pub open spec fn all_escaped(s: Seq<char>) -> Seq<char>
    decreases s.len(),
{
    if s.len() == 0 {
        Seq::empty()
    } else {
        all_escaped(s.drop_last()) + escaped(s.last())
    }
}

/// A text as a JSON string.
pub open spec fn quoted(s: Seq<char>) -> Seq<char> {
    seq!['"'] + all_escaped(s) + seq!['"']
}

/// Calls `serde_json::to_string` on a text. It writes the text between quotation marks:
/// quotation marks, backslashes and control characters escaped, the usual ones by a letter
/// and the others by their code, everything else as it is. Writing a text never fails.
#[verifier::external_body]
pub(crate) fn quote(s: &str) -> (r: Option<String>)
    ensures
        string_of(r) == Some(quoted(s@)),
{
    serde_json::to_string(s).ok()
}

/// What stands under `key` in the JSON object `msg`, if it is one and a text stands there.
pub uninterp spec fn json_text_at(msg: Seq<char>, key: Seq<char>) -> Option<Seq<char>>;

/// The event of a finished download, as it is written.
pub open spec fn download_event(filename: Seq<char>, kind: nat) -> Seq<char> {
    "{\"type\":\"download_complete\",\"filename\":"@ + quoted(filename) + ",\"kind\":"@ + decimal(kind)
        + "}"@
}

/// What an optional text holds.
pub open spec fn string_of(r: Option<String>) -> Option<Seq<char>> {
    match r {
        Some(t) => Some(t@),
        None => None,
    }
}

/// Calls `serde_json::from_str` and looks a key up with `Value::get` and `Value::as_str`.
/// Nothing comes back where the text is not JSON, is no object, lacks the key, or holds
/// something other than a text there. What was written as the event of a finished download
/// is read back as it was.
#[verifier::external_body]
pub(crate) fn text_at(msg: &str, key: &str) -> (r: Option<String>)
    ensures
        string_of(r) == json_text_at(msg@, key@),
        forall|filename: Seq<char>, kind: nat|
            msg@ == #[trigger] download_event(filename, kind) && kind <= u32::MAX && key@ == "type"@
                ==> string_of(r) == Some("download_complete"@),
        forall|filename: Seq<char>, kind: nat|
            msg@ == #[trigger] download_event(filename, kind) && kind <= u32::MAX && key@
                == "filename"@ ==> string_of(r) == Some(filename),
{
    let value = serde_json::from_str::<serde_json::Value>(msg).ok()?;
    value.get(key)?.as_str().map(|t| t.to_string())
}

} // verus!
