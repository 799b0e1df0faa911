//! JSON texts as the `serde_json` crate reads and writes them.
use serde::Serializer as _;
use serde_json::value::RawValue;
use vstd::prelude::*;

use crate::pairs;
use crate::text;
use crate::text::same_str;

verus! {

/// A hexadecimal digit in lower case.
pub open spec fn hex_digit(n: int) -> char {
    if n < 10 {
        ('0' as u32 + n) as char
    } else {
        ('a' as u32 + n - 10) as char
    }
}

/// A character inside a JSON string: quotes, backslashes and control characters below the space are
/// escaped, with a short escape where JSON has one.
pub open spec fn json_char_text(c: char) -> Seq<char> {
    if c == '"' || c == '\\' {
        seq!['\\', c]
    } else if c == '\u{8}' {
        seq!['\\', 'b']
    } else if c == '\t' {
        seq!['\\', 't']
    } else if c == '\n' {
        seq!['\\', 'n']
    } else if c == '\u{c}' {
        seq!['\\', 'f']
    } else if c == '\r' {
        seq!['\\', 'r']
    } else if (c as u32) < 0x20 {
        seq!['\\', 'u', '0', '0', hex_digit(c as int / 16), hex_digit(c as int % 16)]
    } else {
        seq![c]
    }
}

/// The characters of a text inside a JSON string.
pub open spec fn json_chars_text(text: Seq<char>) -> Seq<char>
    decreases text.len(),
{
    if text.len() == 0 {
        Seq::empty()
    } else {
        json_chars_text(text.drop_last()) + json_char_text(text.last())
    }
}

/// The JSON string for a text, with its quotes.
#[verifier::opaque]
pub open spec fn json_string_text(text: Seq<char>) -> Seq<char> {
    seq!['"'] + json_chars_text(text) + seq!['"']
}

/// The text that a JSON string stands for, or `None` if it is not a JSON string.
pub uninterp spec fn json_string(json: Seq<char>) -> Option<Seq<char>>;

/// One JSON value without the whitespace around it, or `None` if it is not one JSON value.
pub uninterp spec fn json_raw(json: Seq<char>) -> Option<Seq<char>>;

/// The keys of a JSON object in ascending order, each with the text of its last value, or `None` if
/// the text is not a JSON object.
pub uninterp spec fn json_fields(json: Seq<char>) -> Option<Seq<(Seq<char>, Seq<char>)>>;

/// The JSON object with the given keys and values, in the given order, without whitespace.
#[verifier::opaque]
pub open spec fn json_object_text(fields: Seq<(Seq<char>, Seq<char>)>) -> Seq<char> {
    let parts = fields.map_values(
        |field: (Seq<char>, Seq<char>)| json_string_text(field.0) + seq![':'] + field.1,
    );
    seq!['{'] + text::join(parts, seq![',']) + seq!['}']
}

/// A JSON value written without whitespace, object keys in ascending order, or `None` if the text
/// is not a JSON value that `serde_json::Value` can hold.
pub uninterp spec fn json_compact(json: Seq<char>) -> Option<Seq<char>>;

/// Whether a text is one JSON value with no whitespace around it.
pub open spec fn is_json(json: Seq<char>) -> bool {
    json_raw(json) == Some(json)
}

/// Whether the values of all fields are JSON.
pub open spec fn are_json(fields: Seq<(Seq<char>, Seq<char>)>) -> bool {
    forall|i: int| 0 <= i < fields.len() ==> is_json((#[trigger] fields[i]).1)
}

/// Whether no key occurs twice.
pub open spec fn distinct_keys(fields: Seq<(Seq<char>, Seq<char>)>) -> bool {
    forall|i: int, j: int|
        0 <= i < j < fields.len() ==> (#[trigger] fields[i]).0 != (#[trigger] fields[j]).0
}

/// How far a scan for the end of a JSON object has come: how many braces are open, whether it is
/// inside a string, and whether the next character of the string is escaped.
pub struct BraceScan {
    /// The number of open braces.
    pub depth: int,
    /// Whether the scan is inside a string.
    pub in_string: bool,
    /// Whether the next character of the string is escaped.
    pub escaped: bool,
}

/// One step of the scan.
pub open spec fn scan_step(scan: BraceScan, c: char) -> BraceScan {
    if scan.in_string {
        if scan.escaped {
            BraceScan { escaped: false, ..scan }
        } else if c == '\\' {
            BraceScan { escaped: true, ..scan }
        } else if c == '"' {
            BraceScan { in_string: false, ..scan }
        } else {
            scan
        }
    } else if c == '"' {
        BraceScan { in_string: true, ..scan }
    } else if c == '{' {
        BraceScan { depth: scan.depth + 1, ..scan }
    } else if c == '}' {
        BraceScan { depth: scan.depth - 1, ..scan }
    } else {
        scan
    }
}

/// How many characters there are up to and with the brace that closes the last open one, or `None`
/// if it is not closed.
pub open spec fn scan_end(s: Seq<char>, scan: BraceScan) -> Option<nat>
    decreases s.len(),
{
    if s.len() == 0 {
        None
    } else {
        let next = scan_step(scan, s[0]);
        if !scan.in_string && s[0] == '}' && next.depth == 0 {
            Some(1)
        } else {
            match scan_end(s.drop_first(), next) {
                Some(n) => Some(n + 1),
                None => None,
            }
        }
    }
}

/// How many characters the JSON object at the start of a text has, counting braces outside of
/// strings, or `None` if the text does not start with a brace or that brace is not closed.
pub open spec fn object_len(s: Seq<char>) -> Option<nat> {
    if s.len() > 0 && s[0] == '{' {
        scan_end(s, BraceScan { depth: 0, in_string: false, escaped: false })
    } else {
        None
    }
}

/// `serde_json::to_string` of a string: the JSON string for the text, which is JSON and stands for the
/// text.
#[verifier::external_body]
pub(crate) fn string_text(text: &str) -> (json: String)
    ensures
        json@ == json_string_text(text@),
        json_string(json@) == Some(text@),
        is_json(json@),
{
    serde_json::to_string(text).unwrap()
}

/// `serde_json::from_str` of a `String`: the text that a JSON string stands for.
#[verifier::external_body]
pub(crate) fn parse_string(json: &str) -> (text: Option<String>)
    ensures
        match text {
            Some(text) => json_string(json@) == Some(text@),
            None => json_string(json@) is None,
        },
{
    serde_json::from_str::<String>(json).ok()
}

/// `RawValue::from_string`: one JSON value without the whitespace around it.
#[verifier::external_body]
fn raw_value(json: &str) -> (raw: Option<String>)
    ensures
        match raw {
            Some(raw) => json_raw(json@) == Some(raw@),
            None => json_raw(json@) is None,
        },
{
    RawValue::from_string(json.to_owned()).ok().map(|raw| raw.get().to_owned())
}

/// `serde_json::from_str` of a map from strings to raw values: the fields of a JSON object, in
/// ascending order of their keys. A raw value is one JSON value without the whitespace around it.
#[verifier::external_body]
pub(crate) fn parse_fields(json: &str) -> (fields: Option<Vec<(String, String)>>)
    ensures
        match fields {
            Some(fields) => {
                &&& json_fields(json@) == Some(pairs::pair_views(fields@))
                &&& are_json(pairs::pair_views(fields@))
                &&& distinct_keys(pairs::pair_views(fields@))
            },
            None => json_fields(json@) is None,
        },
{
    let map = serde_json::from_str::<std::collections::BTreeMap<String, Box<RawValue>>>(json).ok()?;
    Some(map.into_iter().map(|(key, value)| (key, value.get().to_owned())).collect())
}

/// `collect_map` of the `serde_json` serializer: the JSON object with the given fields in the given
/// order, separated by commas, each key as a JSON string and each value as it is. It is one object from its first brace to its last, and reads back as its fields if no key
/// occurs twice.
#[verifier::external_body]
pub(crate) fn object_text(fields: &Vec<(String, String)>) -> (json: String)
    requires
        are_json(pairs::pair_views(fields@)),
    ensures
        json@ == json_object_text(pairs::pair_views(fields@)),
        object_len(json@) == Some(json@.len()),
        distinct_keys(pairs::pair_views(fields@)) ==> json_fields(json@) == Some(
            pairs::sort_pairs(pairs::pair_views(fields@)),
        ),
{
    let mut out = Vec::new();
    let raws = fields.iter().map(|(key, json)| (key, RawValue::from_string(json.clone()).unwrap()));
    serde_json::Serializer::new(&mut out).collect_map(raws).unwrap();
    String::from_utf8(out).unwrap()
}

/// `serde_json::from_str` of a `Value` and the text of that value: a JSON value written without
/// whitespace. What is written is JSON again.
#[verifier::external_body]
pub(crate) fn compact(json: &str) -> (text: Option<String>)
    ensures
        match text {
            Some(text) => json_compact(json@) == Some(text@) && is_json(text@),
            None => json_compact(json@) is None,
        },
{
    serde_json::from_str::<serde_json::Value>(json).ok().map(|value| value.to_string())
}

/// Whether a text is one JSON value with no whitespace around it.
pub fn check_json(json: &str) -> (valid: bool)
    ensures
        valid == is_json(json@),
{
    match raw_value(json) {
        Some(raw) => same_str(raw.as_str(), json),
        None => false,
    }
}

/// Braces in a string do not count: what stands between quotes is passed over, whatever it holds.
pub proof fn law_strings_are_passed_over(text: Seq<char>, rest: Seq<char>, depth: int)
    requires
        !text.contains('"'),
        !text.contains('\\'),
    ensures
        scan_end(
            seq!['"'] + text + seq!['"'] + rest,
            BraceScan { depth, in_string: false, escaped: false },
        ) == match scan_end(rest, BraceScan { depth, in_string: false, escaped: false }) {
            Some(n) => Some((n + text.len() + 2) as nat),
            None => None,
        },
{
    let all = seq!['"'] + text + seq!['"'] + rest;
    assert(all.drop_first() =~= text + (seq!['"'] + rest));
    lemma_string_end(text, rest, depth);
}

/// A string goes on to the next quote.
proof fn lemma_string_end(text: Seq<char>, rest: Seq<char>, depth: int)
    requires
        !text.contains('"'),
        !text.contains('\\'),
    ensures
        scan_end(
            text + (seq!['"'] + rest),
            BraceScan { depth, in_string: true, escaped: false },
        ) == match scan_end(rest, BraceScan { depth, in_string: false, escaped: false }) {
            Some(n) => Some((n + text.len() + 1) as nat),
            None => None,
        },
    decreases text.len(),
{
    let all = text + (seq!['"'] + rest);
    if text.len() == 0 {
        assert(all =~= seq!['"'] + rest);
        assert(all.drop_first() =~= rest);
    } else {
        let tail = text.drop_first();
        assert(text.contains(text[0]));
        assert(!tail.contains('"')) by {
            if tail.contains('"') {
                let i = choose|i: int| 0 <= i < tail.len() && tail[i] == '"';
                assert(text[i + 1] == '"');
            }
        }
        assert(!tail.contains('\\')) by {
            if tail.contains('\\') {
                let i = choose|i: int| 0 <= i < tail.len() && tail[i] == '\\';
                assert(text[i + 1] == '\\');
            }
        }
        lemma_string_end(tail, rest, depth);
        assert(all.drop_first() =~= tail + (seq!['"'] + rest));
    }
}

/// An escaped character is part of its string, a quote among them.
pub proof fn law_escapes_stay_in_strings(c: char, rest: Seq<char>, depth: int)
    ensures
        scan_end(
            seq!['\\', c] + rest,
            BraceScan { depth, in_string: true, escaped: false },
        ) == match scan_end(rest, BraceScan { depth, in_string: true, escaped: false }) {
            Some(n) => Some((n + 2) as nat),
            None => None,
        },
{
    let all = seq!['\\', c] + rest;
    assert(all.drop_first() =~= seq![c] + rest);
    assert((seq![c] + rest).drop_first() =~= rest);
    reveal_with_fuel(scan_end, 3);
}

/// An object ends at the brace that closes it: braces that open and close inside it are counted, and every other
/// character outside strings is passed over.
pub proof fn law_objects_end_at_their_brace(c: char, rest: Seq<char>, depth: int)
    requires
        depth > 0,
        c != '"',
        c != '{',
        c != '}',
    ensures
        ({
            let at = |depth: int| BraceScan { depth, in_string: false, escaped: false };
            let after = |found: Option<nat>|
                match found {
                    Some(n) => Some((n + 1) as nat),
                    None => None::<nat>,
                };
            &&& scan_end(seq!['}'] + rest, at(1)) == Some(1nat)
            &&& scan_end(seq!['}'] + rest, at(depth + 1)) == after(scan_end(rest, at(depth)))
            &&& scan_end(seq!['{'] + rest, at(depth)) == after(scan_end(rest, at(depth + 1)))
            &&& scan_end(seq![c] + rest, at(depth)) == after(scan_end(rest, at(depth)))
            &&& object_len(seq!['{'] + rest) == after(scan_end(rest, at(1)))
            &&& object_len(seq![c] + rest) is None
        }),
{
    assert((seq!['}'] + rest).drop_first() =~= rest);
    assert((seq!['{'] + rest).drop_first() =~= rest);
    assert((seq![c] + rest).drop_first() =~= rest);
}

/// A text is written as a JSON string character by character between quotes: quotes and backslashes behind a
/// backslash, the control characters with letters of their own by these, the others below the space by four
/// hexadecimal digits, and everything else as it is.
pub proof fn law_strings_are_escaped(text: Seq<char>, c: char)
    ensures
        ({
            let code = (c as u32) as int;
            let digit = |n: int|
                if n < 10 {
                    ('0' as u32 + n) as char
                } else {
                    ('a' as u32 + n - 10) as char
                };
            let written = if c == '"' {
                seq!['\\', '"']
            } else if c == '\\' {
                seq!['\\', '\\']
            } else if code == 0x8 {
                seq!['\\', 'b']
            } else if code == 0x9 {
                seq!['\\', 't']
            } else if code == 0xa {
                seq!['\\', 'n']
            } else if code == 0xc {
                seq!['\\', 'f']
            } else if code == 0xd {
                seq!['\\', 'r']
            } else if code < 0x20 {
                seq!['\\', 'u', '0', '0', digit(code / 16), digit(code % 16)]
            } else {
                seq![c]
            };
            let before = json_string_text(text);
            &&& json_string_text(Seq::empty()) == seq!['"', '"']
            &&& json_string_text(text.push(c)) == before.drop_last() + written + seq!['"']
        }),
{
    reveal(json_string_text);
    assert(text.push(c).drop_last() =~= text);
    assert(json_string_text(Seq::empty()) =~= seq!['"', '"']);
    assert(json_string_text(text).drop_last() =~= seq!['"'] + json_chars_text(text));
    assert(json_string_text(text.push(c)) =~= json_string_text(text).drop_last() + json_char_text(c)
        + seq!['"']);
}

/// An object is written with its keys and values in order: a key as a string, a colon and the value as it is,
/// with commas between them and braces around.
pub proof fn law_objects_are_written(fields: Seq<(Seq<char>, Seq<char>)>, field: (Seq<char>, Seq<char>))
    ensures
        json_object_text(Seq::empty()) == seq!['{', '}'],
        json_object_text(seq![field]) == seq!['{'] + json_string_text(field.0) + seq![':'] + field.1
            + seq!['}'],
        fields.len() > 0 ==> json_object_text(fields.push(field)) == json_object_text(
            fields,
        ).drop_last() + seq![','] + json_string_text(field.0) + seq![':'] + field.1 + seq!['}'],
{
    reveal(json_object_text);
    let write = |field: (Seq<char>, Seq<char>)| json_string_text(field.0) + seq![':'] + field.1;
    let none = Seq::<(Seq<char>, Seq<char>)>::empty();
    assert(none.map_values(write) =~= Seq::empty());
    assert(json_object_text(none) =~= seq!['{', '}']);
    assert(seq![field].map_values(write) =~= seq![write(field)]);
    assert(text::join(seq![write(field)], seq![',']) == write(field));
    assert(json_object_text(seq![field]) =~= seq!['{'] + json_string_text(field.0) + seq![':']
        + field.1 + seq!['}']);
    if fields.len() > 0 {
        let parts = fields.map_values(write);
        assert(fields.push(field).map_values(write) =~= parts.push(write(field)));
        assert(parts.push(write(field)).drop_last() =~= parts);
        assert(json_object_text(fields).drop_last() =~= seq!['{'] + text::join(parts, seq![',']));
        assert(json_object_text(fields.push(field)) =~= json_object_text(fields).drop_last() + seq![',']
            + json_string_text(field.0) + seq![':'] + field.1 + seq!['}']);
    }
}

} // verus!
