//! The exact-bytes snapshot representation, and its parsing and display.
use std::borrow::Cow;

use vstd::prelude::*;

use crate::context::Context;
use crate::digest;
use crate::digest::{Sha1Digest, DIGEST_LEN};
use crate::format::{FormatInfo, FormatView};
use crate::json;
use crate::json::{check_json, object_text, parse_fields};
use crate::pairs;
use crate::snapshot::Snapshot;
use crate::text;
use crate::text::{append, borrow_str, chars_of, own_cow, same_chars, same_str, starts_at, string_of};
use crate::timestamp;
use crate::timestamp::{Timestamp, TIMESTAMP_LEN};

verus! {

/// What stands before the digest.
pub const DIGEST_START: &'static str = "{\"digest\":\"";

/// What stands between a string value and the next key.
pub const NEXT_KEY: &'static str = "\",\"";

/// What stands between a key and a string value.
pub const STRING_START: &'static str = "\":\"";

/// What stands between a key and another value.
pub const VALUE_START: &'static str = "\":";

/// What stands between an object value and the next key.
pub const NEXT_KEY_AFTER_OBJECT: &'static str = ",\"";

/// The key of the expected digest.
pub const EXPECTED_DIGEST_KEY: &'static str = "expected_digest";

/// The key of the timestamp.
pub const TIMESTAMP_KEY: &'static str = "timestamp";

/// The key of the URL.
pub const URL_KEY: &'static str = "url";

/// The key of the `format` object.
pub const FORMAT_KEY: &'static str = "format";

/// The key of the content.
pub const CONTENT_KEY: &'static str = "content";

/// The line is not a well-formed snapshot.
#[derive(Clone, Copy, Debug, PartialEq, Eq, Structural)]
pub struct InvalidLine;

/// The snapshot holds a value that cannot be written without JSON escaping, or format metadata that
/// is not JSON.
#[derive(Clone, Copy, Debug, PartialEq, Eq, Structural)]
pub struct Unwritable;

/// The exact serialized JSON content of a snapshot.
///
/// This is the decoded content, minus trailing JSON whitespace, stored verbatim rather than as a
/// parsed JSON value. [`ExactSnapshot`]'s `parse` produces it for digest verification and
/// serialization.
#[derive(Debug, PartialEq, Eq)]
pub struct ExactContent<'a>(Cow<'a, str>);

impl<'a> View for ExactContent<'a> {
    type V = Seq<char>;

    closed spec fn view(&self) -> Seq<char> {
        self.0@
    }
}

impl<'a> ExactContent<'a> {
    /// Whether the text is borrowed.
    pub closed spec fn is_borrowed(&self) -> bool {
        self.0 is Borrowed
    }

    /// The given content.
    pub fn new(content: Cow<'a, str>) -> (exact: Self)
        ensures
            exact@ == content@,
            exact.is_borrowed() == (content is Borrowed),
    {
        ExactContent(content)
    }

    /// Borrow the exact content as a string slice.
    pub fn as_str(&self) -> (content: &str)
        ensures
            content@ == self@,
    {
        borrow_str(&self.0)
    }

    /// Consume the wrapper, returning the underlying text.
    pub fn into_inner(self) -> (content: Cow<'a, str>)
        ensures
            content@ == self@,
            content is Borrowed == self.is_borrowed(),
    {
        self.0
    }
}

/// A snapshot whose content is the exact serialized JSON text.
pub type ExactSnapshot<'a> = Snapshot<'a, ExactContent<'a>>;

/// What a snapshot line says.
#[verifier::ext_equal]
pub struct LineView {
    /// The digest.
    pub digest: nat,
    /// The digest indicated in the CDX entry.
    pub expected_digest: Option<Seq<char>>,
    /// The capture timestamp.
    pub timestamp: Option<int>,
    /// The original URL.
    pub url: Option<Seq<char>>,
    /// The `format` object.
    pub format: FormatView,
    /// The content.
    pub content: Seq<char>,
}

/// Whether a text, if there is one, is borrowed.
pub open spec fn is_borrowed(text: Option<Cow<'_, str>>) -> bool {
    text matches Some(text) ==> text is Borrowed
}

/// The text of an optional string.
pub open spec fn option_text(text: Option<Cow<'_, str>>) -> Option<Seq<char>> {
    match text {
        Some(text) => Some(text@),
        None => None,
    }
}

/// What a snapshot says.
pub open spec fn snapshot_view(snapshot: ExactSnapshot<'_>) -> LineView {
    LineView {
        digest: snapshot.digest@,
        expected_digest: option_text(snapshot.expected_digest),
        timestamp: match snapshot.timestamp {
            Some(timestamp) => Some(timestamp@),
            None => None,
        },
        url: option_text(snapshot.url),
        format: snapshot.format@,
        content: snapshot.content@,
    }
}

/// The `format` object of plain text with the default closing whitespace.
pub open spec fn plain_format() -> FormatView {
    FormatView { name: None, closing_whitespace: None, metadata: Seq::empty() }
}

/// What follows a literal, or `None` if the text does not start with it.
pub open spec fn strip(s: Seq<char>, literal: Seq<char>) -> Option<Seq<char>> {
    if text::has_at(s, 0, literal) {
        Some(s.skip(literal.len() as int))
    } else {
        None
    }
}

/// The number of bytes of a character in UTF-8.
pub open spec fn char_width(c: char) -> nat {
    if (c as u32) < 0x80 {
        1
    } else if (c as u32) < 0x800 {
        2
    } else if (c as u32) < 0x1_0000 {
        3
    } else {
        4
    }
}

/// How many characters the first `bytes` bytes of a text are in UTF-8, or `None` if the text is
/// shorter or a character spans the end.
pub open spec fn chars_in(s: Seq<char>, bytes: nat) -> Option<nat>
    decreases s.len(),
{
    if bytes == 0 {
        Some(0)
    } else if s.len() == 0 || char_width(s[0]) > bytes {
        None
    } else {
        match chars_in(s.drop_first(), (bytes - char_width(s[0])) as nat) {
            Some(n) => Some(n + 1),
            None => None,
        }
    }
}

/// The expected digest, if its key comes next, and what follows it.
pub open spec fn read_expected(s: Seq<char>) -> Option<(Option<Seq<char>>, Seq<char>)> {
    match strip(s, EXPECTED_DIGEST_KEY@) {
        None => Some((None, s)),
        Some(rest) => match strip(rest, STRING_START@) {
            None => None,
            Some(rest) => match chars_in(rest, DIGEST_LEN as nat) {
                None => None,
                Some(n) => match strip(rest.skip(n as int), NEXT_KEY@) {
                    None => None,
                    Some(after) => Some((Some(rest.take(n as int)), after)),
                },
            },
        },
    }
}

/// The timestamp, if its key comes next, and what follows it.
pub open spec fn read_timestamp(s: Seq<char>) -> Option<(Option<int>, Seq<char>)> {
    match strip(s, TIMESTAMP_KEY@) {
        None => Some((None, s)),
        Some(rest) => match strip(rest, STRING_START@) {
            None => None,
            Some(rest) => {
                let digits = rest.take(TIMESTAMP_LEN as int);
                if rest.len() < TIMESTAMP_LEN || !timestamp::is_timestamp_text(digits) {
                    None
                } else {
                    match strip(rest.skip(TIMESTAMP_LEN as int), NEXT_KEY@) {
                        None => None,
                        Some(after) => Some((Some(timestamp::timestamp_value(digits)), after)),
                    }
                }
            },
        },
    }
}

/// How many characters there are before the next quote, or `None` if there is none or a backslash
/// comes first.
pub open spec fn string_len(s: Seq<char>) -> Option<nat> {
    let quote = text::first_index(s, '"');
    if quote < s.len() && quote < text::first_index(s, '\\') {
        Some(quote as nat)
    } else {
        None
    }
}

/// The URL, if its key comes next, and what follows it.
pub open spec fn read_url(s: Seq<char>) -> Option<(Option<Seq<char>>, Seq<char>)> {
    match strip(s, URL_KEY@) {
        None => Some((None, s)),
        Some(rest) => match strip(rest, STRING_START@) {
            None => None,
            Some(rest) => match string_len(rest) {
                None => None,
                Some(n) => match strip(rest.skip(n as int), NEXT_KEY@) {
                    None => None,
                    Some(after) => Some((Some(rest.take(n as int)), after)),
                },
            },
        },
    }
}

/// The `format` object, if its key comes next, and what follows it.
pub open spec fn read_format(s: Seq<char>) -> Option<(FormatView, Seq<char>)> {
    match strip(s, FORMAT_KEY@) {
        None => Some((plain_format(), s)),
        Some(rest) => match strip(rest, VALUE_START@) {
            None => None,
            Some(rest) => match json::object_len(rest) {
                None => None,
                Some(n) => match (
                    strip(rest.skip(n as int), NEXT_KEY_AFTER_OBJECT@),
                    json::json_fields(rest.take(n as int)),
                ) {
                    (Some(after), Some(fields)) => match crate::format::format_of(fields) {
                        None => None,
                        Some(format) => Some((format, after)),
                    },
                    _ => None,
                },
            },
        },
    }
}

/// The content, which runs to the closing brace at the end.
pub open spec fn read_content(s: Seq<char>) -> Option<Seq<char>> {
    match strip(s, CONTENT_KEY@) {
        None => None,
        Some(rest) => match strip(rest, VALUE_START@) {
            None => None,
            Some(rest) => if rest.len() > 0 && rest.last() == '}' {
                Some(rest.drop_last())
            } else {
                None
            },
        },
    }
}

/// The digest that a line starts with, and what follows it.
pub open spec fn read_digest(line: Seq<char>) -> Option<(nat, Seq<char>)> {
    match strip(line, DIGEST_START@) {
        None => None,
        Some(rest) => {
            let text = rest.take(DIGEST_LEN as int);
            if rest.len() < DIGEST_LEN || !digest::is_digest_text(text) {
                None
            } else {
                match strip(rest.skip(DIGEST_LEN as int), NEXT_KEY@) {
                    None => None,
                    Some(after) => Some((digest::digest_value(text), after)),
                }
            }
        },
    }
}

/// What a snapshot line says, or `None` if it is not a well-formed snapshot.
pub open spec fn parse_line(line: Seq<char>) -> Option<LineView> {
    match read_digest(line) {
        None => None,
        Some((digest, rest)) => match read_expected(rest) {
            None => None,
            Some((expected_digest, rest)) => match read_timestamp(rest) {
                None => None,
                Some((timestamp, rest)) => match read_url(rest) {
                    None => None,
                    Some((url, rest)) => match read_format(rest) {
                        None => None,
                        Some((format, rest)) => match read_content(rest) {
                            None => None,
                            Some(content) => Some(
                                LineView {
                                    digest,
                                    expected_digest,
                                    timestamp,
                                    url,
                                    format,
                                    content,
                                },
                            ),
                        },
                    },
                },
            },
        },
    }
}

/// Advance past `literal` at `index`, or return `None` if the line differs from it or ends before
/// `index`.
fn expect(chars: &[char], index: usize, literal: &str) -> (next: Option<usize>)
    ensures
        match next {
            Some(next) => {
                &&& next == index + literal@.len()
                &&& next <= chars@.len()
                &&& strip(chars@.skip(index as int), literal@) == Some(chars@.skip(next as int))
            },
            None => index > chars@.len() || strip(chars@.skip(index as int), literal@) is None,
        },
{
    if index > chars.len() {
        return None;
    }
    let ghost rest = chars@.skip(index as int);
    proof {
        if index + literal@.len() <= chars@.len() {
            assert(rest.subrange(0, literal@.len() as int) =~= chars@.subrange(
                index as int,
                index + literal@.len(),
            ));
            assert(rest.skip(literal@.len() as int) =~= chars@.skip(index + literal@.len()));
        }
    }
    if starts_at(chars, index, literal) {
        assert(chars.len() == chars@.len());
        Some(index + literal.unicode_len())
    } else {
        None
    }
}

/// The number of bytes of a character in UTF-8.
fn width(c: char) -> (bytes: usize)
    ensures
        bytes == char_width(c),
{
    let code: u32 = c as u32;
    if code < 0x80 {
        1
    } else if code < 0x800 {
        2
    } else if code < 0x1_0000 {
        3
    } else {
        4
    }
}

/// Where the first `bytes` bytes from `index` on end.
fn byte_end(chars: &[char], index: usize, bytes: usize) -> (end: Option<usize>)
    ensures
        match end {
            Some(end) => {
                &&& index <= end <= chars@.len()
                &&& chars_in(chars@.skip(index as int), bytes as nat) == Some((end - index) as nat)
            },
            None => index > chars@.len() || chars_in(chars@.skip(index as int), bytes as nat) is None,
        },
    decreases chars@.len() - index,
{
    if index > chars.len() {
        return None;
    }
    if bytes == 0 {
        return Some(index);
    }
    if index >= chars.len() {
        return None;
    }
    let size: usize = width(chars[index]);
    if size > bytes {
        return None;
    }
    assert(chars@.skip(index as int).drop_first() =~= chars@.skip(index + 1));
    byte_end(chars, index + 1, bytes - size)
}

/// Read a JSON object value.
///
/// Returns the index just past the brace that closes the object at `index`, scanning with brace
/// depth while respecting strings, or `None` if there is no object or it is unterminated.
fn read_object_value(chars: &[char], index: usize) -> (end: Option<usize>)
    ensures
        match end {
            Some(end) => {
                &&& index <= end <= chars@.len()
                &&& json::object_len(chars@.skip(index as int)) == Some((end - index) as nat)
            },
            None => index > chars@.len() || json::object_len(chars@.skip(index as int)) is None,
        },
{
    if index >= chars.len() || chars[index] != '{' {
        return None;
    }
    let mut depth: usize = 0;
    let mut in_string: bool = false;
    let mut escaped: bool = false;
    let mut offset: usize = index;
    let ghost whole = json::object_len(chars@.skip(index as int));
    while offset < chars.len()
        invariant
            index <= offset <= chars@.len(),
            index < chars@.len(),
            chars@[index as int] == '{',
            depth <= offset - index,
            offset == index ==> !in_string && depth == 0,
            offset > index ==> depth > 0,
            whole == json::object_len(chars@.skip(index as int)),
            whole == match json::scan_end(
                chars@.skip(offset as int),
                json::BraceScan { depth: depth as int, in_string, escaped },
            ) {
                Some(n) => Some((n + (offset - index)) as nat),
                None => None,
            },
        decreases chars@.len() - offset,
    {
        let c = chars[offset];
        let ghost rest = chars@.skip(offset as int);
        let ghost scan = json::BraceScan { depth: depth as int, in_string, escaped };
        proof {
            assert(rest[0] == c);
            assert(rest.drop_first() =~= chars@.skip(offset + 1));
        }
        if in_string {
            if escaped {
                escaped = false;
            } else if c == '\\' {
                escaped = true;
            } else if c == '"' {
                in_string = false;
            }
        } else if c == '"' {
            in_string = true;
        } else if c == '{' {
            depth = depth + 1;
        } else if c == '}' {
            depth = depth - 1;
            if depth == 0 {
                assert(json::scan_end(rest, scan) == Some(1nat));
                return Some(offset + 1);
            }
        }
        offset = offset + 1;
    }
    assert(chars@.skip(offset as int) =~= Seq::empty());
    None
}

/// Read a quoted JSON string value.
///
/// `index` points just past the opening quote. Returns the index of the closing quote. The canonical
/// serialization never escapes, so a backslash is refused, as is a missing closing quote.
fn read_string_value(chars: &[char], index: usize) -> (end: Option<usize>)
    ensures
        match end {
            Some(end) => {
                &&& index <= end < chars@.len()
                &&& string_len(chars@.skip(index as int)) == Some((end - index) as nat)
            },
            None => index > chars@.len() || string_len(chars@.skip(index as int)) is None,
        },
{
    if index > chars.len() {
        return None;
    }
    let ghost rest = chars@.skip(index as int);
    proof {
        text::lemma_first_index(rest, '"');
        text::lemma_first_index(rest, '\\');
    }
    let mut end: usize = index;
    while end < chars.len() && chars[end] != '"'
        invariant
            index <= end <= chars@.len(),
            rest == chars@.skip(index as int),
            forall|k: int| index <= k < end ==> chars@[k] != '"' && chars@[k] != '\\',
        decreases chars@.len() - end,
    {
        if chars[end] == '\\' {
            proof {
                text::lemma_first_index_unique(rest, '\\', end - index);
                text::lemma_first_index(rest, '"');
                if text::first_index(rest, '"') < end - index {
                    assert(rest[text::first_index(rest, '"')] == chars@[index + text::first_index(
                        rest,
                        '"',
                    )]);
                }
            }
            return None;
        }
        end = end + 1;
    }
    proof {
        text::lemma_first_index_unique(rest, '"', end - index);
        if text::first_index(rest, '\\') < end - index {
            assert(rest[text::first_index(rest, '\\')] == chars@[index + text::first_index(
                rest,
                '\\',
            )]);
        }
        if end < chars@.len() {
            assert(rest[end - index] == '"');
        }
    }
    if end >= chars.len() {
        None
    } else {
        Some(end)
    }
}

/// Reads the digest that a line starts with.
fn digest_at(chars: &[char]) -> (read: Option<(Sha1Digest, usize)>)
    ensures
        match read {
            Some((digest, next)) => {
                &&& next <= chars@.len()
                &&& read_digest(chars@) == Some((digest@, chars@.skip(next as int)))
            },
            None => read_digest(chars@) is None,
        },
{
    assert(chars@.skip(0) =~= chars@);
    let start: usize = match expect(chars, 0, DIGEST_START) {
        Some(start) => start,
        None => return None,
    };
    if chars.len() - start < DIGEST_LEN {
        return None;
    }
    let end: usize = start + DIGEST_LEN;
    let digits = vstd::slice::slice_subrange(chars, start, end);
    assert(digits@ =~= chars@.skip(start as int).take(DIGEST_LEN as int));
    assert(chars@.skip(start as int).skip(DIGEST_LEN as int) =~= chars@.skip(end as int));
    match Sha1Digest::from_chars(digits) {
        Ok(digest) => match expect(chars, end, NEXT_KEY) {
            Some(next) => Some((digest, next)),
            None => None,
        },
        Err(_) => None,
    }
}

/// Reads the expected digest, if its key stands at `index`.
fn expected_at<'a>(line: &'a str, chars: &[char], index: usize) -> (read: Option<
    (Option<Cow<'a, str>>, usize),
>)
    requires
        chars@ == line@,
        index <= chars@.len(),
    ensures
        match read {
            Some((expected, next)) => {
                &&& next <= chars@.len()
                &&& read_expected(line@.skip(index as int)) == Some(
                    (option_text(expected), line@.skip(next as int)),
                )
                &&& is_borrowed(expected)
            },
            None => read_expected(line@.skip(index as int)) is None,
        },
{
    let key_end: usize = match expect(chars, index, EXPECTED_DIGEST_KEY) {
        Some(key_end) => key_end,
        None => return Some((None, index)),
    };
    let start: usize = match expect(chars, key_end, STRING_START) {
        Some(start) => start,
        None => return None,
    };
    let end: usize = match byte_end(chars, start, DIGEST_LEN) {
        Some(end) => end,
        None => return None,
    };
    assert(line@.skip(start as int).skip(end - start) =~= line@.skip(end as int));
    let value = line.substring_char(start, end);
    assert(value@ =~= line@.skip(start as int).take(end - start));
    match expect(chars, end, NEXT_KEY) {
        Some(next) => Some((Some(Cow::Borrowed(value)), next)),
        None => None,
    }
}

/// Reads the timestamp, if its key stands at `index`.
fn timestamp_at(chars: &[char], index: usize) -> (read: Option<(Option<Timestamp>, usize)>)
    requires
        index <= chars@.len(),
    ensures
        match read {
            Some((timestamp, next)) => {
                &&& next <= chars@.len()
                &&& read_timestamp(chars@.skip(index as int)) == Some(
                    (
                        match timestamp {
                            Some(timestamp) => Some(timestamp@),
                            None => None,
                        },
                        chars@.skip(next as int),
                    ),
                )
            },
            None => read_timestamp(chars@.skip(index as int)) is None,
        },
{
    let key_end: usize = match expect(chars, index, TIMESTAMP_KEY) {
        Some(key_end) => key_end,
        None => return Some((None, index)),
    };
    let start: usize = match expect(chars, key_end, STRING_START) {
        Some(start) => start,
        None => return None,
    };
    if chars.len() - start < TIMESTAMP_LEN {
        return None;
    }
    let end: usize = start + TIMESTAMP_LEN;
    let digits = vstd::slice::slice_subrange(chars, start, end);
    assert(digits@ =~= chars@.skip(start as int).take(TIMESTAMP_LEN as int));
    assert(chars@.skip(start as int).skip(TIMESTAMP_LEN as int) =~= chars@.skip(end as int));
    match Timestamp::from_chars(digits) {
        Some(timestamp) => match expect(chars, end, NEXT_KEY) {
            Some(next) => Some((Some(timestamp), next)),
            None => None,
        },
        None => None,
    }
}

/// Reads the URL, if its key stands at `index`.
fn url_at<'a>(line: &'a str, chars: &[char], index: usize) -> (read: Option<
    (Option<Cow<'a, str>>, usize),
>)
    requires
        chars@ == line@,
        index <= chars@.len(),
    ensures
        match read {
            Some((url, next)) => {
                &&& next <= chars@.len()
                &&& read_url(line@.skip(index as int)) == Some(
                    (option_text(url), line@.skip(next as int)),
                )
                &&& is_borrowed(url)
            },
            None => read_url(line@.skip(index as int)) is None,
        },
{
    let key_end: usize = match expect(chars, index, URL_KEY) {
        Some(key_end) => key_end,
        None => return Some((None, index)),
    };
    let start: usize = match expect(chars, key_end, STRING_START) {
        Some(start) => start,
        None => return None,
    };
    let end: usize = match read_string_value(chars, start) {
        Some(end) => end,
        None => return None,
    };
    assert(line@.skip(start as int).skip(end - start) =~= line@.skip(end as int));
    let value = line.substring_char(start, end);
    assert(value@ =~= line@.skip(start as int).take(end - start));
    match expect(chars, end, NEXT_KEY) {
        Some(next) => Some((Some(Cow::Borrowed(value)), next)),
        None => None,
    }
}

/// Reads the `format` object, if its key stands at `index`.
fn format_at(chars: &[char], index: usize) -> (read: Option<(FormatInfo, usize)>)
    requires
        index <= chars@.len(),
    ensures
        match read {
            Some((format, next)) => {
                &&& next <= chars@.len()
                &&& read_format(chars@.skip(index as int)) == Some(
                    (format@, chars@.skip(next as int)),
                )
            },
            None => read_format(chars@.skip(index as int)) is None,
        },
{
    let key_end: usize = match expect(chars, index, FORMAT_KEY) {
        Some(key_end) => key_end,
        None => return Some((FormatInfo::plain(), index)),
    };
    let start: usize = match expect(chars, key_end, VALUE_START) {
        Some(start) => start,
        None => return None,
    };
    let end: usize = match read_object_value(chars, start) {
        Some(end) => end,
        None => return None,
    };
    assert(chars@.skip(start as int).skip(end - start) =~= chars@.skip(end as int));
    let next: usize = match expect(chars, end, NEXT_KEY_AFTER_OBJECT) {
        Some(next) => next,
        None => return None,
    };
    let object = string_of(vstd::slice::slice_subrange(chars, start, end));
    assert(object@ =~= chars@.skip(start as int).take(end - start));
    match parse_fields(object.as_str()) {
        Some(fields) => match FormatInfo::from_fields(&fields) {
            Some(format) => Some((format, next)),
            None => None,
        },
        None => None,
    }
}

impl<'a> Snapshot<'a, ExactContent<'a>> {
    /// Parse a single JSONL line into a snapshot.
    ///
    /// Borrows from `line` and requires the canonical field order and delimiters. The content is
    /// preserved without checking that it is valid JSON. Digest verification is a separate
    /// operation.
    pub fn parse(line: &'a str) -> (parsed: Result<ExactSnapshot<'a>, InvalidLine>)
        ensures
            match parsed {
                Ok(snapshot) => {
                    &&& parse_line(line@) == Some(snapshot_view(snapshot))
                    &&& snapshot.content.is_borrowed()
                    &&& is_borrowed(snapshot.expected_digest)
                    &&& is_borrowed(snapshot.url)
                },
                Err(_) => parse_line(line@) is None,
            },
    {
        let chars = chars_of(line);
        let (digest, index): (Sha1Digest, usize) = match digest_at(&chars) {
            Some(read) => read,
            None => return Err(InvalidLine),
        };
        let (expected_digest, index): (Option<Cow<'a, str>>, usize) = match expected_at(
            line,
            &chars,
            index,
        ) {
            Some(read) => read,
            None => return Err(InvalidLine),
        };
        let (timestamp, index): (Option<Timestamp>, usize) = match timestamp_at(&chars, index) {
            Some(read) => read,
            None => return Err(InvalidLine),
        };
        let (url, index): (Option<Cow<'a, str>>, usize) = match url_at(line, &chars, index) {
            Some(read) => read,
            None => return Err(InvalidLine),
        };
        let (format, index): (FormatInfo, usize) = match format_at(&chars, index) {
            Some(read) => read,
            None => return Err(InvalidLine),
        };
        let key_end: usize = match expect(&chars, index, CONTENT_KEY) {
            Some(key_end) => key_end,
            None => return Err(InvalidLine),
        };
        let start: usize = match expect(&chars, key_end, VALUE_START) {
            Some(start) => start,
            None => return Err(InvalidLine),
        };
        // The content runs from here to just before the closing brace, which must be present.
        if start >= chars.len() || chars[chars.len() - 1] != '}' {
            return Err(InvalidLine);
        }
        let content = line.substring_char(start, chars.len() - 1);
        assert(content@ =~= line@.skip(start as int).drop_last());
        Ok(
            Snapshot {
                digest,
                expected_digest,
                timestamp,
                url,
                format,
                content: ExactContent(Cow::Borrowed(content)),
            },
        )
    }
}

/// Whether a text cannot be written verbatim inside a JSON string: it holds a quote, a backslash or
/// a control character.
pub open spec fn must_escape(value: Seq<char>) -> bool {
    exists|i: int| 0 <= i < value.len() && is_escaped_char(#[trigger] value[i])
}

/// A quote, a backslash or a control character.
pub open spec fn is_escaped_char(c: char) -> bool {
    c == '"' || c == '\\' || (c as u32) < 0x20 || 0x7f <= (c as u32) <= 0x9f
}

/// Whether a string cannot be written verbatim inside a JSON string value.
fn needs_json_escaping(value: &str) -> (needed: bool)
    ensures
        needed == must_escape(value@),
{
    let chars = chars_of(value);
    let mut i: usize = 0;
    while i < chars.len()
        invariant
            i <= chars@.len(),
            chars@ == value@,
            forall|k: int| 0 <= k < i ==> !is_escaped_char(#[trigger] chars@[k]),
        decreases chars@.len() - i,
    {
        let c = chars[i];
        let code: u32 = c as u32;
        if c == '"' || c == '\\' || code < 0x20 || (0x7f <= code && code <= 0x9f) {
            assert(is_escaped_char(value@[i as int]));
            return true;
        }
        i = i + 1;
    }
    false
}

/// A field with a string value, and the comma after it.
pub open spec fn string_field(key: Seq<char>, value: Seq<char>) -> Seq<char> {
    seq!['"'] + key + STRING_START@ + value + "\","@
}

/// A field with a string value, if there is one.
pub open spec fn optional_field(key: Seq<char>, value: Option<Seq<char>>) -> Seq<char> {
    match value {
        Some(value) => string_field(key, value),
        None => Seq::empty(),
    }
}

/// The text of an optional timestamp.
pub open spec fn timestamp_field(timestamp: Option<int>) -> Option<Seq<char>> {
    match timestamp {
        Some(timestamp) => Some(timestamp::timestamp_text(timestamp)),
        None => None,
    }
}

/// What is written of a snapshot under a context with the given default closing whitespace and the
/// given inferred URL: all of it, except for a URL equal to the inferred one and closing whitespace
/// equal to the default.
pub open spec fn written_view(
    view: LineView,
    default: Seq<char>,
    inferred: Option<Seq<char>>,
) -> LineView {
    LineView {
        url: if view.url == inferred {
            None
        } else {
            view.url
        },
        format: FormatView {
            closing_whitespace: if view.format.closing_whitespace == Some(default) {
                None
            } else {
                view.format.closing_whitespace
            },
            ..view.format
        },
        ..view
    }
}

/// Whether a snapshot can be written: its expected digest and URL need no escaping, and its format
/// metadata is JSON.
pub open spec fn is_writable(view: LineView) -> bool {
    &&& view.expected_digest matches Some(expected) ==> !must_escape(expected)
    &&& view.url matches Some(url) ==> !must_escape(url)
    &&& json::are_json(view.format.metadata)
}

/// The `format` field, if the format is not plain.
pub open spec fn format_field(format: FormatView) -> Seq<char> {
    if format == plain_format() {
        Seq::empty()
    } else {
        seq!['"'] + FORMAT_KEY@ + VALUE_START@ + json::json_object_text(
            crate::format::format_fields(format),
        ) + seq![',']
    }
}

/// The canonical line of a snapshot.
pub open spec fn line_text(view: LineView) -> Seq<char> {
    DIGEST_START@ + digest::digest_text(view.digest) + "\","@ + optional_field(
        EXPECTED_DIGEST_KEY@,
        view.expected_digest,
    ) + optional_field(TIMESTAMP_KEY@, timestamp_field(view.timestamp)) + optional_field(
        URL_KEY@,
        view.url,
    ) + format_field(view.format) + seq!['"'] + CONTENT_KEY@
        + VALUE_START@ + view.content + seq!['}']
}

/// A view of a snapshot under a context, for writing it as a line.
#[derive(Debug)]
pub struct SnapshotDisplay<'c, 'a> {
    /// The snapshot.
    pub snapshot: &'c ExactSnapshot<'a>,
    /// The context.
    pub context: &'c Context,
    /// The URL that the context's query gives for the snapshot's content.
    pub inferred_url: Option<&'c str>,
}

/// Appends a field with a string value.
fn append_field(line: &mut String, key: &str, value: &str)
    ensures
        final(line)@ == old(line)@ + string_field(key@, value@),
{
    line.push('"');
    append(line, key);
    append(line, STRING_START);
    append(line, value);
    append(line, "\",");
    assert(line@ =~= old(line)@ + string_field(key@, value@));
}

impl<'c, 'a> SnapshotDisplay<'c, 'a> {
    /// The inferred URL as a text.
    pub open spec fn inferred(&self) -> Option<Seq<char>> {
        match self.inferred_url {
            Some(url) => Some(url@),
            None => None,
        }
    }

    /// What is written.
    pub open spec fn written(&self) -> LineView {
        written_view(snapshot_view(*self.snapshot), self.context@, self.inferred())
    }

    /// The canonical line, unless a value that would have to be escaped stands in the way.
    ///
    /// Parsing the line gives back what was written, for every snapshot with an expected digest as
    /// long as a digest, a timestamp of the years 1000 to 9999, and a canonical format.
    pub fn to_string(&self) -> (line: Result<String, Unwritable>)
        ensures
            match line {
                Ok(line) => {
                    &&& is_writable(self.written())
                    &&& line@ == line_text(self.written())
                    &&& is_canonical_line(self.written()) ==> parse_line(line@) == Some(
                        self.written(),
                    )
                },
                Err(_) => !is_writable(self.written()),
            },
    {
        let snapshot = self.snapshot;
        let ghost written = self.written();
        let mut line = String::new();
        append(&mut line, DIGEST_START);
        let digest = snapshot.digest.to_string();
        append(&mut line, digest.as_str());
        append(&mut line, "\",");
        let ghost part = line@;
        match &snapshot.expected_digest {
            Some(expected) => {
                let expected = borrow_str(expected);
                // Values are written verbatim; one that would need JSON escaping cannot be
                // represented in the canonical form and must not corrupt the output line.
                if needs_json_escaping(expected) {
                    return Err(Unwritable);
                }
                append_field(&mut line, EXPECTED_DIGEST_KEY, expected);
            },
            None => {},
        }
        assert(line@ =~= part + optional_field(EXPECTED_DIGEST_KEY@, written.expected_digest));
        let ghost part = line@;
        match snapshot.timestamp {
            Some(timestamp) => {
                let timestamp = timestamp.to_string();
                append_field(&mut line, TIMESTAMP_KEY, timestamp.as_str());
            },
            None => {},
        }
        assert(line@ =~= part + optional_field(TIMESTAMP_KEY@, timestamp_field(written.timestamp)));
        let ghost part = line@;
        match &snapshot.url {
            Some(url) => {
                let url = borrow_str(url);
                let inferred: bool = match self.inferred_url {
                    Some(inferred) => same_str(inferred, url),
                    None => false,
                };
                if !inferred {
                    if needs_json_escaping(url) {
                        return Err(Unwritable);
                    }
                    append_field(&mut line, URL_KEY, url);
                }
            },
            None => {},
        }
        assert(line@ =~= part + optional_field(URL_KEY@, written.url));
        let ghost part = line@;
        match self.format_text() {
            Ok(text) => append(&mut line, text.as_str()),
            Err(error) => return Err(error),
        }
        line.push('"');
        append(&mut line, CONTENT_KEY);
        append(&mut line, VALUE_START);
        append(&mut line, snapshot.content.as_str());
        line.push('}');
        assert(line@ =~= line_text(written));
        proof {
            if is_canonical_line(written) {
                lemma_line_parses_back(written);
            }
        }
        Ok(line)
    }

    /// The `format` field of the line.
    fn format_text(&self) -> (text: Result<String, Unwritable>)
        ensures
            match text {
                Ok(text) => {
                    &&& json::are_json(self.written().format.metadata)
                    &&& text@ == format_field(self.written().format)
                    &&& crate::format::is_canonical(self.written().format)
                        ==> format_reads_back(self.written().format)
                },
                Err(_) => !json::are_json(self.written().format.metadata),
            },
    {
        let format = &self.snapshot.format;
        let ghost written = self.written().format;
        let closing_whitespace: Option<&Vec<char>> = match &format.closing_whitespace {
            Some(whitespace) => if same_chars(
                whitespace,
                self.context.default_closing_whitespace(),
            ) {
                None
            } else {
                Some(whitespace)
            },
            None => None,
        };
        let plain: bool = match &format.name {
            crate::format::Format::Utf8 => closing_whitespace.is_none() && format.metadata.len()
                == 0,
            crate::format::Format::Other(_) => false,
        };
        let mut text = String::new();
        if plain {
            assert(written.metadata =~= Seq::empty());
            assert(written =~= plain_format());
            return Ok(text);
        }
        assert(written != plain_format()) by {
            if written.name is None && written.closing_whitespace is None {
                assert(written.metadata.len() > 0);
            }
        }
        let mut i: usize = 0;
        while i < format.metadata.len()
            invariant
                i <= format.metadata@.len(),
                written == self.written().format,
                written.metadata == pairs::pair_views(format.metadata@),
                forall|k: int| 0 <= k < i ==> json::is_json((#[trigger] written.metadata[k]).1),
            decreases format.metadata@.len() - i,
        {
            if !check_json(format.metadata[i].1.as_str()) {
                assert(!json::is_json(written.metadata[i as int].1));
                return Err(Unwritable);
            }
            i = i + 1;
        }
        let fields = format.to_fields(closing_whitespace);
        proof {
            let all = pairs::pair_views(fields@);
            assert(all == crate::format::format_fields(written));
            let head = all.len() - written.metadata.len();
            assert forall|k: int| 0 <= k < all.len() implies json::is_json((#[trigger] all[k]).1) by {
                if k >= head {
                    assert(all[k] == written.metadata[k - head]);
                }
            }
        }
        let object = object_text(&fields);
        proof {
            if crate::format::is_canonical(written) {
                crate::format::lemma_format_reads_back(written);
            }
        }
        text.push('"');
        append(&mut text, FORMAT_KEY);
        append(&mut text, VALUE_START);
        append(&mut text, object.as_str());
        text.push(',');
        assert(text@ =~= format_field(written));
        Ok(text)
    }
}

impl<'a> Snapshot<'a, ExactContent<'a>> {
    /// Borrow a serializable view of this snapshot under `context`.
    ///
    /// The context supplies the default closing whitespace (so a matching `closing_whitespace` field
    /// is omitted), and `inferred_url` is what its URL query gives for the content (so an equal
    /// `url` field is omitted).
    pub fn display<'c>(
        &'c self,
        context: &'c Context,
        inferred_url: Option<&'c str>,
    ) -> (display: SnapshotDisplay<'c, 'a>)
        ensures
            display.snapshot == self,
            display.context == context,
            display.inferred_url == inferred_url,
    {
        SnapshotDisplay { snapshot: self, context, inferred_url }
    }
}

/// Whether a snapshot is one that its line gives back: its expected digest is as long as a digest,
/// its timestamp lies in the years 1000 to 9999, and its format is canonical.
pub open spec fn is_canonical_line(view: LineView) -> bool {
    &&& view.digest < digest::digest_limit()
    &&& view.expected_digest matches Some(expected) ==> chars_in(expected, DIGEST_LEN as nat)
        == Some(expected.len())
    &&& view.timestamp matches Some(timestamp) ==> timestamp::is_supported(timestamp)
    &&& crate::format::is_canonical(view.format)
}

/// Whether the `format` object of a snapshot, once it is written, reads back.
pub open spec fn format_reads_back(format: FormatView) -> bool {
    let object = json::json_object_text(crate::format::format_fields(format));
    format == plain_format() || {
        &&& json::object_len(object) == Some(object.len())
        &&& json::json_fields(object) matches Some(fields)
        &&& crate::format::format_of(fields) == Some(format)
    }
}

proof fn lemma_strip(literal: Seq<char>, rest: Seq<char>)
    ensures
        strip(literal + rest, literal) == Some(rest),
{
    assert((literal + rest).subrange(0, literal.len() as int) =~= literal);
    assert((literal + rest).skip(literal.len() as int) =~= rest);
}

/// A text that starts with another character does not start with the literal.
proof fn lemma_no_strip(s: Seq<char>, literal: Seq<char>)
    requires
        s.len() > 0,
        literal.len() > 0,
        s[0] != literal[0],
    ensures
        strip(s, literal) is None,
{
    if text::has_at(s, 0, literal) {
        assert(s.subrange(0, literal.len() as int)[0] == literal[0]);
    }
}

proof fn lemma_chars_in_prefix(a: Seq<char>, b: Seq<char>, bytes: nat)
    requires
        chars_in(a, bytes) is Some,
    ensures
        chars_in(a + b, bytes) == chars_in(a, bytes),
    decreases a.len(),
{
    if bytes != 0 {
        assert((a + b).drop_first() =~= a.drop_first() + b);
        lemma_chars_in_prefix(a.drop_first(), b, (bytes - char_width(a[0])) as nat);
    }
}

proof fn lemma_scan_prefix(a: Seq<char>, b: Seq<char>, scan: json::BraceScan)
    requires
        json::scan_end(a, scan) is Some,
    ensures
        json::scan_end(a + b, scan) == json::scan_end(a, scan),
    decreases a.len(),
{
    assert((a + b)[0] == a[0]);
    assert((a + b).drop_first() =~= a.drop_first() + b);
    let next = json::scan_step(scan, a[0]);
    if scan.in_string || a[0] != '}' || next.depth != 0 {
        lemma_scan_prefix(a.drop_first(), b, next);
    }
}

/// The object that a text starts with is the one that it starts with before more text.
proof fn lemma_object_prefix(object: Seq<char>, after: Seq<char>)
    requires
        json::object_len(object) == Some(object.len()),
    ensures
        json::object_len(object + after) == Some(object.len()),
        (object + after).skip(object.len() as int) == after,
        (object + after).take(object.len() as int) == object,
{
    lemma_scan_prefix(
        object,
        after,
        json::BraceScan { depth: 0, in_string: false, escaped: false },
    );
    assert((object + after)[0] == object[0]);
    assert((object + after).skip(object.len() as int) =~= after);
    assert((object + after).take(object.len() as int) =~= object);
}

/// The `format` field reads back as the format.
#[verifier::spinoff_prover]
proof fn lemma_format_stage(format: FormatView, rest: Seq<char>)
    requires
        format_reads_back(format),
        rest.len() > 0,
        rest[0] == 'c',
    ensures
        read_format(after_format_quote(format, rest)) == Some((format, rest)),
{
    reveal_strlit("format");
    if format == plain_format() {
        lemma_no_strip(rest, FORMAT_KEY@);
    } else {
        let object = json::json_object_text(crate::format::format_fields(format));
        let after = NEXT_KEY_AFTER_OBJECT@ + rest;
        lemma_regroup_field(FORMAT_KEY@, VALUE_START@, object, NEXT_KEY_AFTER_OBJECT@, rest);
        lemma_strip(FORMAT_KEY@, VALUE_START@ + (object + after));
        lemma_strip(VALUE_START@, object + after);
        lemma_object_prefix(object, after);
        lemma_strip(NEXT_KEY_AFTER_OBJECT@, rest);
        assert(strip(after_format_quote(format, rest), FORMAT_KEY@) == Some(
            VALUE_START@ + (object + after),
        ));
        assert(strip(VALUE_START@ + (object + after), VALUE_START@) == Some(object + after));
        assert(strip(after, NEXT_KEY_AFTER_OBJECT@) == Some(rest));
    }
}

/// The URL field reads back as the URL.
proof fn lemma_url_stage(url: Option<Seq<char>>, rest: Seq<char>)
    requires
        url matches Some(url) ==> !must_escape(url),
        rest.len() > 0,
        rest[0] == 'c' || rest[0] == 'f',
    ensures
        read_url(after_quote(URL_KEY@, url, rest)) == Some((url, rest)),
{
    reveal_strlit("url");
    match url {
        None => {
            lemma_no_strip(rest, URL_KEY@);
        },
        Some(url) => {
            let after = NEXT_KEY@ + rest;
            let value = url + after;
            lemma_regroup_field(URL_KEY@, STRING_START@, url, NEXT_KEY@, rest);
            lemma_strip(URL_KEY@, STRING_START@ + value);
            lemma_strip(STRING_START@, value);
            lemma_string_len(url, rest);
            assert(value.skip(url.len() as int) =~= after);
            assert(value.take(url.len() as int) =~= url);
            lemma_strip(NEXT_KEY@, rest);
        },
    }
}

/// A text that needs no escaping ends at the quote that follows it.
proof fn lemma_string_len(value: Seq<char>, rest: Seq<char>)
    requires
        !must_escape(value),
    ensures
        string_len(value + (NEXT_KEY@ + rest)) == Some(value.len()),
{
    reveal_strlit("\",\"");
    let s = value + (NEXT_KEY@ + rest);
    assert forall|i: int| 0 <= i < value.len() implies s[i] != '"' && s[i] != '\\' by {
        assert(!is_escaped_char(value[i]));
    }
    assert(s[value.len() as int] == '"');
    text::lemma_first_index_unique(s, '"', value.len() as int);
    text::lemma_first_index(s, '\\');
}

proof fn lemma_regroup_field(
    a: Seq<char>,
    b: Seq<char>,
    c: Seq<char>,
    d: Seq<char>,
    e: Seq<char>,
)
    ensures
        a + b + c + d + e == a + (b + (c + (d + e))),
{
    assert(a + b + c + d + e =~= a + (b + (c + (d + e))));
}

/// The timestamp field reads back as the timestamp.
proof fn lemma_timestamp_stage(timestamp: Option<int>, rest: Seq<char>)
    requires
        timestamp matches Some(timestamp) ==> timestamp::is_supported(timestamp),
        rest.len() > 0,
        rest[0] == 'c' || rest[0] == 'f' || rest[0] == 'u',
    ensures
        read_timestamp(after_quote(TIMESTAMP_KEY@, timestamp_field(timestamp), rest)) == Some(
            (timestamp, rest),
        ),
{
    reveal_strlit("timestamp");
    match timestamp {
        None => {
            lemma_no_strip(rest, TIMESTAMP_KEY@);
        },
        Some(timestamp) => {
            timestamp::law_timestamp_text_parses_back(timestamp);
            let digits = timestamp::timestamp_text(timestamp);
            let after = NEXT_KEY@ + rest;
            lemma_regroup_field(TIMESTAMP_KEY@, STRING_START@, digits, NEXT_KEY@, rest);
            lemma_strip(TIMESTAMP_KEY@, STRING_START@ + (digits + after));
            lemma_strip(STRING_START@, digits + after);
            assert((digits + after).take(TIMESTAMP_LEN as int) =~= digits);
            assert((digits + after).skip(TIMESTAMP_LEN as int) =~= after);
            lemma_strip(NEXT_KEY@, rest);
        },
    }
}

/// The expected digest field reads back as the expected digest.
proof fn lemma_expected_stage(expected: Option<Seq<char>>, rest: Seq<char>)
    requires
        expected matches Some(expected) ==> chars_in(expected, DIGEST_LEN as nat) == Some(
            expected.len(),
        ),
        rest.len() > 0,
        rest[0] == 'c' || rest[0] == 'f' || rest[0] == 'u' || rest[0] == 't',
    ensures
        read_expected(after_quote(EXPECTED_DIGEST_KEY@, expected, rest)) == Some((expected, rest)),
{
    reveal_strlit("expected_digest");
    match expected {
        None => {
            lemma_no_strip(rest, EXPECTED_DIGEST_KEY@);
        },
        Some(expected) => {
            let after = NEXT_KEY@ + rest;
            lemma_regroup_field(EXPECTED_DIGEST_KEY@, STRING_START@, expected, NEXT_KEY@, rest);
            lemma_strip(EXPECTED_DIGEST_KEY@, STRING_START@ + (expected + after));
            lemma_strip(STRING_START@, expected + after);
            lemma_chars_in_prefix(expected, after, DIGEST_LEN as nat);
            assert((expected + after).take(expected.len() as int) =~= expected);
            assert((expected + after).skip(expected.len() as int) =~= after);
            lemma_strip(NEXT_KEY@, rest);
        },
    }
}

/// An optional field, and what follows it up to the next closing quote.
pub open spec fn after_quote(key: Seq<char>, value: Option<Seq<char>>, rest: Seq<char>) -> Seq<char> {
    match value {
        None => rest,
        Some(value) => key + STRING_START@ + value + NEXT_KEY@ + rest,
    }
}

/// The quote before a field can be counted to what stands before it.
proof fn lemma_field_quote(key: Seq<char>, value: Option<Seq<char>>, rest: Seq<char>)
    ensures
        optional_field(key, value) + (seq!['"'] + rest) == seq!['"'] + after_quote(
            key,
            value,
            rest,
        ),
{
    reveal_strlit("\",\"");
    reveal_strlit("\",");
    assert(NEXT_KEY@ =~= "\","@ + seq!['"']);
    assert(optional_field(key, value) + (seq!['"'] + rest) =~= seq!['"'] + after_quote(
        key,
        value,
        rest,
    ));
}

/// The `format` field, if there is one, and what follows it up to the next quote.
pub open spec fn after_format_quote(format: FormatView, rest: Seq<char>) -> Seq<char> {
    if format == plain_format() {
        rest
    } else {
        FORMAT_KEY@ + VALUE_START@ + json::json_object_text(
            crate::format::format_fields(format),
        ) + NEXT_KEY_AFTER_OBJECT@ + rest
    }
}

/// The quote before the `format` field can be counted to what stands before it.
proof fn lemma_format_quote(format: FormatView, rest: Seq<char>)
    ensures
        format_field(format) + (seq!['"'] + rest) == seq!['"'] + after_format_quote(format, rest),
{
    reveal_strlit(",\"");
    assert(NEXT_KEY_AFTER_OBJECT@ =~= seq![','] + seq!['"']);
    assert(format_field(format) + (seq!['"'] + rest) =~= seq!['"'] + after_format_quote(
        format,
        rest,
    ));
}

proof fn lemma_next_key()
    ensures
        NEXT_KEY@ == "\","@ + seq!['"'],
{
    reveal_strlit("\",\"");
    reveal_strlit("\",");
    assert(NEXT_KEY@ =~= "\","@ + seq!['"']);
}

proof fn lemma_regroup(
    a: Seq<char>,
    b: Seq<char>,
    c: Seq<char>,
    d: Seq<char>,
    e: Seq<char>,
    f: Seq<char>,
)
    ensures
        a + b + c + d + e + f == a + (b + (c + (d + (e + f)))),
{
    assert(a + b + c + d + e + f =~= a + (b + (c + (d + (e + f)))));
}

proof fn lemma_regroup_tail(
    a: Seq<char>,
    b: Seq<char>,
    c: Seq<char>,
    d: Seq<char>,
    e: Seq<char>,
    f: Seq<char>,
)
    ensures
        a + b + c + d + e + f == a + (b + c + d + e + f),
{
    assert(a + b + c + d + e + f =~= a + (b + c + d + e + f));
}

proof fn lemma_regroup_head(
    a: Seq<char>,
    b: Seq<char>,
    c: Seq<char>,
    d: Seq<char>,
    e: Seq<char>,
)
    ensures
        a + b + c + (d + e) == a + (b + ((c + d) + e)),
{
    assert(a + b + c + (d + e) =~= a + (b + ((c + d) + e)));
}

/// A line is the digest, and after it each field with the quote before it counted to what stands
/// before it.
proof fn lemma_line_shape(view: LineView, r5: Seq<char>, r4: Seq<char>, r3: Seq<char>, r2: Seq<char>)
    requires
        r5 == CONTENT_KEY@ + (VALUE_START@ + (view.content + seq!['}'])),
        r4 == after_format_quote(view.format, r5),
        r3 == after_quote(URL_KEY@, view.url, r4),
        r2 == after_quote(TIMESTAMP_KEY@, timestamp_field(view.timestamp), r3),
    ensures
        line_text(view) == DIGEST_START@ + (digest::digest_text(view.digest) + (NEXT_KEY@
            + after_quote(EXPECTED_DIGEST_KEY@, view.expected_digest, r2))),
{
    let quote = seq!['"'];
    let head = DIGEST_START@ + digest::digest_text(view.digest) + "\","@;
    let f1 = optional_field(EXPECTED_DIGEST_KEY@, view.expected_digest);
    let f2 = optional_field(TIMESTAMP_KEY@, timestamp_field(view.timestamp));
    let f3 = optional_field(URL_KEY@, view.url);
    let f4 = format_field(view.format);
    let f5 = quote + r5;
    let r1 = after_quote(EXPECTED_DIGEST_KEY@, view.expected_digest, r2);
    let tail = quote + CONTENT_KEY@ + VALUE_START@ + view.content + seq!['}'];
    assert(tail =~= f5);
    assert(line_text(view) == head + f1 + f2 + f3 + f4 + quote + CONTENT_KEY@ + VALUE_START@
        + view.content + seq!['}']);
    lemma_regroup_tail(
        head + f1 + f2 + f3 + f4,
        quote,
        CONTENT_KEY@,
        VALUE_START@,
        view.content,
        seq!['}'],
    );
    lemma_regroup(head, f1, f2, f3, f4, f5);
    lemma_format_quote(view.format, r5);
    lemma_field_quote(URL_KEY@, view.url, r4);
    lemma_field_quote(TIMESTAMP_KEY@, timestamp_field(view.timestamp), r3);
    lemma_field_quote(EXPECTED_DIGEST_KEY@, view.expected_digest, r2);
    lemma_next_key();
    lemma_regroup_head(DIGEST_START@, digest::digest_text(view.digest), "\","@, quote, r1);
}

/// The digest at the start of a line reads back as the digest.
proof fn lemma_digest_stage(n: nat, rest: Seq<char>)
    requires
        n < digest::digest_limit(),
    ensures
        read_digest(DIGEST_START@ + (digest::digest_text(n) + (NEXT_KEY@ + rest))) == Some(
            (n, rest),
        ),
{
    digest::lemma_digest_text_reads(n);
    let text = digest::digest_text(n);
    let after = text + (NEXT_KEY@ + rest);
    lemma_strip(DIGEST_START@, after);
    assert(after.take(DIGEST_LEN as int) =~= text);
    assert(after.skip(DIGEST_LEN as int) =~= NEXT_KEY@ + rest);
    lemma_strip(NEXT_KEY@, rest);
}

/// The content at the end of a line reads back as the content.
proof fn lemma_content_stage(content: Seq<char>)
    ensures
        read_content(CONTENT_KEY@ + (VALUE_START@ + (content + seq!['}']))) == Some(content),
        (CONTENT_KEY@ + (VALUE_START@ + (content + seq!['}'])))[0] == 'c',
        (CONTENT_KEY@ + (VALUE_START@ + (content + seq!['}']))).len() > 0,
{
    reveal_strlit("content");
    lemma_strip(CONTENT_KEY@, VALUE_START@ + (content + seq!['}']));
    lemma_strip(VALUE_START@, content + seq!['}']);
    assert((content + seq!['}']).drop_last() =~= content);
}

/// What a field starts with.
proof fn lemma_first_char(key: Seq<char>, value: Option<Seq<char>>, rest: Seq<char>)
    requires
        key.len() > 0,
        rest.len() > 0,
    ensures
        after_quote(key, value, rest).len() > 0,
        after_quote(key, value, rest)[0] == if value is Some {
            key[0]
        } else {
            rest[0]
        },
{
}

/// A canonical line parses back to the snapshot that it was written for.
proof fn lemma_line_parses_back(view: LineView)
    requires
        is_canonical_line(view),
        is_writable(view),
        format_reads_back(view.format),
    ensures
        parse_line(line_text(view)) == Some(view),
{
    let r5 = CONTENT_KEY@ + (VALUE_START@ + (view.content + seq!['}']));
    let r4 = after_format_quote(view.format, r5);
    let r3 = after_quote(URL_KEY@, view.url, r4);
    let stamp = timestamp_field(view.timestamp);
    let r2 = after_quote(TIMESTAMP_KEY@, stamp, r3);
    let r1 = after_quote(EXPECTED_DIGEST_KEY@, view.expected_digest, r2);
    lemma_line_shape(view, r5, r4, r3, r2);
    lemma_digest_stage(view.digest, r1);
    lemma_content_stage(view.content);
    assert(r4.len() > 0 && (r4[0] == 'c' || r4[0] == 'f')) by {
        reveal_strlit("format");
    }
    assert(URL_KEY@.len() > 0 && URL_KEY@[0] == 'u') by {
        reveal_strlit("url");
    }
    assert(TIMESTAMP_KEY@.len() > 0 && TIMESTAMP_KEY@[0] == 't') by {
        reveal_strlit("timestamp");
    }
    lemma_first_char(URL_KEY@, view.url, r4);
    lemma_first_char(TIMESTAMP_KEY@, stamp, r3);
    lemma_expected_stage(view.expected_digest, r2);
    lemma_timestamp_stage(view.timestamp, r3);
    lemma_url_stage(view.url, r4);
    lemma_format_stage(view.format, r5);
}

/// What follows the URL of a line, or the place where it would stand.
pub open spec fn after_url(line: Seq<char>) -> Option<Seq<char>> {
    match read_digest(line) {
        None => None,
        Some((_, rest)) => match read_expected(rest) {
            None => None,
            Some((_, rest)) => match read_timestamp(rest) {
                None => None,
                Some((_, rest)) => match read_url(rest) {
                    None => None,
                    Some((_, rest)) => Some(rest),
                },
            },
        },
    }
}

proof fn lemma_strip_inverse(s: Seq<char>, literal: Seq<char>)
    ensures
        strip(s, literal) matches Some(rest) ==> s == literal + rest,
{
    if let Some(rest) = strip(s, literal) {
        assert(s =~= s.subrange(0, literal.len() as int) + s.skip(literal.len() as int));
    }
}

/// What a stage read, followed by what it left, is what it was given.
proof fn lemma_stage_inverse(s: Seq<char>, key: Seq<char>, n: int, rest: Seq<char>)
    requires
        strip(s, key) matches Some(r1) && (strip(r1, STRING_START@) matches Some(r2) && 0 <= n
            <= r2.len() && strip(r2.skip(n), NEXT_KEY@) == Some(rest)),
    ensures
        strip(s, key) matches Some(r1) && (strip(r1, STRING_START@) matches Some(r2) && s
            == after_quote(key, Some(r2.take(n)), rest)),
{
    let r1 = strip(s, key).unwrap();
    let r2 = strip(r1, STRING_START@).unwrap();
    lemma_strip_inverse(s, key);
    lemma_strip_inverse(r1, STRING_START@);
    lemma_strip_inverse(r2.skip(n), NEXT_KEY@);
    assert(r2 =~= r2.take(n) + r2.skip(n));
    lemma_regroup_field(key, STRING_START@, r2.take(n), NEXT_KEY@, rest);
}

proof fn lemma_chars_in_bound(s: Seq<char>, bytes: nat)
    ensures
        chars_in(s, bytes) matches Some(n) ==> n <= s.len(),
    decreases s.len(),
{
    if bytes != 0 && s.len() != 0 && char_width(s[0]) <= bytes {
        lemma_chars_in_bound(s.drop_first(), (bytes - char_width(s[0])) as nat);
    }
}

proof fn lemma_digest_inverse(s: Seq<char>)
    ensures
        read_digest(s) matches Some((n, rest)) ==> s == DIGEST_START@ + (digest::digest_text(n) + (
        NEXT_KEY@ + rest)),
{
    if let Some((n, after)) = read_digest(s) {
        let rest = strip(s, DIGEST_START@).unwrap();
        let text = rest.take(DIGEST_LEN as int);
        lemma_strip_inverse(s, DIGEST_START@);
        lemma_strip_inverse(rest.skip(DIGEST_LEN as int), NEXT_KEY@);
        digest::law_digest_parse_writes_back(text);
        assert(rest =~= text + rest.skip(DIGEST_LEN as int));
    }
}

proof fn lemma_expected_inverse(s: Seq<char>)
    ensures
        read_expected(s) matches Some((expected, rest)) ==> s == after_quote(
            EXPECTED_DIGEST_KEY@,
            expected,
            rest,
        ),
{
    if let Some((_, after)) = read_expected(s) {
        if strip(s, EXPECTED_DIGEST_KEY@) is Some {
            let rest = strip(strip(s, EXPECTED_DIGEST_KEY@).unwrap(), STRING_START@).unwrap();
            let k = chars_in(rest, DIGEST_LEN as nat).unwrap();
            lemma_chars_in_bound(rest, DIGEST_LEN as nat);
            lemma_stage_inverse(s, EXPECTED_DIGEST_KEY@, k as int, after);
        }
    }
}

proof fn lemma_timestamp_inverse(s: Seq<char>)
    ensures
        read_timestamp(s) matches Some((stamp, rest)) ==> s == after_quote(
            TIMESTAMP_KEY@,
            timestamp_field(stamp),
            rest,
        ),
{
    if let Some((_, after)) = read_timestamp(s) {
        if strip(s, TIMESTAMP_KEY@) is Some {
            let rest = strip(strip(s, TIMESTAMP_KEY@).unwrap(), STRING_START@).unwrap();
            lemma_stage_inverse(s, TIMESTAMP_KEY@, TIMESTAMP_LEN as int, after);
            timestamp::law_timestamp_parse_writes_back(rest.take(TIMESTAMP_LEN as int));
        }
    }
}

proof fn lemma_url_inverse(s: Seq<char>)
    ensures
        read_url(s) matches Some((url, rest)) ==> s == after_quote(URL_KEY@, url, rest),
{
    if let Some((_, after)) = read_url(s) {
        if strip(s, URL_KEY@) is Some {
            let rest = strip(strip(s, URL_KEY@).unwrap(), STRING_START@).unwrap();
            let k = string_len(rest).unwrap();
            text::lemma_first_index(rest, '"');
            lemma_stage_inverse(s, URL_KEY@, k as int, after);
        }
    }
}

proof fn lemma_content_inverse(s: Seq<char>)
    ensures
        read_content(s) matches Some(content) ==> s == CONTENT_KEY@ + (VALUE_START@ + (content
            + seq!['}'])),
{
    if let Some(content) = read_content(s) {
        let rest = strip(s, CONTENT_KEY@).unwrap();
        let value = strip(rest, VALUE_START@).unwrap();
        lemma_strip_inverse(s, CONTENT_KEY@);
        lemma_strip_inverse(rest, VALUE_START@);
        assert(value =~= content + seq!['}']);
    }
}

/// A line that parses and has no `format` field is, byte for byte, the line that is written for
/// what it says.
pub proof fn law_line_writes_back(line: Seq<char>)
    requires
        parse_line(line) is Some,
        strip(after_url(line).unwrap(), FORMAT_KEY@) is None,
    ensures
        line_text(parse_line(line).unwrap()) == line,
        parse_line(line).unwrap().format == plain_format(),
{
    let view = parse_line(line).unwrap();
    let (n, r1) = read_digest(line).unwrap();
    let (expected, r2) = read_expected(r1).unwrap();
    let (stamp, r3) = read_timestamp(r2).unwrap();
    let (url, r4) = read_url(r3).unwrap();
    let r5 = r4;
    assert(read_format(r4) == Some((plain_format(), r5)));
    lemma_digest_inverse(line);
    lemma_expected_inverse(r1);
    lemma_timestamp_inverse(r2);
    lemma_url_inverse(r3);
    lemma_content_inverse(r5);
    lemma_line_shape(view, r5, r4, r3, r2);
}

/// The hexadecimal digits of a number, in lower case and without leading zeros.
pub open spec fn hex_text(n: nat) -> Seq<char>
    decreases n,
{
    let digit = if n % 16 < 10 {
        ('0' as u32 + n % 16) as char
    } else {
        ('a' as u32 + (n % 16 - 10)) as char
    };
    if n < 16 {
        seq![digit]
    } else {
        hex_text(n / 16).push(digit)
    }
}

/// A character as it is written in a diagnostic: tabs, carriage returns, line feeds, quotes and
/// backslashes as two characters, other printable ASCII as it is, and everything else by its number.
pub open spec fn escaped(c: char) -> Seq<char> {
    if c == '\t' {
        seq!['\\', 't']
    } else if c == '\r' {
        seq!['\\', 'r']
    } else if c == '\n' {
        seq!['\\', 'n']
    } else if c == '\'' || c == '"' || c == '\\' {
        seq!['\\', c]
    } else if 0x20 <= (c as u32) <= 0x7e {
        seq![c]
    } else {
        seq!['\\', 'u', '{'] + hex_text((c as u32) as nat) + seq!['}']
    }
}

/// The characters of a text as they are written in a diagnostic.
pub open spec fn escaped_text(s: Seq<char>) -> Seq<char>
    decreases s.len(),
{
    if s.len() == 0 {
        Seq::empty()
    } else {
        escaped_text(s.drop_last()) + escaped(s.last())
    }
}

/// Appends the hexadecimal digits of a number.
fn push_hex(out: &mut Vec<char>, n: u32)
    ensures
        final(out)@ == old(out)@ + hex_text(n as nat),
    decreases n,
{
    let digit: u8 = (n % 16) as u8;
    let c: char = if digit < 10 {
        ('0' as u8 + digit) as char
    } else {
        ('a' as u8 + (digit - 10)) as char
    };
    if n >= 16 {
        push_hex(out, n / 16);
    }
    out.push(c);
    assert(out@ =~= old(out)@ + hex_text(n as nat));
}

/// Format a closing-whitespace sequence as a human-readable escaped string.
///
/// This is a diagnostic formatter: a character that is not JSON whitespace (which validated
/// snapshots never contain) is rendered visibly rather than silently dropped, so a corrupt sequence
/// remains recognizable in log output.
pub fn format_closing_whitespace(whitespace: &[char]) -> (text: String)
    ensures
        text@ == escaped_text(whitespace@),
{
    let mut out: Vec<char> = Vec::new();
    let mut i: usize = 0;
    assert(out@ =~= escaped_text(whitespace@.take(0)));
    while i < whitespace.len()
        invariant
            i <= whitespace@.len(),
            out@ == escaped_text(whitespace@.take(i as int)),
        decreases whitespace@.len() - i,
    {
        let ghost before = out@;
        let c = whitespace[i];
        let code: u32 = c as u32;
        match c {
            '\t' => {
                out.push('\\');
                out.push('t');
            },
            '\r' => {
                out.push('\\');
                out.push('r');
            },
            '\n' => {
                out.push('\\');
                out.push('n');
            },
            '\'' | '"' | '\\' => {
                out.push('\\');
                out.push(c);
            },
            _ => if 0x20 <= code && code <= 0x7e {
                out.push(c);
            } else {
                out.push('\\');
                out.push('u');
                out.push('{');
                push_hex(&mut out, code);
                out.push('}');
            },
        }
        proof {
            assert(out@ =~= before + escaped(c));
            assert(whitespace@.take(i + 1).drop_last() =~= whitespace@.take(i as int));
            assert(whitespace@.take(i + 1).last() == c);
        }
        i = i + 1;
    }
    assert(whitespace@.take(i as int) =~= whitespace@);
    string_of(&out)
}

impl<'a> Snapshot<'a, ExactContent<'a>> {
    /// The same snapshot, holding copies of its texts.
    pub fn into_static(self) -> (copy: ExactSnapshot<'static>)
        ensures
            snapshot_view(copy) == snapshot_view(self),
    {
        Snapshot {
            digest: self.digest,
            expected_digest: match &self.expected_digest {
                Some(expected) => Some(own_cow(expected)),
                None => None,
            },
            timestamp: self.timestamp,
            url: match &self.url {
                Some(url) => Some(own_cow(url)),
                None => None,
            },
            format: self.format,
            content: ExactContent(own_cow(&self.content.0)),
        }
    }
}

/// What is written of a snapshot is all of it but what the context already says: its URL is left out exactly
/// if the context infers the same, and its closing whitespace exactly if it is that of the context.
pub proof fn law_lines_leave_out_what_is_implied(
    view: LineView,
    default: Seq<char>,
    inferred: Option<Seq<char>>,
)
    ensures
        ({
            let written = written_view(view, default, inferred);
            &&& written.digest == view.digest
            &&& written.expected_digest == view.expected_digest
            &&& written.timestamp == view.timestamp
            &&& written.content == view.content
            &&& written.format.name == view.format.name
            &&& written.format.metadata == view.format.metadata
            &&& view.url is Some && view.url != inferred ==> written.url == view.url
            &&& view.url is None || view.url == inferred ==> written.url is None
            &&& view.format.closing_whitespace matches Some(whitespace) ==> {
                if whitespace == default {
                    written.format.closing_whitespace is None
                } else {
                    written.format.closing_whitespace == Some(whitespace)
                }
            }
            &&& view.format.closing_whitespace is None ==> written.format.closing_whitespace is None
        }),
{
}

/// A snapshot can be written exactly if no quote, backslash or control character is in its URL or expected
/// digest, and the values of its metadata are JSON.
pub proof fn law_which_snapshots_are_writable(view: LineView)
    ensures
        is_writable(view) <==> {
            let is_plain = |text: Seq<char>|
                forall|i: int|
                    0 <= i < text.len() ==> ({
                        let c = #[trigger] text[i];
                        &&& c != '"'
                        &&& c != '\\'
                        &&& (c as u32) >= 0x20
                        &&& !(0x7f <= (c as u32) <= 0x9f)
                    });
            &&& view.expected_digest matches Some(expected) ==> is_plain(expected)
            &&& view.url matches Some(url) ==> is_plain(url)
            &&& forall|i: int|
                0 <= i < view.format.metadata.len() ==> json::json_raw(
                    (#[trigger] view.format.metadata[i]).1,
                ) == Some(view.format.metadata[i].1)
        },
{
    if let Some(expected) = view.expected_digest {
        lemma_plain_text(expected);
    }
    if let Some(url) = view.url {
        lemma_plain_text(url);
    }
    let metadata = view.format.metadata;
    if forall|i: int|
        0 <= i < metadata.len() ==> json::json_raw((#[trigger] metadata[i]).1) == Some(metadata[i].1) {
        assert(json::are_json(metadata));
    }
}

/// A text needs no escaping exactly if it has no quote, backslash or control character.
proof fn lemma_plain_text(text: Seq<char>)
    ensures
        !must_escape(text) <==> forall|i: int|
            0 <= i < text.len() ==> ({
                let c = #[trigger] text[i];
                &&& c != '"'
                &&& c != '\\'
                &&& (c as u32) >= 0x20
                &&& !(0x7f <= (c as u32) <= 0x9f)
            }),
{
    if !must_escape(text) {
        assert forall|i: int| 0 <= i < text.len() implies ({
            let c = #[trigger] text[i];
            &&& c != '"'
            &&& c != '\\'
            &&& (c as u32) >= 0x20
            &&& !(0x7f <= (c as u32) <= 0x9f)
        }) by {
            assert(!is_escaped_char(text[i]));
        }
    }
}

/// How many characters take up a number of bytes goes by how many bytes UTF-8 takes for each: the characters
/// that are found take exactly as many.
pub proof fn law_characters_by_bytes(s: Seq<char>, bytes: nat)
    ensures
        match chars_in(s, bytes) {
            Some(n) => n <= s.len() && vstd::utf8::encode_utf8(s.take(n as int)).len() == bytes,
            None => forall|n: int|
                0 <= n <= s.len() ==> vstd::utf8::encode_utf8(#[trigger] s.take(n)).len() != bytes,
        },
    decreases s.len(),
{
    if bytes == 0 {
        assert(s.take(0) =~= Seq::empty());
    } else if s.len() == 0 {
        assert forall|n: int| 0 <= n <= s.len() implies vstd::utf8::encode_utf8(
            #[trigger] s.take(n),
        ).len() != bytes by {
            assert(s.take(n) =~= Seq::empty());
        }
    } else {
        let width = char_width(s[0]);
        vstd::utf8::char_is_scalar(s[0]);
        assert(vstd::utf8::encode_scalar(s[0] as u32).len() == width);
        if width <= bytes {
            law_characters_by_bytes(s.drop_first(), (bytes - width) as nat);
        }
        assert forall|n: int| 0 < n <= s.len() implies vstd::utf8::encode_utf8(
            #[trigger] s.take(n),
        ).len() == width + vstd::utf8::encode_utf8(s.drop_first().take(n - 1)).len() by {
            assert(s.take(n).drop_first() =~= s.drop_first().take(n - 1));
            assert(s.take(n)[0] == s[0]);
        }
        assert(s.take(0) =~= Seq::empty());
        if chars_in(s, bytes) is None {
            assert forall|n: int| 0 <= n <= s.len() implies vstd::utf8::encode_utf8(
                #[trigger] s.take(n),
            ).len() != bytes by {
                if n > 0 && width <= bytes {
                    assert(vstd::utf8::encode_utf8(s.drop_first().take(n - 1)).len() != bytes - width);
                }
            }
        }
    }
}

/// Closing whitespace is shown character by character: a tab, a carriage return and a line feed by their
/// letters, a quote, an apostrophe and a backslash behind a backslash, other printable ASCII as it is, and
/// everything else by its number.
pub proof fn law_whitespace_is_shown(s: Seq<char>, c: char)
    ensures
        escaped_text(Seq::empty()) == Seq::<char>::empty(),
        ({
            let shown = if c == '\t' {
                seq!['\\', 't']
            } else if c == '\r' {
                seq!['\\', 'r']
            } else if c == '\n' {
                seq!['\\', 'n']
            } else if c == '\'' || c == '"' || c == '\\' {
                seq!['\\', c]
            } else if 0x20 <= c as int && c as int <= 0x7e {
                seq![c]
            } else {
                seq!['\\', 'u', '{'] + hex_text((c as u32) as nat) + seq!['}']
            };
            escaped_text(s.push(c)) == escaped_text(s) + shown
        }),
{
    assert(s.push(c).drop_last() =~= s);
}

/// A number is shown in hexadecimal, in lower case and without zeros in front.
pub proof fn law_hexadecimal(n: nat)
    ensures
        n < 10 ==> hex_text(n).len() == 1 && hex_text(n)[0] as int == 0x30 + n,
        10 <= n < 16 ==> hex_text(n).len() == 1 && hex_text(n)[0] as int == 0x61 + (n - 10),
        n >= 16 ==> hex_text(n) == hex_text(n / 16) + hex_text(n % 16),
{
    if n >= 16 {
        assert(hex_text(n) =~= hex_text(n / 16) + hex_text(n % 16));
    }
}

/// A line is an object with a `digest`, then an `expected_digest`, a `timestamp` and a `url` where the snapshot
/// has them, a `format` where it is not plain, and the `content` as it is.
pub proof fn law_line_layout(view: LineView)
    ensures
        ({
            let field = |key: Seq<char>, value: Option<Seq<char>>|
                match value {
                    Some(value) => "\""@ + key + "\":\""@ + value + "\","@,
                    None => Seq::<char>::empty(),
                };
            let format = if view.format.name is None && view.format.closing_whitespace is None
                && view.format.metadata.len() == 0 {
                Seq::<char>::empty()
            } else {
                "\"format\":"@ + json::json_object_text(crate::format::format_fields(view.format))
                    + ","@
            };
            line_text(view) == "{\"digest\":\""@ + digest::digest_text(view.digest) + "\","@ + field(
                "expected_digest"@,
                view.expected_digest,
            ) + field(
                "timestamp"@,
                match view.timestamp {
                    Some(timestamp) => Some(timestamp::timestamp_text(timestamp)),
                    None => None,
                },
            ) + field("url"@, view.url) + format + "\"content\":"@ + view.content + "}"@
        }),
{
    reveal_strlit("\"");
    reveal_strlit("\":\"");
    reveal_strlit("\",");
    reveal_strlit("\":");
    reveal_strlit(",");
    reveal_strlit("format");
    reveal_strlit("\"format\":");
    reveal_strlit("content");
    reveal_strlit("\"content\":");
    reveal_strlit("}");
    assert("\""@ =~= seq!['"']);
    assert(","@ =~= seq![',']);
    assert("}"@ =~= seq!['}']);
    assert("\"format\":"@ =~= seq!['"'] + FORMAT_KEY@ + VALUE_START@);
    assert("\"content\":"@ =~= seq!['"'] + CONTENT_KEY@ + VALUE_START@);
    if view.format.metadata.len() == 0 {
        assert(view.format.metadata =~= Seq::empty());
    }
    let digest = DIGEST_START@ + digest::digest_text(view.digest) + "\","@;
    let front = digest + optional_field(EXPECTED_DIGEST_KEY@, view.expected_digest) + optional_field(
        TIMESTAMP_KEY@,
        timestamp_field(view.timestamp),
    ) + optional_field(URL_KEY@, view.url) + format_field(view.format);
    assert(line_text(view) =~= front + "\"content\":"@ + view.content + "}"@);
}

/// A snapshot of plain text that is written reads back whole, whatever its content: its URL may hold anything
/// but quotes, backslashes and control characters, and its expected digest 32 bytes of the same.
pub proof fn law_plain_lines_read_back(view: LineView)
    requires
        view.digest < digest::digest_limit(),
        view.expected_digest matches Some(expected) ==> vstd::utf8::encode_utf8(expected).len() == 32
            && forall|i: int|
            0 <= i < expected.len() ==> ({
                let c = #[trigger] expected[i];
                &&& c != '"'
                &&& c != '\\'
                &&& (c as u32) >= 0x20
                &&& !(0x7f <= (c as u32) <= 0x9f)
            }),
        view.url matches Some(url) ==> forall|i: int|
            0 <= i < url.len() ==> ({
                let c = #[trigger] url[i];
                &&& c != '"'
                &&& c != '\\'
                &&& (c as u32) >= 0x20
                &&& !(0x7f <= (c as u32) <= 0x9f)
            }),
        view.timestamp matches Some(timestamp) ==> timestamp::is_supported(timestamp),
        view.format.name is None,
        view.format.closing_whitespace is None,
        view.format.metadata.len() == 0,
    ensures
        parse_line(line_text(view)) == Some(view),
{
    assert(view.format.metadata =~= Seq::empty());
    assert(view.format == plain_format());
    if let Some(expected) = view.expected_digest {
        lemma_plain_text(expected);
        law_characters_by_bytes(expected, 32);
        assert(expected.take(expected.len() as int) =~= expected);
        if let Some(n) = chars_in(expected, 32) {
            lemma_shorter_has_fewer_bytes(expected, n as int);
        }
    }
    if let Some(url) = view.url {
        lemma_plain_text(url);
    }
    assert(crate::format::is_canonical(view.format));
    lemma_line_parses_back(view);
}

/// A text takes more bytes than its start.
proof fn lemma_shorter_has_fewer_bytes(s: Seq<char>, n: int)
    requires
        0 <= n <= s.len(),
    ensures
        vstd::utf8::encode_utf8(s.take(n)).len() <= vstd::utf8::encode_utf8(s).len(),
        n < s.len() ==> vstd::utf8::encode_utf8(s.take(n)).len() < vstd::utf8::encode_utf8(s).len(),
    decreases s.len(),
{
    if s.len() > 0 {
        vstd::utf8::char_is_scalar(s[0]);
        if n > 0 {
            lemma_shorter_has_fewer_bytes(s.drop_first(), n - 1);
            assert(s.take(n).drop_first() =~= s.drop_first().take(n - 1));
            assert(s.take(n)[0] == s[0]);
        } else {
            assert(s.take(0) =~= Seq::empty());
        }
    } else {
        assert(s.take(n) =~= s);
    }
}

/// A line is read as a snapshot only if it is an object with a valid digest first, and the snapshot has that.
pub proof fn law_lines_start_with_digests(line: Seq<char>)
    ensures
        parse_line(line) matches Some(view) ==> {
            &&& "{\"digest\":\""@.is_prefix_of(line)
            &&& line.len() > 43
            &&& digest::is_digest_text(line.subrange(11, 43))
            &&& digest::digest_value(line.subrange(11, 43)) == view.digest
        },
{
    if let Some(view) = parse_line(line) {
        reveal_strlit("{\"digest\":\"");
        let start = DIGEST_START@;
        assert(start.len() == 11);
        assert(line.subrange(0, 11) == start);
        assert(start.is_prefix_of(line)) by {
            assert forall|i: int| 0 <= i < 11 implies start[i] == line[i] by {
                assert(line.subrange(0, 11)[i] == line[i]);
            }
        }
        let rest = line.skip(11);
        assert(rest.take(32) =~= line.subrange(11, 43));
    }
}

/// A snapshot is seen by its fields, each as it is held.
pub proof fn law_snapshots_are_seen_whole(snapshot: ExactSnapshot<'_>)
    ensures
        ({
            let view = snapshot_view(snapshot);
            &&& view.digest == snapshot.digest@
            &&& snapshot.expected_digest matches Some(expected) ==> view.expected_digest == Some(
                expected@,
            )
            &&& snapshot.expected_digest is None ==> view.expected_digest is None
            &&& snapshot.timestamp matches Some(timestamp) ==> view.timestamp == Some(timestamp@)
            &&& snapshot.timestamp is None ==> view.timestamp is None
            &&& snapshot.url matches Some(url) ==> view.url == Some(url@)
            &&& snapshot.url is None ==> view.url is None
            &&& view.format == snapshot.format@
            &&& view.content == snapshot.content@
        }),
{
}

/// A snapshot with a format reads back whole: its name, unless it is that of plain text, any closing whitespace,
/// and any metadata under keys of its own in their order. What is taken for granted of JSON is that its strings
/// and the object of the format read back.
pub proof fn law_formatted_lines_read_back(view: LineView)
    requires
        view.digest < digest::digest_limit(),
        view.expected_digest is None,
        view.url is None,
        view.timestamp is None,
        view.format.name is Some || view.format.closing_whitespace is Some
            || view.format.metadata.len() > 0,
        view.format.name matches Some(name) ==> name != "utf8"@ && json::json_string(
            json::json_string_text(name),
        ) == Some(name),
        view.format.closing_whitespace matches Some(whitespace) ==> json::json_string(
            json::json_string_text(whitespace),
        ) == Some(whitespace) && forall|i: int|
            0 <= i < whitespace.len() ==> ({
                let c = #[trigger] whitespace[i];
                c == ' ' || c == '\t' || c == '\r' || c == '\n'
            }),
        forall|i: int|
            0 <= i < view.format.metadata.len() ==> ({
                let (key, value) = #[trigger] view.format.metadata[i];
                key != "type"@ && key != "closing_whitespace"@ && json::json_raw(value) == Some(value)
            }),
        forall|i: int, j: int|
            0 <= i < j < view.format.metadata.len() ==> text::lex_less(
                (#[trigger] view.format.metadata[i]).0,
                (#[trigger] view.format.metadata[j]).0,
            ),
        ({
            let fields = crate::format::format_fields(view.format);
            let object = json::json_object_text(fields);
            &&& json::object_len(object) == Some(object.len())
            &&& json::json_fields(object) == Some(crate::pairs::sort_pairs(fields))
        }),
    ensures
        parse_line(line_text(view)) == Some(view),
{
    let format = view.format;
    assert(json::are_json(format.metadata)) by {
        assert forall|i: int| 0 <= i < format.metadata.len() implies json::is_json(
            (#[trigger] format.metadata[i]).1,
        ) by {
            let (key, value) = format.metadata[i];
        }
    }
    assert(crate::format::is_canonical(format)) by {
        if let Some(whitespace) = format.closing_whitespace {
            assert forall|i: int| 0 <= i < whitespace.len() implies crate::format::is_json_whitespace(
                #[trigger] whitespace[i],
            ) by {
                let c = whitespace[i];
            }
        }
        assert forall|i: int| 0 <= i < format.metadata.len() implies !crate::format::is_reserved(
            (#[trigger] format.metadata[i]).0,
        ) by {
            let (key, value) = format.metadata[i];
        }
    }
    crate::format::lemma_format_reads_back(format);
    lemma_line_parses_back(view);
}

} // verus!
