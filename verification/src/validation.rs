//! Reproducing the archived bytes of a snapshot and checking them against its digest.
use std::borrow::Cow;

use vstd::prelude::*;

use crate::context::Context;
use crate::digest;
use crate::digest::Sha1Digest;
use crate::exact;
use crate::exact::{ExactContent, ExactSnapshot, LineView};
use crate::format::{all_whitespace, Format, FormatInfo};
use crate::snapshot::Snapshot;
use crate::text::{append, chars_of, string_of};

verus! {

/// Why a snapshot does not reproduce its digest.
#[derive(Debug, PartialEq, Eq)]
pub enum ValidationError {
    /// The content hashes to this digest instead.
    Mismatch(Sha1Digest),
    /// No codec is known for the format with this name.
    UnsupportedFormat(String),
    /// The closing whitespace of the snapshot holds a character that is not JSON whitespace.
    ClosingWhitespace,
}

/// Why bytes cannot be held as a snapshot.
#[derive(Debug, PartialEq, Eq)]
pub enum UnprocessedError {
    /// The bytes are not UTF-8.
    InvalidUtf8,
    /// No codec is known for the format with this name.
    UnsupportedFormat(String),
    /// The codec of the format with this name cannot decode the bytes.
    Undecodable(String),
}

/// What the codec of a format makes of archived bytes.
#[derive(Debug, PartialEq, Eq)]
pub enum Decoded {
    /// There is no codec for the format.
    NoCodec,
    /// The codec cannot decode the bytes.
    Failed,
    /// The bytes decode to this text.
    Text(String),
}

/// `str::from_utf8`: the text that bytes encode, if they are UTF-8.
#[verifier::external_body]
pub(crate) fn utf8_text(bytes: &[u8]) -> (text: Option<String>)
    ensures
        match text {
            Some(text) => vstd::utf8::encode_utf8(text@) == bytes@,
            None => !vstd::utf8::valid_utf8(bytes@),
        },
{
    std::str::from_utf8(bytes).ok().map(|text| text.to_owned())
}

/// The whitespace that closes the content of a snapshot: its own, or the default.
pub open spec fn effective_whitespace(view: LineView, default: Seq<char>) -> Seq<char> {
    match view.format.closing_whitespace {
        Some(whitespace) => whitespace,
        None => default,
    }
}

/// The archived bytes of plain text: the content followed by its closing whitespace.
pub open spec fn plain_bytes(view: LineView, default: Seq<char>) -> Seq<u8> {
    vstd::utf8::encode_utf8(view.content + effective_whitespace(view, default))
}

/// Whether the closing whitespace of a snapshot, where it has its own, is JSON whitespace.
pub open spec fn has_valid_whitespace(view: LineView) -> bool {
    view.format.closing_whitespace matches Some(whitespace) ==> crate::format::is_whitespace(
        whitespace,
    )
}

/// Whether a snapshot of plain text reproduces its digest.
pub open spec fn is_verified(view: LineView, default: Seq<char>) -> bool {
    &&& view.format.name is None
    &&& has_valid_whitespace(view)
    &&& digest::digest_of(plain_bytes(view, default)) == view.digest
}

/// What a check of a snapshot against its digest finds.
pub enum Outcome {
    /// The snapshot reproduces its digest.
    Valid,
    /// The snapshot hashes to another digest.
    Mismatch(nat),
    /// There is no codec for the format.
    Unsupported,
    /// The closing whitespace is not JSON whitespace.
    BadWhitespace,
}

/// Optional bytes as a sequence.
pub open spec fn option_bytes(bytes: Option<&Vec<u8>>) -> Option<Seq<u8>> {
    match bytes {
        Some(bytes) => Some(bytes@),
        None => None,
    }
}

/// The archived bytes of a snapshot, given the bytes that a codec reproduced for it if its format has a
/// codec.
pub open spec fn reproduced(
    view: LineView,
    default: Seq<char>,
    encoded: Option<Seq<u8>>,
) -> Option<Seq<u8>> {
    match view.format.name {
        None => if has_valid_whitespace(view) {
            Some(plain_bytes(view, default))
        } else {
            None
        },
        Some(_) => encoded,
    }
}

/// What a check of a snapshot finds, given the bytes that a codec reproduced for it if its format
/// has a codec.
pub open spec fn outcome(view: LineView, default: Seq<char>, encoded: Option<Seq<u8>>) -> Outcome {
    match reproduced(view, default, encoded) {
        Some(bytes) => if digest::digest_of(bytes) == view.digest {
            Outcome::Valid
        } else {
            Outcome::Mismatch(digest::digest_of(bytes))
        },
        None => if view.format.name is Some {
            Outcome::Unsupported
        } else {
            Outcome::BadWhitespace
        },
    }
}

/// How many characters are left of a text without the JSON whitespace at its end.
pub open spec fn content_len(s: Seq<char>) -> nat
    decreases s.len(),
{
    if s.len() > 0 && crate::format::is_json_whitespace(s.last()) {
        content_len(s.drop_last())
    } else {
        s.len()
    }
}

proof fn lemma_content_len(s: Seq<char>)
    ensures
        content_len(s) <= s.len(),
        crate::format::is_whitespace(s.skip(content_len(s) as int)),
    decreases s.len(),
{
    if s.len() > 0 && crate::format::is_json_whitespace(s.last()) {
        lemma_content_len(s.drop_last());
        let n = content_len(s) as int;
        let tail = s.skip(n);
        assert forall|i: int| 0 <= i < tail.len() implies crate::format::is_json_whitespace(
            #[trigger] tail[i],
        ) by {
            if i < tail.len() - 1 {
                assert(tail[i] == s.drop_last().skip(n)[i]);
            }
        }
    }
}

impl Context {
    /// Reproduces the archived bytes of a snapshot of plain text: its content followed by the
    /// effective closing whitespace.
    pub fn encode(&self, snapshot: &ExactSnapshot<'_>) -> (bytes: Result<Vec<u8>, ValidationError>)
        ensures
            match bytes {
                Ok(bytes) => {
                    &&& exact::snapshot_view(*snapshot).format.name is None
                    &&& has_valid_whitespace(exact::snapshot_view(*snapshot))
                    &&& bytes@ == plain_bytes(exact::snapshot_view(*snapshot), self@)
                },
                Err(ValidationError::UnsupportedFormat(name)) => exact::snapshot_view(
                    *snapshot,
                ).format.name == Some(name@),
                Err(ValidationError::ClosingWhitespace) => {
                    &&& exact::snapshot_view(*snapshot).format.name is None
                    &&& !has_valid_whitespace(exact::snapshot_view(*snapshot))
                },
                Err(ValidationError::Mismatch(_)) => false,
            },
    {
        match &snapshot.format.name {
            Format::Utf8 => {},
            Format::Other(name) => return Err(ValidationError::UnsupportedFormat(name.clone())),
        }
        let whitespace: &Vec<char> = match &snapshot.format.closing_whitespace {
            Some(whitespace) => {
                if !all_whitespace(whitespace) {
                    return Err(ValidationError::ClosingWhitespace);
                }
                whitespace
            },
            None => self.default_closing_whitespace(),
        };
        let mut text = snapshot.content.as_str().to_owned();
        let closing = string_of(whitespace);
        append(&mut text, closing.as_str());
        Ok(vstd::slice::slice_to_vec(text.as_str().as_bytes()))
    }

    /// Reproduces the archived bytes of a snapshot: those that the codec of its format reproduced, or
    /// those of plain text.
    pub fn encode_with(
        &self,
        snapshot: &ExactSnapshot<'_>,
        encoded: Option<&Vec<u8>>,
    ) -> (bytes: Result<Vec<u8>, ValidationError>)
        ensures
            match bytes {
                Ok(bytes) => reproduced(
                    exact::snapshot_view(*snapshot),
                    self@,
                    option_bytes(encoded),
                ) == Some(bytes@),
                Err(ValidationError::UnsupportedFormat(name)) => {
                    &&& exact::snapshot_view(*snapshot).format.name == Some(name@)
                    &&& encoded is None
                },
                Err(ValidationError::ClosingWhitespace) => {
                    &&& exact::snapshot_view(*snapshot).format.name is None
                    &&& !has_valid_whitespace(exact::snapshot_view(*snapshot))
                },
                Err(ValidationError::Mismatch(_)) => false,
            },
    {
        match (&snapshot.format.name, encoded) {
            (Format::Other(_), Some(bytes)) => Ok(vstd::slice::slice_to_vec(bytes.as_slice())),
            _ => self.encode(snapshot),
        }
    }

    /// Checks that bytes which a codec reproduced for a snapshot hash to its digest.
    pub fn verify_encoded(
        &self,
        snapshot: &ExactSnapshot<'_>,
        bytes: &[u8],
    ) -> (result: Result<(), ValidationError>)
        ensures
            match result {
                Ok(_) => digest::digest_of(bytes@) == snapshot.digest@,
                Err(ValidationError::Mismatch(actual)) => {
                    &&& actual@ == digest::digest_of(bytes@)
                    &&& actual@ != snapshot.digest@
                },
                Err(_) => false,
            },
    {
        let actual = Sha1Digest::compute(bytes);
        proof {
            digest::lemma_digest_unique(actual, snapshot.digest);
        }
        if actual == snapshot.digest {
            Ok(())
        } else {
            Err(ValidationError::Mismatch(actual))
        }
    }

    /// Checks that the content of a snapshot reproduces its digest.
    pub fn verify(&self, snapshot: &ExactSnapshot<'_>) -> (result: Result<(), ValidationError>)
        ensures
            match result {
                Ok(_) => is_verified(exact::snapshot_view(*snapshot), self@),
                Err(ValidationError::UnsupportedFormat(name)) => exact::snapshot_view(
                    *snapshot,
                ).format.name == Some(name@),
                Err(ValidationError::ClosingWhitespace) => {
                    &&& exact::snapshot_view(*snapshot).format.name is None
                    &&& !has_valid_whitespace(exact::snapshot_view(*snapshot))
                },
                Err(ValidationError::Mismatch(actual)) => {
                    &&& exact::snapshot_view(*snapshot).format.name is None
                    &&& has_valid_whitespace(exact::snapshot_view(*snapshot))
                    &&& actual@ == digest::digest_of(
                        plain_bytes(exact::snapshot_view(*snapshot), self@),
                    )
                    &&& actual@ != snapshot.digest@
                },
            },
    {
        match self.encode(snapshot) {
            Ok(bytes) => self.verify_encoded(snapshot, &bytes),
            Err(error) => Err(error),
        }
    }

    /// Checks that a snapshot reproduces its digest, with the bytes that a codec reproduced for it if
    /// its format has a codec.
    pub fn verify_with(
        &self,
        snapshot: &ExactSnapshot<'_>,
        encoded: Option<&Vec<u8>>,
    ) -> (result: Result<(), ValidationError>)
        ensures
            result matches Ok(_) <==> outcome(
                exact::snapshot_view(*snapshot),
                self@,
                option_bytes(encoded),
            ) is Valid,
            result matches Err(ValidationError::UnsupportedFormat(_)) <==> outcome(
                exact::snapshot_view(*snapshot),
                self@,
                option_bytes(encoded),
            ) is Unsupported,
            result matches Err(ValidationError::ClosingWhitespace) <==> outcome(
                exact::snapshot_view(*snapshot),
                self@,
                option_bytes(encoded),
            ) is BadWhitespace,
            match result {
                Err(ValidationError::Mismatch(actual)) => outcome(
                    exact::snapshot_view(*snapshot),
                    self@,
                    option_bytes(encoded),
                ) == Outcome::Mismatch(actual@),
                Err(ValidationError::UnsupportedFormat(name)) => exact::snapshot_view(
                    *snapshot,
                ).format.name == Some(name@),
                _ => true,
            },
    {
        match (&snapshot.format.name, encoded) {
            (Format::Other(_), Some(bytes)) => self.verify_encoded(snapshot, bytes),
            _ => self.verify(snapshot),
        }
    }

    /// Holds archived bytes of plain text as a snapshot without CDX metadata. The JSON whitespace at the
    /// end of the text is held apart from the content, and the snapshot reproduces its digest under
    /// every context.
    pub fn unprocessed_snapshot(&self, format: &Format, bytes: &[u8]) -> (result: Result<
        ExactSnapshot<'static>,
        UnprocessedError,
    >)
        ensures
            match result {
                Ok(snapshot) => {
                    &&& *format is Utf8
                    &&& vstd::utf8::valid_utf8(bytes@)
                    &&& exact::snapshot_view(snapshot) == unprocessed_view(
                        vstd::utf8::decode_utf8(bytes@),
                        bytes@,
                    )
                    &&& forall|default: Seq<char>|
                        is_verified(exact::snapshot_view(snapshot), default)
                },
                Err(UnprocessedError::InvalidUtf8) => *format is Utf8
                    && !vstd::utf8::valid_utf8(bytes@),
                Err(UnprocessedError::UnsupportedFormat(name)) => *format matches Format::Other(
                    given,
                ) && given@ == name@,
                Err(UnprocessedError::Undecodable(_)) => false,
            },
    {
        match format {
            Format::Utf8 => {},
            Format::Other(name) => return Err(UnprocessedError::UnsupportedFormat(name.clone())),
        }
        let text = match utf8_text(bytes) {
            Some(text) => text,
            None => return Err(UnprocessedError::InvalidUtf8),
        };
        let snapshot = hold_text(Format::Utf8, text.as_str(), bytes);
        proof {
            let view = exact::snapshot_view(snapshot);
            vstd::utf8::encode_utf8_decode_utf8(text@);
            vstd::utf8::encode_utf8_valid_utf8(text@);
            assert(view =~= unprocessed_view(text@, bytes@));
            lemma_content_len(text@);
            assert forall|default: Seq<char>| is_verified(view, default) by {
                assert(view.content + effective_whitespace(view, default) =~= text@);
            }
        }
        Ok(snapshot)
    }

    /// Holds archived bytes as a snapshot without CDX metadata, given what the codec of the format makes
    /// of the bytes. Plain text needs no codec.
    pub fn unprocessed_decoded(
        &self,
        format: &Format,
        bytes: &[u8],
        decoded: &Decoded,
    ) -> (result: Result<ExactSnapshot<'static>, UnprocessedError>)
        ensures
            match result {
                Ok(snapshot) => {
                    &&& text_of(format_view(*format), bytes@, *decoded) matches Some(text)
                    &&& exact::snapshot_view(snapshot) == held_view(
                        format_view(*format),
                        text,
                        bytes@,
                    )
                },
                Err(UnprocessedError::InvalidUtf8) => *format is Utf8
                    && !vstd::utf8::valid_utf8(bytes@),
                Err(UnprocessedError::UnsupportedFormat(name)) => format_view(*format) == Some(
                    name@,
                ) && *decoded is NoCodec,
                Err(UnprocessedError::Undecodable(name)) => format_view(*format) == Some(name@)
                    && *decoded is Failed,
            },
    {
        match format {
            Format::Utf8 => self.unprocessed_snapshot(format, bytes),
            Format::Other(name) => match decoded {
                Decoded::NoCodec => Err(UnprocessedError::UnsupportedFormat(name.clone())),
                Decoded::Failed => Err(UnprocessedError::Undecodable(name.clone())),
                Decoded::Text(text) => Ok(
                    hold_text(Format::Other(name.clone()), text.as_str(), bytes),
                ),
            },
        }
    }
}

/// Holds archived bytes, given their text.
fn hold_text(format: Format, text: &str, bytes: &[u8]) -> (snapshot: ExactSnapshot<'static>)
    ensures
        exact::snapshot_view(snapshot) == held_view(format_view(format), text@, bytes@),
{
    let chars = chars_of(text);
    let mut end: usize = chars.len();
    assert(chars@.take(end as int) =~= chars@);
    while end > 0 && (chars[end - 1] == ' ' || chars[end - 1] == '\t' || chars[end - 1] == '\r'
        || chars[end - 1] == '\n')
        invariant
            end <= chars@.len(),
            content_len(chars@.take(end as int)) == content_len(chars@),
        decreases end,
    {
        proof {
            assert(chars@.take(end as int).drop_last() =~= chars@.take(end - 1));
            assert(chars@.take(end as int).last() == chars@[end - 1]);
        }
        end = end - 1;
    }
    proof {
        if end > 0 {
            assert(chars@.take(end as int).last() == chars@[end - 1]);
        }
        assert(end == content_len(chars@));
    }
    let content = string_of(vstd::slice::slice_subrange(&chars, 0, end));
    let closing = vstd::slice::slice_to_vec(
        vstd::slice::slice_subrange(&chars, end, chars.len()),
    );
    let snapshot = Snapshot {
        digest: Sha1Digest::compute(bytes),
        expected_digest: None,
        timestamp: None,
        url: None,
        format: FormatInfo {
            name: format,
            closing_whitespace: Some(closing),
            metadata: Vec::new(),
        },
        content: ExactContent::new(Cow::Owned(content)),
    };
    proof {
        assert(content@ =~= text@.take(content_len(text@) as int));
        assert(closing@ =~= text@.skip(content_len(text@) as int));
        assert(crate::pairs::pair_views(snapshot.format.metadata@) =~= Seq::empty());
        assert(exact::snapshot_view(snapshot) =~= held_view(format_view(format), text@, bytes@));
    }
    snapshot
}

/// The name of a format, if it is not plain text.
pub open spec fn format_view(format: Format) -> Option<Seq<char>> {
    match format {
        Format::Utf8 => None,
        Format::Other(name) => Some(name@),
    }
}

/// The text of archived bytes, if they can be decoded: by the codec of their format, or as UTF-8 where
/// they are plain text.
pub open spec fn text_of(
    format: Option<Seq<char>>,
    bytes: Seq<u8>,
    decoded: Decoded,
) -> Option<Seq<char>> {
    match format {
        None => if vstd::utf8::valid_utf8(bytes) {
            Some(vstd::utf8::decode_utf8(bytes))
        } else {
            None
        },
        Some(_) => match decoded {
            Decoded::Text(text) => Some(text@),
            _ => None,
        },
    }
}

/// What a snapshot of archived bytes with the given format and text says.
pub open spec fn held_view(format: Option<Seq<char>>, text: Seq<char>, bytes: Seq<u8>) -> LineView {
    let view = unprocessed_view(text, bytes);
    LineView { format: crate::format::FormatView { name: format, ..view.format }, ..view }
}

/// What a snapshot of archived bytes with the given text says.
pub open spec fn unprocessed_view(text: Seq<char>, bytes: Seq<u8>) -> LineView {
    let n = content_len(text) as int;
    LineView {
        digest: digest::digest_of(bytes),
        expected_digest: None,
        timestamp: None,
        url: None,
        format: crate::format::FormatView {
            name: None,
            closing_whitespace: Some(text.skip(n)),
            metadata: Seq::empty(),
        },
        content: text.take(n),
    }
}

/// A snapshot of archived bytes reproduces exactly these bytes, under every default closing whitespace.
pub proof fn law_archived_bytes_are_reproduced(bytes: Seq<u8>, default: Seq<char>)
    requires
        vstd::utf8::valid_utf8(bytes),
    ensures
        plain_bytes(unprocessed_view(vstd::utf8::decode_utf8(bytes), bytes), default) == bytes,
{
    let text = vstd::utf8::decode_utf8(bytes);
    let n = content_len(text) as int;
    lemma_content_len(text);
    assert(text.take(n) + text.skip(n) =~= text);
    vstd::utf8::decode_utf8_encode_utf8(bytes);
}

/// A snapshot that is made of a text holds all of it: the content, and behind it the JSON whitespace that the
/// text ends in, all of it and nothing else. It has the digest of the bytes, and no capture metadata.
pub proof fn law_content_and_whitespace(text: Seq<char>, bytes: Seq<u8>)
    ensures
        ({
            let view = unprocessed_view(text, bytes);
            &&& view.digest == digest::digest_of(bytes)
            &&& view.expected_digest is None
            &&& view.timestamp is None
            &&& view.url is None
            &&& view.format.name is None
            &&& view.format.metadata.len() == 0
            &&& view.format.closing_whitespace matches Some(whitespace)
            &&& view.content + whitespace == text
            &&& forall|i: int|
                0 <= i < whitespace.len() ==> ({
                    let c = #[trigger] whitespace[i];
                    c == ' ' || c == '\t' || c == '\n' || c == '\r'
                })
            &&& view.content.len() > 0 ==> ({
                let c = view.content.last();
                c != ' ' && c != '\t' && c != '\n' && c != '\r'
            })
        }),
    decreases text.len(),
{
    let n = content_len(text) as int;
    lemma_content_len_bounds(text);
    assert(text.take(n) + text.skip(n) =~= text);
}

/// What comes behind the content of a text is JSON whitespace, and the content does not end in it.
proof fn lemma_content_len_bounds(s: Seq<char>)
    ensures
        content_len(s) <= s.len(),
        forall|i: int|
            content_len(s) <= i < s.len() ==> crate::format::is_json_whitespace(#[trigger] s[i]),
        content_len(s) > 0 ==> !crate::format::is_json_whitespace(s[content_len(s) - 1]),
    decreases s.len(),
{
    if s.len() > 0 && crate::format::is_json_whitespace(s.last()) {
        let front = s.drop_last();
        lemma_content_len_bounds(front);
        assert forall|i: int| content_len(s) <= i < s.len() implies crate::format::is_json_whitespace(
            #[trigger] s[i],
        ) by {
            if i < s.len() - 1 {
                assert(front[i] == s[i]);
            }
        }
    }
}

/// A snapshot holds the whole text of its archived bytes: a codec that is handed its content and closing
/// whitespace gets the text that it had decoded, and where it gives back the bytes the snapshot
/// reproduces its digest.
pub proof fn law_decoded_text_is_held(
    format: Seq<char>,
    text: Seq<char>,
    bytes: Seq<u8>,
    default: Seq<char>,
)
    ensures
        ({
            let view = held_view(Some(format), text, bytes);
            &&& view.content + effective_whitespace(view, default) == text
            &&& has_valid_whitespace(view)
            &&& outcome(view, default, Some(bytes)) is Valid
        }),
{
    let view = held_view(Some(format), text, bytes);
    lemma_content_len(text);
    assert(view.content + effective_whitespace(view, default) =~= text);
}

/// What is written of a snapshot reproduces the same bytes as the snapshot, and is verified exactly if the
/// snapshot is: the closing whitespace that is left out is the default, and a URL is no part of the bytes.
/// The default has to be whitespace.
pub proof fn law_writing_keeps_bytes(view: LineView, default: Seq<char>, inferred: Option<Seq<char>>)
    requires
        crate::format::is_whitespace(default),
    ensures
        plain_bytes(exact::written_view(view, default, inferred), default) == plain_bytes(
            view,
            default,
        ),
        is_verified(exact::written_view(view, default, inferred), default) == is_verified(
            view,
            default,
        ),
{
}

/// A snapshot is valid exactly if its bytes have its digest: those of its content and closing whitespace in
/// UTF-8, or those that the codec of its format reproduces. Whitespace is what the context says where the
/// snapshot says nothing, and has to be spaces, tabs, carriage returns and line feeds where it does.
pub proof fn law_what_is_valid(view: LineView, default: Seq<char>, encoded: Option<Seq<u8>>)
    ensures
        ({
            let whitespace = match view.format.closing_whitespace {
                Some(whitespace) => whitespace,
                None => default,
            };
            let is_bad = view.format.closing_whitespace matches Some(own) && exists|i: int|
                0 <= i < own.len() && ({
                    let c = #[trigger] own[i];
                    c != ' ' && c != '\t' && c != '\r' && c != '\n'
                });
            let found = outcome(view, default, encoded);
            &&& view.format.name is None && is_bad ==> found is BadWhitespace
            &&& view.format.name is None && !is_bad ==> {
                let actual = digest::digest_of(vstd::utf8::encode_utf8(view.content + whitespace));
                if actual == view.digest {
                    found is Valid
                } else {
                    found == Outcome::Mismatch(actual)
                }
            }
            &&& view.format.name is Some && encoded is None ==> found is Unsupported
            &&& view.format.name is Some && encoded is Some ==> {
                let actual = digest::digest_of(encoded.unwrap());
                if actual == view.digest {
                    found is Valid
                } else {
                    found == Outcome::Mismatch(actual)
                }
            }
        }),
{
    if let Some(whitespace) = view.format.closing_whitespace {
        if !crate::format::is_whitespace(whitespace) {
            let i = choose|i: int|
                0 <= i < whitespace.len() && !crate::format::is_json_whitespace(
                    #[trigger] whitespace[i],
                );
            let c = whitespace[i];
            assert(c != ' ' && c != '\t' && c != '\r' && c != '\n');
        } else {
            assert(forall|i: int|
                0 <= i < whitespace.len() ==> crate::format::is_json_whitespace(
                    #[trigger] whitespace[i],
                ));
        }
    }
}

/// Bytes without a codec are decoded as UTF-8, and others are what their codec makes of them.
pub proof fn law_texts_of_bytes(name: Seq<char>, bytes: Seq<u8>, decoded: Decoded)
    ensures
        vstd::utf8::valid_utf8(bytes) ==> (text_of(None, bytes, decoded) matches Some(text)
            && vstd::utf8::encode_utf8(text) == bytes),
        !vstd::utf8::valid_utf8(bytes) ==> text_of(None, bytes, decoded) is None,
        decoded matches Decoded::Text(text) ==> text_of(Some(name), bytes, decoded) == Some(text@),
        !(decoded is Text) ==> text_of(Some(name), bytes, decoded) is None,
{
    if vstd::utf8::valid_utf8(bytes) {
        vstd::utf8::decode_utf8_encode_utf8(bytes);
    }
}

/// A snapshot of decoded bytes has the name of their format and is otherwise that of plain text.
pub proof fn law_held_format(format: Option<Seq<char>>, text: Seq<char>, bytes: Seq<u8>)
    ensures
        ({
            let view = held_view(format, text, bytes);
            let plain = unprocessed_view(text, bytes);
            &&& view.format.name == format
            &&& view.format.closing_whitespace == plain.format.closing_whitespace
            &&& view.format.metadata == plain.format.metadata
            &&& view.digest == plain.digest
            &&& view.content == plain.content
            &&& view.timestamp == plain.timestamp
            &&& view.url == plain.url
            &&& view.expected_digest == plain.expected_digest
        }),
{
}

/// A snapshot is verified without a codec exactly if it is valid and needs none.
pub proof fn law_verified_snapshots_are_valid(view: LineView, default: Seq<char>)
    ensures
        is_verified(view, default) <==> view.format.name is None && outcome(view, default, None) is Valid,
{
}

} // verus!
