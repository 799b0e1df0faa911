//! The metadata and content of a Wayback Machine JSON snapshot.
use std::borrow::Cow;

use vstd::prelude::*;

use crate::digest::Sha1Digest;
use crate::format::FormatInfo;
use crate::timestamp::Timestamp;

verus! {

/// Metadata and content for a Wayback Machine snapshot.
///
/// In the canonical JSONL form, fields appear in declaration order. Only `digest` and `content`
/// are required. The final field holds the archived JSON value with its internal whitespace and
/// escaping preserved. Trailing JSON whitespace is stored separately or supplied by a context, so
/// each snapshot fits on one line.
///
/// The digest is the uppercase Base32-encoded SHA-1 of the original bytes. For plain UTF-8 content,
/// those bytes are the content followed by its trailing whitespace. Other formats, such as gzip,
/// require a codec and metadata in the `format` object to reproduce the original bytes.
#[derive(Debug, PartialEq, Eq)]
pub struct Snapshot<'a, C> {
    /// The SHA-1 digest of the exact bytes served by the Wayback Machine, including the closing
    /// whitespace.
    pub digest: Sha1Digest,
    /// The digest indicated in the CDX entry for this snapshot, if the CDX digest is incorrect.
    pub expected_digest: Option<Cow<'a, str>>,
    /// The second that the archive snapshot was made.
    pub timestamp: Option<Timestamp>,
    /// The "original" URL in the CDX entry for this snapshot.
    pub url: Option<Cow<'a, str>>,
    /// The snapshot's `format` object.
    pub format: FormatInfo,
    /// The archived content, always serialized last.
    pub content: C,
}

impl<'a, C> Snapshot<'a, C> {
    /// Whether a capture timestamp is present; does not check the accuracy of the metadata.
    pub fn has_metadata(&self) -> (present: bool)
        ensures
            present == (self.timestamp is Some),
    {
        self.timestamp.is_some()
    }

    /// Whether this snapshot's `format` object carries an explicit `closing_whitespace`.
    ///
    /// When `false`, its effective closing whitespace is the default supplied by a context.
    pub fn has_explicit_closing_whitespace(&self) -> (explicit: bool)
        ensures
            explicit == (self.format.closing_whitespace is Some),
    {
        self.format.closing_whitespace.is_some()
    }

    /// Transform the content, preserving all metadata.
    pub fn into_transformed<T, F: FnOnce(C) -> T>(self, f: F) -> (transformed: Snapshot<'a, T>)
        requires
            call_requires(f, (self.content,)),
        ensures
            transformed.digest == self.digest,
            transformed.expected_digest == self.expected_digest,
            transformed.timestamp == self.timestamp,
            transformed.url == self.url,
            transformed.format == self.format,
            call_ensures(f, (self.content,), transformed.content),
    {
        Snapshot {
            digest: self.digest,
            expected_digest: self.expected_digest,
            timestamp: self.timestamp,
            url: self.url,
            format: self.format,
            content: f(self.content),
        }
    }
}

} // verus!
