//! Enhancing WXJ (Twitter) snapshots with metadata read from URL lists and CDX files.
//!
//! Reads digest-to-URL-path mappings and CDX captures, then builds per-digest [`Metadata`] (the
//! timestamp, expected digest, and canonical Twitter URL path) used to enrich snapshot lines.
use std::borrow::Cow;

use vstd::prelude::*;

use crate::cdx;
use crate::cdx::{Item, ItemView};
use crate::context::Context;
use crate::digest;
use crate::digest::Sha1Digest;
use crate::exact;
use crate::exact::{InvalidLine, LineView};
use crate::lines;
use crate::snapshot::Snapshot;
use crate::stream;
use crate::table::TextTable;
use crate::tabular;
use crate::tabular::parse_rows;
use crate::text;
use crate::text::{append, chars_of, same_str, starts_at, string_of};
use crate::timestamp;
use crate::timestamp::Timestamp;

verus! {

/// The host of every Twitter URL.
pub const TWITTER: &'static str = "https://twitter.com";

/// The text of comma-separated values, or one of its rows, is malformed.
#[derive(Clone, Copy, Debug, PartialEq, Eq, Structural)]
pub struct InvalidRows;

/// The metadata known for one snapshot digest.
#[derive(Debug)]
pub struct Metadata {
    /// The digest the capture was expected to have, if the content did not match it.
    pub expected_digest: Option<Sha1Digest>,
    /// The capture timestamp.
    pub timestamp: Timestamp,
    /// The Twitter URL path (or a full URL for other hosts), or `None` if it can be inferred from
    /// the snapshot content.
    pub url_path: Option<String>,
}

/// The metadata known for one snapshot digest, as numbers and texts.
#[verifier::ext_equal]
pub struct MetadataView {
    /// The expected digest.
    pub expected_digest: Option<nat>,
    /// The capture timestamp.
    pub timestamp: int,
    /// The URL path.
    pub url_path: Option<Seq<char>>,
}

/// The text of an optional string.
pub open spec fn string_view(text: Option<String>) -> Option<Seq<char>> {
    match text {
        Some(text) => Some(text@),
        None => None,
    }
}

impl View for Metadata {
    type V = MetadataView;

    open spec fn view(&self) -> MetadataView {
        MetadataView {
            expected_digest: stream::digest_view(self.expected_digest),
            timestamp: self.timestamp@,
            url_path: string_view(self.url_path),
        }
    }
}

/// The path of a Twitter URL.
pub open spec fn twitter_path(url: Seq<char>) -> Option<Seq<char>> {
    if text::has_at(url, 0, TWITTER@) {
        Some(url.skip(TWITTER@.len() as int))
    } else {
        None
    }
}

/// Whether a character is an ASCII letter.
pub open spec fn is_letter(c: char) -> bool {
    'a' <= c <= 'z' || 'A' <= c <= 'Z'
}

/// Whether a character may stand in a URL scheme.
pub open spec fn is_scheme_char(c: char) -> bool {
    is_letter(c) || '0' <= c <= '9' || c == '+' || c == '-' || c == '.'
}

/// Whether a text is an absolute URL: one that starts with a scheme (a letter, then letters, digits,
/// plus signs, hyphens and dots) and a colon.
pub open spec fn is_absolute(url: Seq<char>) -> bool {
    &&& url.len() > 0
    &&& is_letter(url[0])
    &&& exists|colon: int|
        {
            &&& 0 < colon < url.len()
            &&& #[trigger] url[colon] == ':'
            &&& forall|i: int| 0 <= i < colon ==> is_scheme_char(#[trigger] url[i])
        }
}

/// The path that is recorded for a URL, given the one that the content implies. What would read as an
/// absolute URL follows only a longer host name, and such a URL is recorded in full.
pub open spec fn recorded_path(url: Seq<char>, inferred: Option<Seq<char>>) -> Option<Seq<char>> {
    match twitter_path(url) {
        Some(path) => if Some(path) == inferred {
            None
        } else if is_absolute(path) {
            Some(url)
        } else {
            Some(path)
        },
        None => Some(url),
    }
}

/// The URL that a recorded path stands for.
pub open spec fn full_url(path: Option<Seq<char>>) -> Option<Seq<char>> {
    match path {
        Some(path) => Some(
            if is_absolute(path) {
                path
            } else {
                TWITTER@ + path
            },
        ),
        None => None,
    }
}

/// The path of a Twitter URL.
fn strip_twitter(url: &str) -> (path: Option<String>)
    ensures
        string_view(path) == twitter_path(url@),
{
    let chars = chars_of(url);
    if starts_at(&chars, 0, TWITTER) {
        let from: usize = TWITTER.unicode_len();
        let path = string_of(vstd::slice::slice_subrange(&chars, from, chars.len()));
        assert(path@ =~= url@.skip(TWITTER@.len() as int));
        Some(path)
    } else {
        None
    }
}

/// Tests whether a text is an absolute URL.
fn starts_with_scheme(chars: &[char]) -> (absolute: bool)
    ensures
        absolute == is_absolute(chars@),
{
    let mut i: usize = 0;
    while i < chars.len() && chars[i] != ':'
        invariant
            i <= chars@.len(),
            forall|k: int| 0 <= k < i ==> is_scheme_char(#[trigger] chars@[k]) && chars@[k] != ':',
            i > 0 ==> is_letter(chars@[0]),
        decreases chars@.len() - i,
    {
        let c = chars[i];
        let letter: bool = ('a' <= c && c <= 'z') || ('A' <= c && c <= 'Z');
        let later: bool = ('0' <= c && c <= '9') || c == '+' || c == '-' || c == '.';
        if !(letter || (i > 0 && later)) {
            return false;
        }
        i = i + 1;
    }
    i > 0 && i < chars.len()
}

impl Metadata {
    /// Record `url` for a capture, dropping it if it is exactly the URL inferred from the content.
    pub fn new(timestamp: Timestamp, url: &str, inferred_url_path: Option<&str>) -> (metadata: Self)
        ensures
            metadata@ == (MetadataView {
                expected_digest: None,
                timestamp: timestamp@,
                url_path: recorded_path(url@, text::str_view(inferred_url_path)),
            }),
    {
        let url_path: Option<String> = match strip_twitter(url) {
            Some(path) => {
                let is_inferred: bool = match inferred_url_path {
                    Some(inferred) => same_str(path.as_str(), inferred),
                    None => false,
                };
                if is_inferred {
                    None
                } else if starts_with_scheme(&chars_of(path.as_str())) {
                    Some(url.to_owned())
                } else {
                    Some(path)
                }
            },
            None => Some(url.to_owned()),
        };
        Metadata { expected_digest: None, timestamp, url_path }
    }

    /// Attach the digest the capture was expected to have.
    pub fn with_expected_digest(self, expected_digest: Sha1Digest) -> (metadata: Self)
        ensures
            metadata@ == (MetadataView { expected_digest: Some(expected_digest@), ..self@ }),
    {
        Metadata { expected_digest: Some(expected_digest), ..self }
    }

    /// The full URL of the capture, or `None` if the URL is inferable from the snapshot content.
    ///
    /// A path that is already an absolute URL is taken as it is, and another is resolved against the
    /// Twitter host.
    pub fn url(&self) -> (url: Option<String>)
        ensures
            string_view(url) == full_url(self@.url_path),
    {
        match &self.url_path {
            Some(path) => {
                let chars = chars_of(path.as_str());
                if starts_with_scheme(&chars) {
                    Some(path.clone())
                } else {
                    let mut url = TWITTER.to_owned();
                    append(&mut url, path.as_str());
                    Some(url)
                }
            },
            None => None,
        }
    }
}

/// Every absolute URL of a capture is given back unless it is the inferred one, for which none is
/// recorded.
pub proof fn law_recorded_url(url: Seq<char>, inferred: Option<Seq<char>>)
    requires
        is_absolute(url),
    ensures
        full_url(recorded_path(url, inferred)) == (if twitter_path(url) is Some && twitter_path(url)
            == inferred {
            None
        } else {
            Some(url)
        }),
{
    if let Some(path) = twitter_path(url) {
        assert(TWITTER@ + path =~= url);
    }
}

/// What a row of digest and URL says: the digest, and the path of the URL, if there is a URL.
pub open spec fn url_row(row: Seq<Seq<char>>) -> Option<(Seq<char>, Option<Seq<char>>)> {
    if row.len() < 2 || !digest::is_digest_text(row[0]) {
        None
    } else if row[1].len() == 0 {
        Some((row[0], None))
    } else {
        match twitter_path(row[1]) {
            Some(path) => Some((row[0], Some(path))),
            None => None,
        }
    }
}

/// The paths that rows map digests to. Of two rows with one digest, the later counts.
pub open spec fn url_paths_of(rows: Seq<Seq<Seq<char>>>) -> Map<Seq<char>, Option<Seq<char>>>
    decreases rows.len(),
{
    if rows.len() == 0 {
        Map::empty()
    } else {
        let (digest, path) = url_row(rows.last()).unwrap();
        url_paths_of(rows.drop_last()).insert(digest, path)
    }
}

/// The paths of a table, as texts.
pub open spec fn path_views(paths: Map<Seq<char>, Option<String>>) -> Map<
    Seq<char>,
    Option<Seq<char>>,
> {
    paths.map_values(|path: Option<String>| string_view(path))
}

/// Whether every row is one of digest and URL.
pub open spec fn are_url_rows(rows: Seq<Seq<Seq<char>>>) -> bool {
    forall|i: int| 0 <= i < rows.len() ==> url_row(#[trigger] rows[i]) is Some
}

/// Reads rows of digest and URL, mapping each digest to its Twitter URL path (if any).
pub fn collect_url_paths(rows: &Vec<Vec<String>>) -> (result: Result<
    TextTable<Option<String>>,
    InvalidRows,
>)
    ensures
        match result {
            Ok(paths) => {
                &&& are_url_rows(tabular::row_views(rows@))
                &&& path_views(paths@) == url_paths_of(tabular::row_views(rows@))
            },
            Err(_) => !are_url_rows(tabular::row_views(rows@)),
        },
{
    let ghost views = tabular::row_views(rows@);
    let mut paths: TextTable<Option<String>> = TextTable::new();
    let mut i: usize = 0;
    assert(views.take(0) =~= Seq::empty());
    assert(path_views(paths@) =~= Map::empty());
    while i < rows.len()
        invariant
            i <= rows@.len(),
            views == tabular::row_views(rows@),
            forall|k: int| 0 <= k < i ==> url_row(#[trigger] views[k]) is Some,
            path_views(paths@) == url_paths_of(views.take(i as int)),
        decreases rows@.len() - i,
    {
        let row = &rows[i];
        proof {
            assert(views[i as int] == lines::string_views(row@));
            assert(views.take(i + 1).drop_last() =~= views.take(i as int));
            assert(views.take(i + 1).last() == views[i as int]);
        }
        if row.len() < 2 || Sha1Digest::parse_str(row[0].as_str()).is_err() {
            return Err(InvalidRows);
        }
        let path: Option<String> = if row[1].as_str().is_empty() {
            None
        } else {
            match strip_twitter(row[1].as_str()) {
                Some(path) => Some(path),
                None => return Err(InvalidRows),
            }
        };
        let ghost before = paths@;
        let ghost added = path;
        paths.insert(row[0].as_str(), path);
        assert(path_views(paths@) =~= path_views(before).insert(row@[0]@, string_view(added)));
        i = i + 1;
    }
    assert(views.take(rows@.len() as int) =~= views);
    Ok(paths)
}

/// Reads a digest-to-URL text of comma-separated values, mapping each digest to its Twitter URL path
/// (if any).
pub fn read_url_paths(text: &str) -> (result: Result<TextTable<Option<String>>, InvalidRows>)
    ensures
        match result {
            Ok(paths) => {
                &&& tabular::csv_rows(text@) is Some
                &&& are_url_rows(tabular::csv_rows(text@).unwrap())
                &&& path_views(paths@) == url_paths_of(tabular::csv_rows(text@).unwrap())
            },
            Err(_) => tabular::csv_rows(text@) matches Some(rows) ==> !are_url_rows(rows),
        },
{
    match parse_rows(text) {
        Some(rows) => collect_url_paths(&rows),
        None => Err(InvalidRows),
    }
}

/// The metadata of digests, as numbers and texts.
pub open spec fn metadata_views(entries: Map<Seq<char>, Metadata>) -> Map<Seq<char>, MetadataView> {
    entries.map_values(|entry: Metadata| entry@)
}

/// The metadata of the digests that have a path, after captures are read. The first capture that is
/// read of a digest counts.
pub open spec fn first_captures(
    entries: Map<Seq<char>, MetadataView>,
    paths: Map<Seq<char>, Option<Seq<char>>>,
    items: Seq<ItemView>,
) -> Map<Seq<char>, MetadataView>
    decreases items.len(),
{
    if items.len() == 0 {
        entries
    } else {
        let before = first_captures(entries, paths, items.drop_last());
        let item = items.last();
        if digest::is_digest_text(item.digest) && paths.contains_key(item.digest)
            && !before.contains_key(item.digest) {
            before.insert(
                item.digest,
                MetadataView {
                    expected_digest: None,
                    timestamp: item.timestamp,
                    url_path: recorded_path(item.original, paths[item.digest]),
                },
            )
        } else {
            before
        }
    }
}

/// Adds the metadata of captures, keeping the first capture seen for each digest in `url_paths`.
pub fn read_cdx(
    entries: &mut TextTable<Metadata>,
    url_paths: &TextTable<Option<String>>,
    items: &Vec<Item>,
)
    ensures
        metadata_views(final(entries)@) == first_captures(
            metadata_views(old(entries)@),
            path_views(url_paths@),
            cdx::item_views(items@),
        ),
{
    let ghost views = cdx::item_views(items@);
    let ghost paths = path_views(url_paths@);
    let ghost start = metadata_views(entries@);
    let mut i: usize = 0;
    assert(views.take(0) =~= Seq::empty());
    while i < items.len()
        invariant
            i <= items@.len(),
            views == cdx::item_views(items@),
            paths == path_views(url_paths@),
            metadata_views(entries@) == first_captures(start, paths, views.take(i as int)),
        decreases items@.len() - i,
    {
        let item = &items[i];
        proof {
            assert(views[i as int] == item@);
            assert(views.take(i + 1).drop_last() =~= views.take(i as int));
            assert(views.take(i + 1).last() == item@);
        }
        let key = item.digest.to_string();
        if Sha1Digest::parse_str(key.as_str()).is_ok() {
            if let Some(path) = url_paths.get(key.as_str()) {
                if !entries.contains_key(key.as_str()) {
                    let inferred: Option<&str> = match path {
                        Some(path) => Some(path.as_str()),
                        None => None,
                    };
                    let metadata = Metadata::new(item.timestamp, item.original.as_str(), inferred);
                    let ghost before = entries@;
                    let ghost added = metadata;
                    entries.insert(key.as_str(), metadata);
                    assert(metadata_views(entries@) =~= metadata_views(before).insert(
                        key@,
                        added@,
                    ));
                }
            }
        }
        i = i + 1;
    }
    assert(views.take(items@.len() as int) =~= views);
}

/// Whether a row is one of URL, timestamp, expected digest and digest.
pub open spec fn is_invalid_digest_row(row: Seq<Seq<char>>) -> bool {
    &&& row.len() >= 4
    &&& timestamp::is_timestamp_text(row[1])
    &&& digest::is_digest_text(row[2])
    &&& digest::is_digest_text(row[3])
}

/// Whether every row is one of URL, timestamp, expected digest and digest.
pub open spec fn are_invalid_digest_rows(rows: Seq<Seq<Seq<char>>>) -> bool {
    forall|i: int| 0 <= i < rows.len() ==> is_invalid_digest_row(#[trigger] rows[i])
}

/// The metadata of the digests that have a path, after rows of captures with another digest than the
/// expected one are read. A digest that has metadata keeps it.
pub open spec fn invalid_captures(
    entries: Map<Seq<char>, MetadataView>,
    paths: Map<Seq<char>, Option<Seq<char>>>,
    rows: Seq<Seq<Seq<char>>>,
) -> Map<Seq<char>, MetadataView>
    decreases rows.len(),
{
    if rows.len() == 0 {
        entries
    } else {
        let before = invalid_captures(entries, paths, rows.drop_last());
        let row = rows.last();
        if paths.contains_key(row[3]) && !before.contains_key(row[3]) {
            before.insert(
                row[3],
                MetadataView {
                    expected_digest: Some(digest::digest_value(row[2])),
                    timestamp: timestamp::timestamp_value(row[1]),
                    url_path: recorded_path(row[0], paths[row[3]]),
                },
            )
        } else {
            before
        }
    }
}

/// Adds metadata for captures whose content digest differs from the CDX digest, for digests that
/// have none yet. The rows before a malformed one are read.
pub fn add_invalid_digests(
    entries: &mut TextTable<Metadata>,
    url_paths: &TextTable<Option<String>>,
    rows: &Vec<Vec<String>>,
) -> (result: Result<(), InvalidRows>)
    ensures
        match result {
            Ok(_) => {
                &&& are_invalid_digest_rows(tabular::row_views(rows@))
                &&& metadata_views(final(entries)@) == invalid_captures(
                    metadata_views(old(entries)@),
                    path_views(url_paths@),
                    tabular::row_views(rows@),
                )
            },
            Err(_) => exists|n: int|
                {
                    &&& 0 <= n < rows@.len()
                    &&& !is_invalid_digest_row(#[trigger] tabular::row_views(rows@)[n])
                    &&& are_invalid_digest_rows(tabular::row_views(rows@).take(n))
                    &&& metadata_views(final(entries)@) == invalid_captures(
                        metadata_views(old(entries)@),
                        path_views(url_paths@),
                        tabular::row_views(rows@).take(n),
                    )
                },
        },
{
    let ghost views = tabular::row_views(rows@);
    let ghost paths = path_views(url_paths@);
    let ghost start = metadata_views(entries@);
    let mut i: usize = 0;
    assert(views.take(0) =~= Seq::empty());
    while i < rows.len()
        invariant
            i <= rows@.len(),
            views == tabular::row_views(rows@),
            paths == path_views(url_paths@),
            start == metadata_views(old(entries)@),
            are_invalid_digest_rows(views.take(i as int)),
            metadata_views(entries@) == invalid_captures(start, paths, views.take(i as int)),
        decreases rows@.len() - i,
    {
        let row = &rows[i];
        proof {
            assert(views[i as int] == lines::string_views(row@));
            assert(views.take(i + 1).drop_last() =~= views.take(i as int));
            assert(views.take(i + 1).last() == views[i as int]);
        }
        if row.len() < 4 {
            assert(!is_invalid_digest_row(views[i as int]));
            return Err(InvalidRows);
        }
        let timestamp = match Timestamp::parse_str(row[1].as_str()) {
            Ok(timestamp) => timestamp,
            Err(_) => {
                assert(!is_invalid_digest_row(views[i as int]));
                return Err(InvalidRows);
            },
        };
        let expected = match Sha1Digest::parse_str(row[2].as_str()) {
            Ok(expected) => expected,
            Err(_) => {
                assert(!is_invalid_digest_row(views[i as int]));
                return Err(InvalidRows);
            },
        };
        if Sha1Digest::parse_str(row[3].as_str()).is_err() {
            assert(!is_invalid_digest_row(views[i as int]));
            return Err(InvalidRows);
        }
        let key = &row[3];
        if let Some(path) = url_paths.get(key.as_str()) {
            if !entries.contains_key(key.as_str()) {
                let inferred: Option<&str> = match path {
                    Some(path) => Some(path.as_str()),
                    None => None,
                };
                let metadata = Metadata::new(timestamp, row[0].as_str(), inferred)
                    .with_expected_digest(expected);
                let ghost before = entries@;
                let ghost added = metadata;
                entries.insert(key.as_str(), metadata);
                assert(metadata_views(entries@) =~= metadata_views(before).insert(key@, added@));
            }
        }
        assert(are_invalid_digest_rows(views.take(i + 1))) by {
            assert forall|k: int| 0 <= k < i + 1 implies is_invalid_digest_row(
                #[trigger] views.take(i + 1)[k],
            ) by {
                if k < i {
                    assert(views.take(i as int)[k] == views[k]);
                }
            }
        }
        i = i + 1;
    }
    assert(views.take(rows@.len() as int) =~= views);
    Ok(())
}

/// Adds metadata for the captures that a text of comma-separated values lists (URL, timestamp,
/// expected digest, digest), for digests that have none yet.
pub fn read_invalid_digests(
    text: &str,
    url_paths: &TextTable<Option<String>>,
    entries: &mut TextTable<Metadata>,
) -> (result: Result<(), InvalidRows>)
    ensures
        match result {
            Ok(_) => {
                &&& tabular::csv_rows(text@) is Some
                &&& are_invalid_digest_rows(tabular::csv_rows(text@).unwrap())
                &&& metadata_views(final(entries)@) == invalid_captures(
                    metadata_views(old(entries)@),
                    path_views(url_paths@),
                    tabular::csv_rows(text@).unwrap(),
                )
            },
            Err(_) => tabular::csv_rows(text@) matches Some(rows) ==> !are_invalid_digest_rows(rows),
        },
{
    match parse_rows(text) {
        Some(rows) => {
            let ghost views = tabular::row_views(rows@);
            match add_invalid_digests(entries, url_paths, &rows) {
                Ok(()) => Ok(()),
                Err(error) => {
                    assert(!are_invalid_digest_rows(views));
                    Err(error)
                },
            }
        },
        None => Err(InvalidRows),
    }
}

/// A snapshot with the metadata of a capture in place of its own.
pub open spec fn enhanced_view(view: LineView, metadata: MetadataView) -> LineView {
    LineView {
        expected_digest: match metadata.expected_digest {
            Some(expected) => Some(digest::digest_text(expected)),
            None => None,
        },
        timestamp: Some(metadata.timestamp),
        url: full_url(metadata.url_path),
        ..view
    }
}

/// Why a line cannot be enhanced.
#[derive(Clone, Copy, Debug, PartialEq, Eq, Structural)]
pub enum EnhanceError {
    /// The line does not hold a snapshot.
    InvalidLine,
    /// The metadata holds a value that cannot be written.
    Unwritable,
}

/// What a line is enhanced to be: the line itself if nothing is known of its digest.
#[verifier::opaque]
pub open spec fn enhancement(line: Seq<char>, entries: Map<Seq<char>, MetadataView>) -> Result<
    Seq<char>,
    EnhanceError,
> {
    match exact::parse_line(line) {
        None => Err(EnhanceError::InvalidLine),
        Some(view) => {
            let key = digest::digest_text(view.digest);
            let written = exact::written_view(
                enhanced_view(view, entries[key]),
                Seq::empty(),
                None,
            );
            if !entries.contains_key(key) {
                Ok(line)
            } else if exact::is_writable(written) {
                Ok(exact::line_text(written))
            } else {
                Err(EnhanceError::Unwritable)
            }
        },
    }
}

/// Replaces the timestamp, expected digest and URL of a snapshot line by what is known of its digest.
/// The URL is kept whether or not it could be inferred, and so is closing whitespace.
pub fn enhance_line(line: &str, entries: &TextTable<Metadata>) -> (result: Result<
    String,
    EnhanceError,
>)
    ensures
        enhancement(line@, metadata_views(entries@)) == match result {
            Ok(enhanced) => Ok::<Seq<char>, EnhanceError>(enhanced@),
            Err(error) => Err(error),
        },
{
    proof {
        reveal(enhancement);
    }
    let mut snapshot = match Snapshot::parse(line) {
        Ok(snapshot) => snapshot,
        Err(_) => return Err(EnhanceError::InvalidLine),
    };
    let ghost view = exact::snapshot_view(snapshot);
    let key = snapshot.digest.to_string();
    match entries.get(key.as_str()) {
        Some(metadata) => {
            snapshot.expected_digest = match &metadata.expected_digest {
                Some(expected) => Some(Cow::Owned(expected.to_string())),
                None => None,
            };
            snapshot.timestamp = Some(metadata.timestamp);
            snapshot.url = match metadata.url() {
                Some(url) => Some(Cow::Owned(url)),
                None => None,
            };
            assert(exact::snapshot_view(snapshot) =~= enhanced_view(view, metadata@));
            let context = Context::empty();
            match snapshot.display(&context, None).to_string() {
                Ok(enhanced) => Ok(enhanced),
                Err(_) => Err(EnhanceError::Unwritable),
            }
        },
        None => Ok(line.to_owned()),
    }
}

/// The first line that cannot be enhanced, by its one-based number.
#[derive(Clone, Copy, Debug, PartialEq, Eq, Structural)]
pub struct EnhanceErrorAt {
    /// The number of the line.
    pub line: usize,
    /// Why it cannot be enhanced.
    pub error: EnhanceError,
}

/// What lines that can all be enhanced are enhanced to be.
pub open spec fn enhanced_lines(
    lines: Seq<Seq<char>>,
    entries: Map<Seq<char>, MetadataView>,
) -> Seq<Seq<char>> {
    lines.map_values(|line: Seq<char>| enhancement(line, entries)->Ok_0)
}

/// Enhances every line of a snapshot file.
pub fn enhance(all: &Vec<String>, entries: &TextTable<Metadata>) -> (result: Result<
    String,
    EnhanceErrorAt,
>)
    ensures
        match result {
            Ok(output) => {
                &&& forall|i: int|
                    0 <= i < all@.len() ==> enhancement(
                        #[trigger] lines::string_views(all@)[i],
                        metadata_views(entries@),
                    ) is Ok
                &&& output@ == lines::written(
                    enhanced_lines(lines::string_views(all@), metadata_views(entries@)),
                )
            },
            Err(failure) => {
                &&& 0 < failure.line <= all@.len()
                &&& enhancement(
                    lines::string_views(all@)[failure.line - 1],
                    metadata_views(entries@),
                ) == Err::<Seq<char>, EnhanceError>(failure.error)
                &&& forall|i: int|
                    0 <= i < failure.line - 1 ==> enhancement(
                        #[trigger] lines::string_views(all@)[i],
                        metadata_views(entries@),
                    ) is Ok
            },
        },
{
    let ghost views = lines::string_views(all@);
    let ghost known = metadata_views(entries@);
    let ghost enhanced = enhanced_lines(views, known);
    let mut output = String::new();
    let mut i: usize = 0;
    assert(enhanced.take(0) =~= Seq::empty());
    assert(output@ =~= Seq::empty());
    while i < all.len()
        invariant
            i <= all@.len(),
            views == lines::string_views(all@),
            known == metadata_views(entries@),
            enhanced == enhanced_lines(views, known),
            output@ == lines::written(enhanced.take(i as int)),
            forall|k: int| 0 <= k < i ==> enhancement(#[trigger] views[k], known) is Ok,
        decreases all@.len() - i,
    {
        assert(views[i as int] == all@[i as int]@);
        let line: String = match enhance_line(all[i].as_str(), entries) {
            Ok(line) => line,
            Err(error) => return Err(EnhanceErrorAt { line: i + 1, error }),
        };
        let ghost before = output@;
        append(&mut output, line.as_str());
        output.push('\n');
        proof {
            assert(enhanced[i as int] == line@);
            assert(enhanced.take(i + 1).drop_last() =~= enhanced.take(i as int));
            assert(enhanced.take(i + 1).last() == line@);
            assert(output@ =~= before + line@ + seq!['\n']);
        }
        i = i + 1;
    }
    assert(enhanced.take(all@.len() as int) =~= enhanced);
    Ok(output)
}

/// The line of digest and inferred URL for a snapshot without a URL, if it is to be reported: a
/// snapshot that carries a timestamp or an expected digest only on request.
pub open spec fn url_report(
    view: LineView,
    inferred: Option<Seq<char>>,
    include_timestamped: bool,
) -> Option<Seq<char>> {
    if view.url is None && (include_timestamped || (view.timestamp is None
        && view.expected_digest is None)) {
        Some(
            digest::digest_text(view.digest) + seq![','] + match inferred {
                Some(url) => url,
                None => Seq::empty(),
            },
        )
    } else {
        None
    }
}

/// The digest and inferred canonical URL of a snapshot line without a `url` field, if it is to be
/// reported. With `include_timestamped` set, that is also the case for a line that carries a timestamp
/// or an expected digest.
pub fn report_url(line: &str, inferred: Option<&str>, include_timestamped: bool) -> (result: Result<
    Option<String>,
    InvalidLine,
>)
    ensures
        match result {
            Ok(report) => exact::parse_line(line@) matches Some(view) && string_view(report)
                == url_report(view, text::str_view(inferred), include_timestamped),
            Err(_) => exact::parse_line(line@) is None,
        },
{
    let snapshot = match Snapshot::parse(line) {
        Ok(snapshot) => snapshot,
        Err(error) => return Err(error),
    };
    let has_metadata: bool = snapshot.has_metadata() || snapshot.expected_digest.is_some();
    if snapshot.url.is_some() || (has_metadata && !include_timestamped) {
        return Ok(None);
    }
    let mut report = snapshot.digest.to_string();
    report.push(',');
    if let Some(url) = inferred {
        append(&mut report, url);
    }
    assert(string_view(Some(report)).unwrap() =~= url_report(
        exact::snapshot_view(snapshot),
        text::str_view(inferred),
        include_timestamped,
    ).unwrap());
    Ok(Some(report))
}

/// A URL is recorded unless it is the inferred path behind the address of Twitter, and a recorded URL is given
/// back in full, whatever path it has.
pub proof fn law_inferred_urls_are_left_out(url: Seq<char>, inferred: Option<Seq<char>>)
    requires
        is_absolute(url),
    ensures
        ({
            let is_inferred = inferred matches Some(path) && url == "https://twitter.com"@ + path;
            &&& is_inferred ==> recorded_path(url, inferred) is None
            &&& !is_inferred ==> recorded_path(url, inferred) is Some
            &&& !is_inferred ==> full_url(recorded_path(url, inferred)) == Some(url)
            &&& full_url(None) is None
        }),
{
    law_recorded_url(url, inferred);
    let base = "https://twitter.com"@;
    if let Some(path) = inferred {
        if url == base + path {
            assert(url.subrange(0, base.len() as int) =~= base);
            assert(url.skip(base.len() as int) =~= path);
        }
    }
    if text::has_at(url, 0, base) {
        assert(url =~= url.subrange(0, base.len() as int) + url.skip(base.len() as int));
    }
}

/// A path of Twitter is recorded without the address, and comes back behind it.
pub proof fn law_paths_are_relative(path: Seq<char>)
    ensures
        path.len() > 0 && path[0] == '/' ==> recorded_path("https://twitter.com"@ + path, None) == Some(
            path,
        ) && full_url(Some(path)) == Some("https://twitter.com"@ + path),
        path.len() > 0 && path[0] == '/' ==> !is_absolute(path),
{
    let base = "https://twitter.com"@;
    let url = base + path;
    assert(url.subrange(0, base.len() as int) =~= base);
    assert(url.skip(base.len() as int) =~= path);
}

/// A URL is absolute exactly if it starts with a scheme and a colon: a letter, and then letters, digits, plus
/// signs, hyphens and dots.
pub proof fn law_absolute_urls_have_schemes(scheme: Seq<char>, rest: Seq<char>)
    requires
        !scheme.contains(':'),
    ensures
        is_absolute(scheme + seq![':'] + rest) <==> scheme.len() > 0 && ('a' <= scheme[0] <= 'z' || 'A'
            <= scheme[0] <= 'Z') && forall|i: int|
            0 <= i < scheme.len() ==> ({
                let c = #[trigger] scheme[i];
                'a' <= c <= 'z' || 'A' <= c <= 'Z' || '0' <= c <= '9' || c == '+' || c == '-' || c == '.'
            }),
        !is_absolute(scheme),
{
    let url = scheme + seq![':'] + rest;
    assert(url[scheme.len() as int] == ':');
    assert(!is_absolute(scheme)) by {
        if is_absolute(scheme) {
            let colon = choose|colon: int|
                {
                    &&& 0 < colon < scheme.len()
                    &&& #[trigger] scheme[colon] == ':'
                    &&& forall|i: int| 0 <= i < colon ==> is_scheme_char(#[trigger] scheme[i])
                };
            assert(scheme.contains(scheme[colon]));
        }
    }
    if is_absolute(url) {
        let colon = choose|colon: int|
            {
                &&& 0 < colon < url.len()
                &&& #[trigger] url[colon] == ':'
                &&& forall|i: int| 0 <= i < colon ==> is_scheme_char(#[trigger] url[i])
            };
        if colon < scheme.len() {
            assert(scheme.contains(scheme[colon]));
        } else if colon > scheme.len() {
            assert(is_scheme_char(url[scheme.len() as int]));
        }
        assert forall|i: int| 0 <= i < scheme.len() implies ({
            let c = #[trigger] scheme[i];
            'a' <= c <= 'z' || 'A' <= c <= 'Z' || '0' <= c <= '9' || c == '+' || c == '-' || c == '.'
        }) by {
            assert(is_scheme_char(url[i]));
        }
        assert(url[0] == scheme[0]);
    }
    if scheme.len() > 0 && ('a' <= scheme[0] <= 'z' || 'A' <= scheme[0] <= 'Z') && (forall|i: int|
        0 <= i < scheme.len() ==> ({
            let c = #[trigger] scheme[i];
            'a' <= c <= 'z' || 'A' <= c <= 'Z' || '0' <= c <= '9' || c == '+' || c == '-' || c == '.'
        })) {
        assert forall|i: int| 0 <= i < scheme.len() implies is_scheme_char(#[trigger] url[i]) by {
            let c = scheme[i];
            assert(url[i] == c);
        }
        assert(url[0] == scheme[0]);
    }
}

/// A row of URLs gives a digest its path: that of a Twitter URL, or none for an empty field. Any other row is
/// invalid.
pub proof fn law_url_rows(row: Seq<Seq<char>>)
    ensures
        match url_row(row) {
            Some((digest, path)) => {
                &&& row.len() >= 2
                &&& digest::is_digest_text(row[0])
                &&& digest == row[0]
                &&& path is None ==> row[1].len() == 0
                &&& path matches Some(path) ==> row[1] == "https://twitter.com"@ + path
            },
            None => {
                ||| row.len() < 2
                ||| !digest::is_digest_text(row[0])
                ||| row[1].len() > 0 && !"https://twitter.com"@.is_prefix_of(row[1])
            },
        },
{
    let base = "https://twitter.com"@;
    if row.len() >= 2 {
        if text::has_at(row[1], 0, base) {
            assert(row[1] =~= row[1].subrange(0, base.len() as int) + row[1].skip(base.len() as int));
        } else if base.is_prefix_of(row[1]) {
            assert(row[1].subrange(0, base.len() as int) =~= base);
        }
    }
}

/// The first capture of a digest that has a path is what is recorded for it, unless something was recorded
/// before: its timestamp, and its URL against the path.
pub proof fn law_first_capture_is_recorded(
    entries: Map<Seq<char>, MetadataView>,
    paths: Map<Seq<char>, Option<Seq<char>>>,
    items: Seq<ItemView>,
    key: Seq<char>,
)
    ensures
        ({
            let after = first_captures(entries, paths, items);
            &&& entries.contains_key(key) ==> after.contains_key(key) && after[key] == entries[key]
            &&& !entries.contains_key(key) ==> (after.contains_key(key) <==> digest::is_digest_text(key)
                && paths.contains_key(key) && exists|i: int|
                0 <= i < items.len() && (#[trigger] items[i]).digest == key)
            &&& !entries.contains_key(key) && after.contains_key(key) ==> exists|i: int|
                {
                    &&& 0 <= i < items.len()
                    &&& (#[trigger] items[i]).digest == key
                    &&& forall|k: int| 0 <= k < i ==> (#[trigger] items[k]).digest != key
                    &&& after[key].timestamp == items[i].timestamp
                    &&& after[key].expected_digest is None
                    &&& after[key].url_path == recorded_path(items[i].original, paths[key])
                }
        }),
    decreases items.len(),
{
    if items.len() > 0 {
        let front = items.drop_last();
        law_first_capture_is_recorded(entries, paths, front, key);
        let before = first_captures(entries, paths, front);
        let after = first_captures(entries, paths, items);
        assert(forall|k: int| 0 <= k < front.len() ==> #[trigger] items[k] == front[k]);
        if !entries.contains_key(key) {
            if before.contains_key(key) {
                let i = choose|i: int|
                    {
                        &&& 0 <= i < front.len()
                        &&& (#[trigger] front[i]).digest == key
                        &&& forall|k: int| 0 <= k < i ==> (#[trigger] front[k]).digest != key
                        &&& before[key].timestamp == front[i].timestamp
                        &&& before[key].expected_digest is None
                        &&& before[key].url_path == recorded_path(front[i].original, paths[key])
                    };
                assert(items[i].digest == key);
                assert forall|k: int| 0 <= k < i implies (#[trigger] items[k]).digest != key by {
                    assert(front[k].digest != key);
                }
            } else if items.last().digest == key {
                assert(items[items.len() - 1].digest == key);
                if after.contains_key(key) {
                    assert forall|k: int| 0 <= k < front.len() implies (#[trigger] items[k]).digest
                        != key by {
                        assert(front[k].digest != key);
                    }
                }
            } else if exists|i: int| 0 <= i < items.len() && (#[trigger] items[i]).digest == key {
                let i = choose|i: int| 0 <= i < items.len() && (#[trigger] items[i]).digest == key;
                assert(front[i].digest == key);
            }
        }
    }
}

/// The first row whose content had a digest that has a path is what is recorded for it, unless something was
/// recorded before: its timestamp, the digest that was expected, and its URL against the path.
pub proof fn law_first_invalid_digest_is_recorded(
    entries: Map<Seq<char>, MetadataView>,
    paths: Map<Seq<char>, Option<Seq<char>>>,
    rows: Seq<Seq<Seq<char>>>,
    key: Seq<char>,
)
    ensures
        ({
            let after = invalid_captures(entries, paths, rows);
            &&& entries.contains_key(key) ==> after.contains_key(key) && after[key] == entries[key]
            &&& !entries.contains_key(key) ==> (after.contains_key(key) <==> paths.contains_key(key)
                && exists|i: int| 0 <= i < rows.len() && (#[trigger] rows[i])[3] == key)
            &&& !entries.contains_key(key) && after.contains_key(key) ==> exists|i: int|
                {
                    &&& 0 <= i < rows.len()
                    &&& (#[trigger] rows[i])[3] == key
                    &&& forall|k: int| 0 <= k < i ==> (#[trigger] rows[k])[3] != key
                    &&& after[key].timestamp == timestamp::timestamp_value(rows[i][1])
                    &&& after[key].expected_digest == Some(digest::digest_value(rows[i][2]))
                    &&& after[key].url_path == recorded_path(rows[i][0], paths[key])
                }
        }),
    decreases rows.len(),
{
    if rows.len() > 0 {
        let front = rows.drop_last();
        law_first_invalid_digest_is_recorded(entries, paths, front, key);
        let before = invalid_captures(entries, paths, front);
        let after = invalid_captures(entries, paths, rows);
        assert(forall|k: int| 0 <= k < front.len() ==> #[trigger] rows[k] == front[k]);
        if !entries.contains_key(key) {
            if before.contains_key(key) {
                let i = choose|i: int|
                    {
                        &&& 0 <= i < front.len()
                        &&& (#[trigger] front[i])[3] == key
                        &&& forall|k: int| 0 <= k < i ==> (#[trigger] front[k])[3] != key
                        &&& before[key].timestamp == timestamp::timestamp_value(front[i][1])
                        &&& before[key].expected_digest == Some(digest::digest_value(front[i][2]))
                        &&& before[key].url_path == recorded_path(front[i][0], paths[key])
                    };
                assert(rows[i][3] == key);
                assert forall|k: int| 0 <= k < i implies (#[trigger] rows[k])[3] != key by {
                    assert(front[k][3] != key);
                }
            } else if rows.last()[3] == key {
                assert(rows[rows.len() - 1][3] == key);
                if after.contains_key(key) {
                    assert forall|k: int| 0 <= k < front.len() implies (#[trigger] rows[k])[3] != key by {
                        assert(front[k][3] != key);
                    }
                }
            } else if exists|i: int| 0 <= i < rows.len() && (#[trigger] rows[i])[3] == key {
                let i = choose|i: int| 0 <= i < rows.len() && (#[trigger] rows[i])[3] == key;
                assert(front[i][3] == key);
            }
        }
    }
}

/// A line without metadata stays as it is. One with metadata keeps its digest, its content and its format, and
/// has the timestamp, the expected digest and the URL of the metadata and nothing of its own there.
pub proof fn law_enhanced_lines_keep_content(line: Seq<char>, entries: Map<Seq<char>, MetadataView>)
    ensures
        exact::parse_line(line) is None ==> enhancement(line, entries) == Err::<Seq<char>, EnhanceError>(
            EnhanceError::InvalidLine,
        ),
        exact::parse_line(line) matches Some(view) ==> {
            let key = digest::digest_text(view.digest);
            &&& !entries.contains_key(key) ==> enhancement(line, entries) == Ok::<
                Seq<char>,
                EnhanceError,
            >(line)
            &&& entries.contains_key(key) ==> {
                let metadata = entries[key];
                let enhanced = LineView {
                    expected_digest: match metadata.expected_digest {
                        Some(expected) => Some(digest::digest_text(expected)),
                        None => None,
                    },
                    timestamp: Some(metadata.timestamp),
                    url: match metadata.url_path {
                        Some(path) => Some(
                            if is_absolute(path) {
                                path
                            } else {
                                "https://twitter.com"@ + path
                            },
                        ),
                        None => None,
                    },
                    digest: view.digest,
                    format: view.format,
                    content: view.content,
                };
                let written = exact::written_view(enhanced, Seq::empty(), None);
                enhancement(line, entries) == if exact::is_writable(written) {
                    Ok::<Seq<char>, EnhanceError>(exact::line_text(written))
                } else {
                    Err(EnhanceError::Unwritable)
                }
            }
        },
{
    reveal(enhancement);
}

/// A line is reported exactly if it has no URL and, unless timestamped lines are asked for too, neither a
/// timestamp nor an expected digest. The report is its digest, a comma, and the URL that is inferred, if any.
pub proof fn law_which_lines_are_reported(
    view: LineView,
    inferred: Option<Seq<char>>,
    include_timestamped: bool,
)
    ensures
        ({
            let report = url_report(view, inferred, include_timestamped);
            &&& report is Some <==> view.url is None && (include_timestamped || view.timestamp is None
                && view.expected_digest is None)
            &&& report matches Some(row) ==> {
                &&& inferred matches Some(url) ==> row == digest::digest_text(view.digest) + seq![',']
                    + url
                &&& inferred is None ==> row == digest::digest_text(view.digest) + seq![',']
            }
        }),
{
    if let Some(row) = url_report(view, inferred, include_timestamped) {
        if inferred is None {
            assert(row =~= digest::digest_text(view.digest) + seq![',']);
        }
    }
}

/// Of several rows for a digest the last gives its path.
pub proof fn law_last_url_row_counts(rows: Seq<Seq<Seq<char>>>, key: Seq<char>)
    requires
        are_url_rows(rows),
    ensures
        url_paths_of(rows).contains_key(key) <==> exists|i: int|
            0 <= i < rows.len() && (#[trigger] rows[i])[0] == key,
        url_paths_of(rows).contains_key(key) ==> exists|i: int|
            {
                &&& 0 <= i < rows.len()
                &&& (#[trigger] rows[i])[0] == key
                &&& forall|k: int| i < k < rows.len() ==> (#[trigger] rows[k])[0] != key
                &&& rows[i][1].len() == 0 ==> url_paths_of(rows)[key] is None
                &&& rows[i][1].len() > 0 ==> (url_paths_of(rows)[key] matches Some(path) && rows[i][1]
                    == "https://twitter.com"@ + path)
            },
    decreases rows.len(),
{
    if rows.len() > 0 {
        let front = rows.drop_last();
        assert(forall|k: int| 0 <= k < front.len() ==> #[trigger] rows[k] == front[k]);
        assert(are_url_rows(front)) by {
            assert forall|k: int| 0 <= k < front.len() implies url_row(#[trigger] front[k]) is Some by {
                assert(url_row(rows[k]) is Some);
            }
        }
        law_last_url_row_counts(front, key);
        let last = rows[rows.len() - 1];
        assert(url_row(last) is Some);
        law_url_rows(last);
        reveal_strlit("https://twitter.com");
        if last[0] != key && url_paths_of(front).contains_key(key) {
            let i = choose|i: int|
                {
                    &&& 0 <= i < front.len()
                    &&& (#[trigger] front[i])[0] == key
                    &&& forall|k: int| i < k < front.len() ==> (#[trigger] front[k])[0] != key
                    &&& front[i][1].len() == 0 ==> url_paths_of(front)[key] is None
                    &&& front[i][1].len() > 0 ==> (url_paths_of(front)[key] matches Some(path)
                        && front[i][1] == "https://twitter.com"@ + path)
                };
            assert(rows[i][0] == key);
        }
    }
}

/// A row of invalid digests has at least four fields: the second is a timestamp, and the third and fourth are
/// digests.
pub proof fn law_invalid_digest_rows(row: Seq<Seq<char>>)
    ensures
        is_invalid_digest_row(row) <==> row.len() >= 4 && timestamp::is_timestamp_text(row[1])
            && digest::is_digest_text(row[2]) && digest::is_digest_text(row[3]),
{
}

/// Every line is enhanced, in its place.
pub proof fn law_every_line_is_enhanced(
    lines: Seq<Seq<char>>,
    entries: Map<Seq<char>, MetadataView>,
    i: int,
)
    requires
        0 <= i < lines.len(),
        enhancement(lines[i], entries) is Ok,
    ensures
        enhanced_lines(lines, entries).len() == lines.len(),
        enhancement(lines[i], entries) == Ok::<Seq<char>, EnhanceError>(
            enhanced_lines(lines, entries)[i],
        ),
{
}

/// Metadata is seen by its expected digest, its timestamp and its path.
pub proof fn law_metadata_is_seen_whole(metadata: Metadata)
    ensures
        metadata@.timestamp == metadata.timestamp@,
        metadata.expected_digest matches Some(expected) ==> metadata@.expected_digest == Some(expected@),
        metadata.expected_digest is None ==> metadata@.expected_digest is None,
        metadata.url_path matches Some(path) ==> metadata@.url_path == Some(path@),
        metadata.url_path is None ==> metadata@.url_path is None,
{
}

} // verus!
