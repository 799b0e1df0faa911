//! What follows from the reply to a snapshot request: whether the content is the one expected, and what
//! is to be recorded.
use std::borrow::Cow;

use vstd::prelude::*;

use crate::digest;
use crate::digest::{Digest, Sha1Digest};
use crate::invalid_log::Entry;
use crate::item::{ItemInfo, UrlParts};
use crate::lines;
use crate::tabular;
use crate::tabular::parse_rows;
use crate::timestamp;
use crate::timestamp::Timestamp;

verus! {

/// Why the archive declined to serve a snapshot.
#[derive(Clone, Copy, Debug, PartialEq, Eq, Structural)]
pub enum FailedDownload {
    /// The snapshot is withheld.
    Forbidden,
    /// There is no such snapshot.
    NotFound,
}

/// What is to be recorded of a reply.
#[derive(Debug, PartialEq, Eq)]
pub enum Record {
    /// The content does not have the expected digest.
    InvalidDigest(Entry<'static>),
    /// The snapshot is withheld.
    Withheld(String),
}

/// What follows from a reply.
#[derive(Debug, PartialEq, Eq)]
pub struct Outcome {
    /// Whether there is content.
    pub is_served: bool,
    /// The digest of the content, but only when it is not the expected one.
    pub actual_digest: Option<Sha1Digest>,
    /// What is to be recorded.
    pub record: Option<Record>,
}

/// Whether content has the expected digest.
pub open spec fn is_expected(content: Seq<u8>, expected: Digest<'_>) -> bool {
    expected matches Digest::Valid(digest) && digest@ == digest::digest_of(content)
}

/// Checks the reply to the request for `url` at `timestamp` against the expected digest.
///
/// A withheld snapshot is recorded, while a missing one is not. A digest mismatch is not an error
/// either: it is recorded and reported.
pub fn check_reply(
    url: &str,
    timestamp: Timestamp,
    expected_digest: &Digest<'_>,
    reply: Result<&[u8], FailedDownload>,
) -> (outcome: Outcome)
    ensures
        match reply {
            Ok(content) => {
                &&& outcome.is_served
                &&& if is_expected(content@, *expected_digest) {
                    outcome.actual_digest is None && outcome.record is None
                } else {
                    &&& outcome.actual_digest matches Some(actual) && actual@ == digest::digest_of(
                        content@,
                    )
                    &&& outcome.record matches Some(Record::InvalidDigest(entry)) && {
                        &&& entry@.url == url@
                        &&& entry@.timestamp == timestamp@
                        &&& entry@.expected == expected_digest.text()
                        &&& entry@.actual == digest::digest_of(content@)
                    }
                }
            },
            Err(failure) => {
                &&& !outcome.is_served
                &&& outcome.actual_digest is None
                &&& match failure {
                    FailedDownload::Forbidden => outcome.record matches Some(Record::Withheld(at))
                        && at@ == url@,
                    FailedDownload::NotFound => outcome.record is None,
                }
            },
        },
{
    match reply {
        Ok(content) => {
            let computed_digest = Sha1Digest::compute(content);
            if let Digest::Valid(expected) = expected_digest {
                proof {
                    digest::lemma_digest_unique(computed_digest, *expected);
                }
                if computed_digest == *expected {
                    return Outcome { is_served: true, actual_digest: None, record: None };
                }
            }
            let expected: Digest<'static> = match expected_digest {
                Digest::Valid(expected) => Digest::Valid(*expected),
                Digest::Invalid(text) => Digest::Invalid(crate::text::own_cow(text)),
            };
            let parts: UrlParts<'static> = UrlParts::new(Cow::Owned(url.to_owned()), timestamp);
            let entry = Entry::new(ItemInfo::new(parts, expected), computed_digest);
            Outcome {
                is_served: true,
                actual_digest: Some(computed_digest),
                record: Some(Record::InvalidDigest(entry)),
            }
        },
        Err(FailedDownload::Forbidden) => Outcome {
            is_served: false,
            actual_digest: None,
            record: Some(Record::Withheld(url.to_owned())),
        },
        Err(FailedDownload::NotFound) => Outcome {
            is_served: false,
            actual_digest: None,
            record: None,
        },
    }
}

/// The rows do not list captures to download.
#[derive(Clone, Copy, Debug, PartialEq, Eq, Structural)]
pub struct InvalidQueue;

/// Whether a row lists a capture: its URL, its timestamp and its expected digest.
pub open spec fn is_queue_row(row: Seq<Seq<char>>) -> bool {
    row.len() >= 3 && timestamp::is_timestamp_text(row[1]) && digest::is_digest_text(row[2])
}

/// Whether an item is what a row lists.
pub open spec fn is_queued(item: ItemInfo<'static>, row: Seq<Seq<char>>) -> bool {
    &&& item.url_parts.url@ == row[0]
    &&& item.url_parts.timestamp@ == timestamp::timestamp_value(row[1])
    &&& item.expected_digest matches Digest::Valid(digest) && digest@ == digest::digest_value(row[2])
}

/// Whether every row lists a capture.
pub open spec fn are_queue_rows(rows: Seq<Seq<Seq<char>>>) -> bool {
    forall|i: int| 0 <= i < rows.len() ==> is_queue_row(#[trigger] rows[i])
}

/// Whether items are what rows list, in order.
pub open spec fn are_queued(items: Seq<ItemInfo<'static>>, rows: Seq<Seq<Seq<char>>>) -> bool {
    &&& items.len() == rows.len()
    &&& forall|i: int| 0 <= i < items.len() ==> is_queued(#[trigger] items[i], rows[i])
}

/// Collects the captures that rows list.
pub fn collect_queue(rows: &Vec<Vec<String>>) -> (result: Result<
    Vec<ItemInfo<'static>>,
    InvalidQueue,
>)
    ensures
        match result {
            Ok(items) => are_queue_rows(tabular::row_views(rows@)) && are_queued(
                items@,
                tabular::row_views(rows@),
            ),
            Err(_) => !are_queue_rows(tabular::row_views(rows@)),
        },
{
    let ghost views = tabular::row_views(rows@);
    let mut items: Vec<ItemInfo<'static>> = Vec::new();
    let mut k: usize = 0;
    while k < rows.len()
        invariant
            k <= rows@.len(),
            views == tabular::row_views(rows@),
            items@.len() == k,
            forall|i: int| 0 <= i < k ==> is_queue_row(#[trigger] views[i]),
            forall|i: int| 0 <= i < k ==> is_queued(#[trigger] items@[i], views[i]),
        decreases rows@.len() - k,
    {
        let row = &rows[k];
        assert(views[k as int] == lines::string_views(row@));
        if row.len() < 3 {
            return Err(InvalidQueue);
        }
        let ghost fields = lines::string_views(row@);
        assert(fields[0] == row@[0]@ && fields[1] == row@[1]@ && fields[2] == row@[2]@);
        let timestamp = match Timestamp::parse_str(row[1].as_str()) {
            Ok(timestamp) => timestamp,
            Err(_) => return Err(InvalidQueue),
        };
        let digest = match Sha1Digest::parse_str(row[2].as_str()) {
            Ok(digest) => digest,
            Err(_) => return Err(InvalidQueue),
        };
        let parts: UrlParts<'static> = UrlParts::new(Cow::Owned(row[0].clone()), timestamp);
        items.push(ItemInfo::new(parts, Digest::Valid(digest)));
        k = k + 1;
    }
    Ok(items)
}

/// Reads the captures to download from comma-separated values: URL, timestamp, expected digest.
pub fn read_queue(text: &str) -> (result: Result<Vec<ItemInfo<'static>>, InvalidQueue>)
    ensures
        match result {
            Ok(items) => tabular::csv_rows(text@) matches Some(rows) && are_queue_rows(rows)
                && are_queued(items@, rows),
            Err(_) => tabular::csv_rows(text@) matches Some(rows) ==> !are_queue_rows(rows),
        },
{
    match parse_rows(text) {
        Some(rows) => collect_queue(&rows),
        None => Err(InvalidQueue),
    }
}

/// What is done for a snapshot that is to be read from a cache.
#[derive(Clone, Copy, Debug, PartialEq, Eq, Structural)]
pub enum CacheStep {
    /// The saved file is served.
    Serve,
    /// The saved file is removed, and the snapshot downloaded again.
    Replace,
    /// The snapshot is downloaded.
    Fetch,
}

/// Decides what is done with what a cache has saved for a digest: a corrupted file is downloaded again.
pub fn check_cached(expected: Sha1Digest, saved: Option<&[u8]>) -> (step: CacheStep)
    ensures
        step == (match saved {
            None => CacheStep::Fetch,
            Some(bytes) => if digest::digest_of(bytes@) == expected@ {
                CacheStep::Serve
            } else {
                CacheStep::Replace
            },
        }),
{
    match saved {
        None => CacheStep::Fetch,
        Some(bytes) => {
            let actual = Sha1Digest::compute(bytes);
            proof {
                digest::lemma_digest_unique(actual, expected);
            }
            if actual == expected {
                CacheStep::Serve
            } else {
                CacheStep::Replace
            }
        },
    }
}

/// Whether a download is saved in a cache and served: the archive served it, and its content has the
/// expected digest. Nothing else is saved, so that the download is attempted again next time.
pub fn is_cacheable(expected: Sha1Digest, download: Option<&[u8]>) -> (cacheable: bool)
    ensures
        cacheable == (download matches Some(bytes) && digest::digest_of(bytes@) == expected@),
{
    match check_cached(expected, download) {
        CacheStep::Serve => true,
        _ => false,
    }
}

/// What follows a page of results.
#[derive(Debug, PartialEq, Eq)]
pub enum NextPage {
    /// The page that the key resumes at is fetched.
    Fetch(String),
    /// The key is reported, and nothing more is fetched.
    Report(String),
    /// There is no more.
    Stop,
}

/// Decides what follows a page of results: with `all` set, the resume key is followed.
pub fn after_page(resume_key: Option<String>, all: bool) -> (next: NextPage)
    ensures
        next == (match resume_key {
            Some(key) => if all {
                NextPage::Fetch(key)
            } else {
                NextPage::Report(key)
            },
            None => NextPage::Stop,
        }),
{
    match resume_key {
        Some(key) => if all {
            NextPage::Fetch(key)
        } else {
            NextPage::Report(key)
        },
        None => NextPage::Stop,
    }
}

/// A row of the queue lists a capture exactly if it has at least three fields, the second a timestamp and the
/// third a valid digest, and the item that it makes has the URL, the timestamp and the digest of the row.
pub proof fn law_queue_rows_are_captures(row: Seq<Seq<char>>, item: ItemInfo<'static>)
    ensures
        is_queue_row(row) <==> row.len() >= 3 && timestamp::is_timestamp_text(row[1])
            && digest::is_digest_text(row[2]),
        is_queue_row(row) && is_queued(item, row) ==> {
            &&& item.url_parts.url@ == row[0]
            &&& timestamp::timestamp_text(item.url_parts.timestamp@) == row[1]
            &&& item.expected_digest is Valid
            &&& item.expected_digest.text() == row[2]
        },
{
    if is_queue_row(row) {
        timestamp::law_timestamp_parse_writes_back(row[1]);
        digest::law_digest_parse_writes_back(row[2]);
    }
}

/// A copy in the cache is served exactly if it has the expected digest. Any other copy is replaced, and where
/// there is none the capture is fetched.
pub proof fn law_sound_copies_are_served(expected: Sha1Digest, saved: Option<&[u8]>, step: CacheStep)
    requires
        call_ensures(check_cached, (expected, saved), step),
    ensures
        step is Fetch <==> saved is None,
        step is Serve <==> saved is Some && digest::digest_of(saved.unwrap()@) == expected@,
        step is Replace <==> saved is Some && digest::digest_of(saved.unwrap()@) != expected@,
{
}

/// Content with the expected digest is served and nothing is recorded. Other content is served too, with its
/// digest, and recorded with where and when it was captured, the digest that was expected and its own. A capture
/// that is forbidden is recorded as withheld, and one that is not found is not recorded.
pub proof fn law_replies_are_recorded(
    url: &str,
    timestamp: Timestamp,
    expected_digest: &Digest<'_>,
    reply: Result<&[u8], FailedDownload>,
    outcome: Outcome,
)
    requires
        call_ensures(check_reply, (url, timestamp, expected_digest, reply), outcome),
    ensures
        outcome.is_served <==> reply is Ok,
        reply matches Ok(content) ==> {
            let actual = digest::digest_of(content@);
            let is_right = *expected_digest matches Digest::Valid(digest) && digest@ == actual;
            &&& is_right ==> outcome.record is None && outcome.actual_digest is None
            &&& !is_right ==> {
                &&& outcome.actual_digest matches Some(found)
                &&& found@ == actual
                &&& outcome.record matches Some(Record::InvalidDigest(entry))
                &&& entry@.url == url@
                &&& entry@.timestamp == timestamp@
                &&& entry@.expected == expected_digest.text()
                &&& entry@.actual == actual
            }
        },
        reply matches Err(failure) ==> {
            &&& outcome.actual_digest is None
            &&& failure is NotFound ==> outcome.record is None
            &&& failure is Forbidden ==> {
                &&& outcome.record matches Some(Record::Withheld(at))
                &&& at@ == url@
            }
        },
{
}

/// A download is cached exactly if there is one and it has the expected digest.
pub proof fn law_sound_downloads_are_cached(
    expected: Sha1Digest,
    download: Option<&[u8]>,
    cacheable: bool,
)
    requires
        call_ensures(is_cacheable, (expected, download), cacheable),
    ensures
        download is None ==> !cacheable,
        download matches Some(bytes) ==> (cacheable <==> digest::digest_of(bytes@) == expected@),
{
}

/// After a page, its resumption key is fetched where all pages are wanted and reported where they are not, and
/// without a key there is nothing more.
pub proof fn law_pages_are_followed(resume_key: Option<String>, all: bool, next: NextPage)
    requires
        call_ensures(after_page, (resume_key, all), next),
    ensures
        next is Stop <==> resume_key is None,
        resume_key matches Some(key) ==> {
            &&& all ==> next == NextPage::Fetch(key)
            &&& !all ==> next == NextPage::Report(key)
        },
{
}

} // verus!
