//! Reconciling snapshots with the CDX index.
//!
//! A snapshot may carry an expected digest or a URL that the index makes unnecessary, lack a URL
//! that cannot be inferred, or be missing in the index altogether.
use std::borrow::Cow;

use vstd::prelude::*;

use crate::cdx;
use crate::cdx::{Item, ItemView};
use crate::check;
use crate::check::{SourceLine, SourceView};
use crate::context::Context;
use crate::digest;
use crate::exact;
use crate::exact::{ExactSnapshot, LineView};
use crate::lines;
use crate::snapshot::Snapshot;
use crate::table::TextTable;
use crate::tabular;
use crate::text;
use crate::text::{append, borrow_str, same_str};
use crate::timestamp;
use crate::timestamp::Timestamp;

verus! {

/// The earliest capture of a digest.
#[derive(Debug)]
pub struct CdxEntry {
    /// When the capture was made.
    pub timestamp: Timestamp,
    /// The URL that was captured.
    pub url: String,
}

/// What is known of a digest.
#[verifier::ext_equal]
pub struct EntryView {
    /// When the capture was made.
    pub timestamp: int,
    /// The URL that was captured.
    pub url: Seq<char>,
}

impl View for CdxEntry {
    type V = EntryView;

    open spec fn view(&self) -> EntryView {
        EntryView { timestamp: self.timestamp@, url: self.url@ }
    }
}

/// What is known of each digest.
pub open spec fn entry_views(entries: Map<Seq<char>, CdxEntry>) -> Map<Seq<char>, EntryView> {
    entries.map_values(|entry: CdxEntry| entry@)
}

/// The digests that lines refer to: those of the snapshots, and their expected digests.
pub open spec fn referenced(lines: Seq<Seq<char>>) -> Set<Seq<char>>
    decreases lines.len(),
{
    if lines.len() == 0 {
        Set::empty()
    } else {
        let before = referenced(lines.drop_last());
        let view = exact::parse_line(lines.last()).unwrap();
        let with_digest = before.insert(digest::digest_text(view.digest));
        match view.expected_digest {
            Some(expected) => with_digest.insert(expected),
            None => with_digest,
        }
    }
}

/// A line with this one-based number does not hold a snapshot.
#[derive(Clone, Copy, Debug, PartialEq, Eq, Structural)]
pub struct InvalidLineAt(pub usize);

/// Whether the line with a one-based number is the first that does not hold a snapshot.
pub open spec fn is_first_invalid(lines: Seq<Seq<char>>, number: int) -> bool {
    &&& 0 < number <= lines.len()
    &&& exact::parse_line(lines[number - 1]) is None
    &&& forall|i: int| 0 <= i < number - 1 ==> exact::parse_line(#[trigger] lines[i]) is Some
}

/// Collects every digest and expected digest that lines refer to, as the texts that they are
/// written as.
pub fn collect_referenced_digests(all: &Vec<String>) -> (result: Result<
    TextTable<()>,
    InvalidLineAt,
>)
    ensures
        match result {
            Ok(found) => {
                &&& forall|i: int|
                    0 <= i < all@.len() ==> exact::parse_line(
                        #[trigger] lines::string_views(all@)[i],
                    ) is Some
                &&& found@.dom() == referenced(lines::string_views(all@))
            },
            Err(error) => is_first_invalid(lines::string_views(all@), error.0 as int),
        },
{
    let ghost views = lines::string_views(all@);
    let mut found: TextTable<()> = TextTable::new();
    let mut i: usize = 0;
    assert(views.take(0) =~= Seq::empty());
    assert(found@.dom() =~= Set::empty());
    while i < all.len()
        invariant
            i <= all@.len(),
            views == lines::string_views(all@),
            forall|k: int| 0 <= k < i ==> exact::parse_line(#[trigger] views[k]) is Some,
            found@.dom() == referenced(views.take(i as int)),
        decreases all@.len() - i,
    {
        assert(views[i as int] == all@[i as int]@);
        let snapshot = match Snapshot::parse(all[i].as_str()) {
            Ok(snapshot) => snapshot,
            Err(_) => return Err(InvalidLineAt(i + 1)),
        };
        let ghost before = found@;
        let digest = snapshot.digest.to_string();
        found.insert(digest.as_str(), ());
        assert(found@.dom() =~= before.dom().insert(digest@));
        let ghost with_digest = found@;
        if let Some(expected) = &snapshot.expected_digest {
            found.insert(borrow_str(expected), ());
            assert(found@.dom() =~= with_digest.dom().insert(expected@));
        }
        proof {
            assert(views.take(i + 1).drop_last() =~= views.take(i as int));
            assert(views.take(i + 1).last() == views[i as int]);
        }
        i = i + 1;
    }
    assert(views.take(all@.len() as int) =~= views);
    Ok(found)
}

/// The earliest captures of the digests in `wanted`, after more captures are read. Of two captures
/// made at the same time, the one read first is kept.
pub open spec fn earliest(
    entries: Map<Seq<char>, EntryView>,
    wanted: Set<Seq<char>>,
    items: Seq<ItemView>,
) -> Map<Seq<char>, EntryView>
    decreases items.len(),
{
    if items.len() == 0 {
        entries
    } else {
        let before = earliest(entries, wanted, items.drop_last());
        let item = items.last();
        if wanted.contains(item.digest) && (before.contains_key(item.digest) ==> item.timestamp
            < before[item.digest].timestamp) {
            before.insert(
                item.digest,
                EntryView { timestamp: item.timestamp, url: item.original },
            )
        } else {
            before
        }
    }
}

/// Reads capture records, keeping the earliest capture of each referenced digest.
pub fn read_referenced_cdx(
    entries: &mut TextTable<CdxEntry>,
    wanted: &TextTable<()>,
    items: &Vec<Item>,
)
    ensures
        entry_views(final(entries)@) == earliest(
            entry_views(old(entries)@),
            wanted@.dom(),
            cdx::item_views(items@),
        ),
{
    let ghost views = cdx::item_views(items@);
    let ghost start = entry_views(entries@);
    let mut i: usize = 0;
    assert(views.take(0) =~= Seq::empty());
    while i < items.len()
        invariant
            i <= items@.len(),
            views == cdx::item_views(items@),
            entry_views(entries@) == earliest(start, wanted@.dom(), views.take(i as int)),
        decreases items@.len() - i,
    {
        let item = &items[i];
        proof {
            assert(views[i as int] == item@);
            assert(views.take(i + 1).drop_last() =~= views.take(i as int));
            assert(views.take(i + 1).last() == item@);
        }
        let key = item.digest.to_string();
        if wanted.contains_key(key.as_str()) {
            let is_earlier: bool = match entries.get(key.as_str()) {
                Some(entry) => item.timestamp.to_secs() < entry.timestamp.to_secs(),
                None => true,
            };
            if is_earlier {
                let ghost before = entries@;
                let entry = CdxEntry { timestamp: item.timestamp, url: item.original.clone() };
                let ghost added = entry;
                entries.insert(key.as_str(), entry);
                assert(entry_views(entries@) =~= entry_views(before).insert(key@, added@));
            }
        }
        i = i + 1;
    }
    assert(views.take(items@.len() as int) =~= views);
}

/// Whether capture `i` is the one that is kept for its digest: no capture of the digest is earlier,
/// and none of those read before it was made at the same time.
pub open spec fn is_kept(items: Seq<ItemView>, i: int) -> bool {
    &&& 0 <= i < items.len()
    &&& forall|j: int|
        0 <= j < items.len() && (#[trigger] items[j]).digest == items[i].digest
            ==> items[i].timestamp <= items[j].timestamp
    &&& forall|j: int|
        0 <= j < i && (#[trigger] items[j]).digest == items[i].digest ==> items[i].timestamp
            < items[j].timestamp
}

/// Of the captures that are read, exactly those of referenced digests are kept, and of each such
/// digest the earliest.
pub proof fn law_earliest_capture_is_kept(
    wanted: Set<Seq<char>>,
    items: Seq<ItemView>,
    key: Seq<char>,
)
    ensures
        earliest(Map::empty(), wanted, items).contains_key(key) <==> wanted.contains(key) && (exists|
            i: int,
        |
            0 <= i < items.len() && (#[trigger] items[i]).digest == key),
        earliest(Map::empty(), wanted, items).contains_key(key) ==> exists|i: int| #[trigger]
            is_kept(items, i) && items[i].digest == key && earliest(Map::empty(), wanted, items)[key]
                == (EntryView { timestamp: items[i].timestamp, url: items[i].original }),
    decreases items.len(),
{
    let all = earliest(Map::empty(), wanted, items);
    if items.len() > 0 {
        let rest = items.drop_last();
        let last = items.len() - 1;
        let before = earliest(Map::empty(), wanted, rest);
        law_earliest_capture_is_kept(wanted, rest, key);
        if exists|i: int| 0 <= i < rest.len() && (#[trigger] rest[i]).digest == key {
            let i = choose|i: int| 0 <= i < rest.len() && (#[trigger] rest[i]).digest == key;
            assert(items[i].digest == key);
        }
        if exists|i: int| 0 <= i < items.len() && (#[trigger] items[i]).digest == key {
            let i = choose|i: int| 0 <= i < items.len() && (#[trigger] items[i]).digest == key;
            if i < last {
                assert(rest[i].digest == key);
            }
        }
        if all.contains_key(key) {
            if items[last].digest == key && all != before {
                assert forall|j: int|
                    0 <= j < items.len() && (#[trigger] items[j]).digest
                        == items[last].digest implies items[last].timestamp <= items[j].timestamp by {
                    if j < last {
                        assert(rest[j].digest == key);
                        let i = choose|i: int| #[trigger]
                            is_kept(rest, i) && rest[i].digest == key && before[key] == (EntryView {
                                timestamp: rest[i].timestamp,
                                url: rest[i].original,
                            });
                        assert(rest[i].timestamp <= rest[j].timestamp);
                    }
                }
                assert forall|j: int|
                    0 <= j < last && (#[trigger] items[j]).digest
                        == items[last].digest implies items[last].timestamp < items[j].timestamp by {
                    assert(rest[j].digest == key);
                    let i = choose|i: int| #[trigger]
                        is_kept(rest, i) && rest[i].digest == key && before[key] == (EntryView {
                            timestamp: rest[i].timestamp,
                            url: rest[i].original,
                        });
                    assert(rest[i].timestamp <= rest[j].timestamp);
                }
                assert(is_kept(items, last));
            } else {
                let i = choose|i: int| #[trigger]
                    is_kept(rest, i) && rest[i].digest == key && before[key] == (EntryView {
                        timestamp: rest[i].timestamp,
                        url: rest[i].original,
                    });
                assert(rest[i] == items[i]);
                assert forall|j: int|
                    0 <= j < items.len() && (#[trigger] items[j]).digest
                        == items[i].digest implies items[i].timestamp <= items[j].timestamp by {
                    if j < last {
                        assert(rest[j].digest == key);
                    }
                }
                assert forall|j: int|
                    0 <= j < i && (#[trigger] items[j]).digest == items[i].digest implies items[i].timestamp
                    < items[j].timestamp by {
                    assert(rest[j].digest == key);
                }
                assert(is_kept(items, i));
            }
        }
    }
}

/// The text of a value, or nothing.
pub open spec fn or_empty(value: Option<Seq<char>>) -> Seq<char> {
    match value {
        Some(value) => value,
        None => Seq::empty(),
    }
}

/// What is found of one snapshot, as rows of the reports.
#[verifier::ext_equal]
pub struct LineReportView {
    /// The digest, timestamp and URL in the index of a snapshot whose expected digest is unnecessary.
    pub unnecessary_expected: Option<Seq<Seq<char>>>,
    /// The digest, expected digest and URL of a snapshot that is not in the index.
    pub missing_cdx: Option<Seq<Seq<char>>>,
    /// The digest, inferred URL and URL in the index, where they differ.
    pub incorrect_inferred: Option<Seq<Seq<char>>>,
    /// The digest and URL of a snapshot whose URL is unnecessary.
    pub unnecessary_url: Option<Seq<Seq<char>>>,
    /// The snapshot without an unnecessary expected digest, and with the URL that cannot be inferred.
    pub corrected: LineView,
}

/// What the index makes of a snapshot, given the URL that its content implies.
pub open spec fn line_report(
    view: LineView,
    entries: Map<Seq<char>, EntryView>,
    inferred: Option<Seq<char>>,
) -> LineReportView {
    let digest = digest::digest_text(view.digest);
    let in_cdx = entries.contains_key(digest);
    let entry = entries[digest];
    let expected_in_cdx = view.expected_digest matches Some(expected) && entries.contains_key(
        expected,
    );
    let is_wrong = view.url is None && in_cdx && inferred != Some(entry.url);
    let is_unnecessary = view.expected_digest is Some && in_cdx;
    LineReportView {
        unnecessary_expected: if is_unnecessary {
            Some(seq![digest, timestamp::timestamp_text(entry.timestamp), entry.url])
        } else {
            None
        },
        missing_cdx: if !in_cdx && !expected_in_cdx {
            Some(
                seq![
                    digest,
                    or_empty(view.expected_digest),
                    or_empty(
                        if view.url is Some {
                            view.url
                        } else {
                            inferred
                        },
                    ),
                ],
            )
        } else {
            None
        },
        incorrect_inferred: if is_wrong {
            Some(seq![digest, or_empty(inferred), entry.url])
        } else {
            None
        },
        unnecessary_url: if view.url is Some && view.url == inferred {
            Some(seq![digest, view.url.unwrap()])
        } else {
            None
        },
        corrected: LineView {
            expected_digest: if is_unnecessary {
                None
            } else {
                view.expected_digest
            },
            url: if is_wrong {
                Some(entry.url)
            } else {
                view.url
            },
            ..view
        },
    }
}

/// What is found of one snapshot.
#[derive(Debug)]
pub struct LineReport<'a> {
    /// The digest, timestamp and URL in the index of a snapshot whose expected digest is unnecessary.
    pub unnecessary_expected: Option<Vec<String>>,
    /// The digest, expected digest and URL of a snapshot that is not in the index.
    pub missing_cdx: Option<Vec<String>>,
    /// The digest, inferred URL and URL in the index, where they differ.
    pub incorrect_inferred: Option<Vec<String>>,
    /// The digest and URL of a snapshot whose URL is unnecessary.
    pub unnecessary_url: Option<Vec<String>>,
    /// The snapshot without an unnecessary expected digest, and with the URL that cannot be inferred.
    pub corrected: ExactSnapshot<'a>,
}

/// The texts of an optional row.
pub open spec fn row_view(row: Option<Vec<String>>) -> Option<Seq<Seq<char>>> {
    match row {
        Some(row) => Some(lines::string_views(row@)),
        None => None,
    }
}

impl<'a> View for LineReport<'a> {
    type V = LineReportView;

    open spec fn view(&self) -> LineReportView {
        LineReportView {
            unnecessary_expected: row_view(self.unnecessary_expected),
            missing_cdx: row_view(self.missing_cdx),
            incorrect_inferred: row_view(self.incorrect_inferred),
            unnecessary_url: row_view(self.unnecessary_url),
            corrected: exact::snapshot_view(self.corrected),
        }
    }
}

/// A row of three texts.
fn row3(a: &str, b: &str, c: &str) -> (row: Vec<String>)
    ensures
        lines::string_views(row@) == seq![a@, b@, c@],
{
    let mut row: Vec<String> = Vec::new();
    row.push(a.to_owned());
    row.push(b.to_owned());
    row.push(c.to_owned());
    assert(lines::string_views(row@) =~= seq![a@, b@, c@]);
    row
}

/// A row of two texts.
fn row2(a: &str, b: &str) -> (row: Vec<String>)
    ensures
        lines::string_views(row@) == seq![a@, b@],
{
    let mut row: Vec<String> = Vec::new();
    row.push(a.to_owned());
    row.push(b.to_owned());
    assert(lines::string_views(row@) =~= seq![a@, b@]);
    row
}

/// The text of a value, or nothing.
fn text_or_empty<'c>(value: Option<&'c str>) -> (text: &'c str)
    ensures
        text@ == or_empty(text::str_view(value)),
{
    match value {
        Some(value) => value,
        None => {
            proof {
                reveal_strlit("");
            }
            assert(""@ =~= Seq::empty());
            ""
        },
    }
}

/// Whether two optional texts are the same.
fn same_option(a: Option<&str>, b: Option<&str>) -> (same: bool)
    ensures
        same == (text::str_view(a) == text::str_view(b)),
{
    match (a, b) {
        (Some(a), Some(b)) => same_str(a, b),
        (None, None) => true,
        _ => false,
    }
}

/// What the index makes of a snapshot, given the URL that its content implies.
pub fn reconcile_snapshot<'a>(
    snapshot: ExactSnapshot<'a>,
    entries: &TextTable<CdxEntry>,
    inferred: Option<&str>,
) -> (report: LineReport<'a>)
    ensures
        report@ == line_report(
            exact::snapshot_view(snapshot),
            entry_views(entries@),
            text::str_view(inferred),
        ),
{
    let ghost view = exact::snapshot_view(snapshot);
    let mut corrected = snapshot;
    let digest = corrected.digest.to_string();
    let in_cdx: Option<&CdxEntry> = entries.get(digest.as_str());
    let expected_in_cdx: bool = match &corrected.expected_digest {
        Some(expected) => entries.contains_key(borrow_str(expected)),
        None => false,
    };
    let specified: Option<&str> = match &corrected.url {
        Some(url) => Some(borrow_str(url)),
        None => None,
    };
    let is_unnecessary: bool = corrected.expected_digest.is_some() && in_cdx.is_some();

    // The snapshot carries an expected digest, but its own digest is in the index.
    let unnecessary_expected: Option<Vec<String>> = match in_cdx {
        Some(entry) if is_unnecessary => {
            let timestamp = entry.timestamp.to_string();
            Some(row3(digest.as_str(), timestamp.as_str(), entry.url.as_str()))
        },
        _ => None,
    };

    // Neither the digest nor the expected digest (if any) is in the index.
    let missing_cdx: Option<Vec<String>> = if in_cdx.is_none() && !expected_in_cdx {
        let url: Option<&str> = match specified {
            Some(url) => Some(url),
            None => inferred,
        };
        let expected: Option<&str> = match &corrected.expected_digest {
            Some(expected) => Some(borrow_str(expected)),
            None => None,
        };
        Some(row3(digest.as_str(), text_or_empty(expected), text_or_empty(url)))
    } else {
        None
    };

    // There is no specified URL, and the inferred URL disagrees with the URL in the index.
    let (incorrect_inferred, added): (Option<Vec<String>>, Option<String>) = match in_cdx {
        Some(entry) if specified.is_none() && !same_option(inferred, Some(entry.url.as_str())) => (
            Some(row3(digest.as_str(), text_or_empty(inferred), entry.url.as_str())),
            Some(entry.url.clone()),
        ),
        _ => (None, None),
    };

    // A specified URL is exactly the inferred URL.
    let unnecessary_url: Option<Vec<String>> = match specified {
        Some(url) if same_option(Some(url), inferred) => Some(row2(digest.as_str(), url)),
        _ => None,
    };

    if is_unnecessary {
        corrected.expected_digest = None;
    }
    if let Some(url) = added {
        corrected.url = Some(Cow::Owned(url));
    }
    let report = LineReport {
        unnecessary_expected,
        missing_cdx,
        incorrect_inferred,
        unnecessary_url,
        corrected,
    };
    assert(report@ =~= line_report(view, entry_views(entries@), text::str_view(inferred)));
    report
}

/// The rows of the reports on a snapshot file, and its corrected lines.
#[verifier::ext_equal]
pub struct ReportView {
    /// Rows of snapshots whose expected digest is unnecessary.
    pub unnecessary_expected: Seq<Seq<Seq<char>>>,
    /// Rows of snapshots that are not in the index.
    pub missing_cdx: Seq<Seq<Seq<char>>>,
    /// Rows of snapshots whose inferred URL is not the one in the index.
    pub incorrect_inferred: Seq<Seq<Seq<char>>>,
    /// Rows of snapshots whose URL is unnecessary.
    pub unnecessary_url: Seq<Seq<Seq<char>>>,
    /// The corrected lines.
    pub corrected: Seq<Seq<char>>,
}

/// Rows with one more row, if there is one.
pub open spec fn with_row(
    rows: Seq<Seq<Seq<char>>>,
    row: Option<Seq<Seq<char>>>,
) -> Seq<Seq<Seq<char>>> {
    match row {
        Some(row) => rows.push(row),
        None => rows,
    }
}

/// What the index makes of a line that holds a snapshot.
pub open spec fn source_report(
    line: SourceView,
    entries: Map<Seq<char>, EntryView>,
) -> LineReportView {
    line_report(exact::parse_line(line.text).unwrap(), entries, line.inferred_url)
}

/// What a line is corrected to, under a default closing whitespace.
pub open spec fn corrected_view(
    line: SourceView,
    entries: Map<Seq<char>, EntryView>,
    default: Seq<char>,
) -> LineView {
    exact::written_view(source_report(line, entries).corrected, default, line.inferred_url)
}

/// The reports on lines that all hold snapshots.
pub open spec fn reports(
    lines: Seq<SourceView>,
    entries: Map<Seq<char>, EntryView>,
    default: Seq<char>,
) -> ReportView
    decreases lines.len(),
{
    if lines.len() == 0 {
        ReportView {
            unnecessary_expected: Seq::empty(),
            missing_cdx: Seq::empty(),
            incorrect_inferred: Seq::empty(),
            unnecessary_url: Seq::empty(),
            corrected: Seq::empty(),
        }
    } else {
        let before = reports(lines.drop_last(), entries, default);
        let line = source_report(lines.last(), entries);
        ReportView {
            unnecessary_expected: with_row(before.unnecessary_expected, line.unnecessary_expected),
            missing_cdx: with_row(before.missing_cdx, line.missing_cdx),
            incorrect_inferred: with_row(before.incorrect_inferred, line.incorrect_inferred),
            unnecessary_url: with_row(before.unnecessary_url, line.unnecessary_url),
            corrected: before.corrected.push(
                exact::line_text(corrected_view(lines.last(), entries, default)),
            ),
        }
    }
}

/// The reports on a snapshot file.
#[derive(Debug)]
pub struct Report {
    /// Rows of snapshots whose expected digest is unnecessary.
    pub unnecessary_expected: Vec<Vec<String>>,
    /// Rows of snapshots that are not in the index.
    pub missing_cdx: Vec<Vec<String>>,
    /// Rows of snapshots whose inferred URL is not the one in the index.
    pub incorrect_inferred: Vec<Vec<String>>,
    /// Rows of snapshots whose URL is unnecessary.
    pub unnecessary_url: Vec<Vec<String>>,
    /// The corrected file, if it was asked for.
    pub corrected: Option<String>,
}

/// Why a snapshot file cannot be reconciled. The number of the line is one-based.
#[derive(Clone, Copy, Debug, PartialEq, Eq, Structural)]
pub enum Error {
    /// The line does not hold a snapshot.
    InvalidLine(usize),
    /// The corrected snapshot holds a value that cannot be written.
    Unwritable(usize),
}

/// Whether the rows of a report are those of a view.
pub open spec fn has_rows(report: Report, view: ReportView) -> bool {
    &&& tabular::row_views(report.unnecessary_expected@) == view.unnecessary_expected
    &&& tabular::row_views(report.missing_cdx@) == view.missing_cdx
    &&& tabular::row_views(report.incorrect_inferred@) == view.incorrect_inferred
    &&& tabular::row_views(report.unnecessary_url@) == view.unnecessary_url
}

/// Whether a line can be reconciled: it holds a snapshot which, where corrected lines are asked for,
/// can be written.
pub open spec fn can_reconcile(
    line: SourceView,
    entries: Map<Seq<char>, EntryView>,
    default: Seq<char>,
    correct: bool,
) -> bool {
    &&& exact::parse_line(line.text) is Some
    &&& correct ==> exact::is_writable(corrected_view(line, entries, default))
}

/// Appends a row, if there is one.
fn push_row(rows: &mut Vec<Vec<String>>, row: Option<Vec<String>>)
    ensures
        tabular::row_views(final(rows)@) == with_row(tabular::row_views(old(rows)@), row_view(row)),
{
    if let Some(row) = row {
        let ghost before = rows@;
        let ghost added = row;
        rows.push(row);
        assert(tabular::row_views(rows@) =~= tabular::row_views(before).push(lines::string_views(added@)));
    }
}

/// Reconciles snapshot lines against the earliest captures of the digests that they refer to,
/// reporting discrepancies and optionally correcting the lines: an unnecessary `url` or
/// `expected_digest` is removed, and a `url` is added where the inferred URL disagrees with the URL
/// in the index.
pub fn reconcile(
    all: &Vec<SourceLine>,
    entries: &TextTable<CdxEntry>,
    context: &Context,
    correct: bool,
) -> (result: Result<Report, Error>)
    ensures
        match result {
            Ok(report) => {
                &&& forall|i: int|
                    0 <= i < all@.len() ==> can_reconcile(
                        #[trigger] check::source_views(all@)[i],
                        entry_views(entries@),
                        context@,
                        correct,
                    )
                &&& has_rows(
                    report,
                    reports(check::source_views(all@), entry_views(entries@), context@),
                )
                &&& match report.corrected {
                    Some(text) => correct && text@ == lines::written(
                        reports(
                            check::source_views(all@),
                            entry_views(entries@),
                            context@,
                        ).corrected,
                    ),
                    None => !correct,
                }
            },
            Err(error) => {
                let number = match error {
                    Error::InvalidLine(number) => number as int,
                    Error::Unwritable(number) => number as int,
                };
                &&& 0 < number <= all@.len()
                &&& !can_reconcile(
                    check::source_views(all@)[number - 1],
                    entry_views(entries@),
                    context@,
                    correct,
                )
                &&& error is InvalidLine <==> exact::parse_line(all@[number - 1].text@) is None
                &&& forall|i: int|
                    0 <= i < number - 1 ==> can_reconcile(
                        #[trigger] check::source_views(all@)[i],
                        entry_views(entries@),
                        context@,
                        correct,
                    )
            },
        },
{
    let ghost views = check::source_views(all@);
    let ghost known = entry_views(entries@);
    let mut report = Report {
        unnecessary_expected: Vec::new(),
        missing_cdx: Vec::new(),
        incorrect_inferred: Vec::new(),
        unnecessary_url: Vec::new(),
        corrected: None,
    };
    let mut corrected = String::new();
    let mut i: usize = 0;
    proof {
        let none: Seq<Vec<String>> = Seq::empty();
        assert(views.take(0) =~= Seq::empty());
        assert(tabular::row_views(none) =~= Seq::empty());
        assert(corrected@ =~= Seq::empty());
    }
    while i < all.len()
        invariant
            i <= all@.len(),
            views == check::source_views(all@),
            known == entry_views(entries@),
            report.corrected is None,
            has_rows(report, reports(views.take(i as int), known, context@)),
            correct ==> corrected@ == lines::written(
                reports(views.take(i as int), known, context@).corrected,
            ),
            forall|k: int|
                0 <= k < i ==> can_reconcile(#[trigger] views[k], known, context@, correct),
        decreases all@.len() - i,
    {
        let line = &all[i];
        proof {
            assert(views[i as int] == line@);
            assert(views.take(i + 1).drop_last() =~= views.take(i as int));
            assert(views.take(i + 1).last() == line@);
        }
        let snapshot = match Snapshot::parse(line.text.as_str()) {
            Ok(snapshot) => snapshot,
            Err(_) => return Err(Error::InvalidLine(i + 1)),
        };
        let inferred: Option<&str> = match &line.inferred_url {
            Some(url) => Some(url.as_str()),
            None => None,
        };
        let found = reconcile_snapshot(snapshot, entries, inferred);
        assert(found@ == source_report(line@, known));
        if correct {
            match found.corrected.display(context, inferred).to_string() {
                Ok(text) => {
                    let ghost before = corrected@;
                    append(&mut corrected, text.as_str());
                    corrected.push('\n');
                    proof {
                        let all_before = reports(views.take(i as int), known, context@).corrected;
                        assert(all_before.push(text@).drop_last() =~= all_before);
                        assert(corrected@ =~= before + text@ + seq!['\n']);
                        assert(lines::written(all_before.push(text@)) == corrected@);
                    }
                },
                Err(_) => return Err(Error::Unwritable(i + 1)),
            }
        }
        push_row(&mut report.unnecessary_expected, found.unnecessary_expected);
        push_row(&mut report.missing_cdx, found.missing_cdx);
        push_row(&mut report.incorrect_inferred, found.incorrect_inferred);
        push_row(&mut report.unnecessary_url, found.unnecessary_url);
        i = i + 1;
    }
    assert(views.take(all@.len() as int) =~= views);
    if correct {
        report.corrected = Some(corrected);
    }
    Ok(report)
}

/// A corrected snapshot needs no further correction: reconciling it again, under the same index and
/// with the same inferred URL, finds no unnecessary expected digest and no wrong inferred URL, and
/// changes nothing.
pub proof fn law_correction_is_final(
    view: LineView,
    entries: Map<Seq<char>, EntryView>,
    inferred: Option<Seq<char>>,
)
    ensures
        ({
            let again = line_report(line_report(view, entries, inferred).corrected, entries, inferred);
            &&& again.unnecessary_expected is None
            &&& again.incorrect_inferred is None
            &&& again.corrected == line_report(view, entries, inferred).corrected
        }),
{
}

/// A line is reported by what the index has for it: an expected digest is unnecessary where the digest itself
/// is indexed, metadata is missing where neither digest is, a URL that is left to be inferred is incorrect where
/// the index has another, and a URL is unnecessary where the same is inferred.
pub proof fn law_lines_are_reported(
    view: LineView,
    entries: Map<Seq<char>, EntryView>,
    inferred: Option<Seq<char>>,
)
    ensures
        ({
            let report = line_report(view, entries, inferred);
            let digest = digest::digest_text(view.digest);
            &&& report.unnecessary_expected is Some <==> view.expected_digest is Some
                && entries.contains_key(digest)
            &&& report.missing_cdx is Some <==> !entries.contains_key(digest) && (
            view.expected_digest is None || !entries.contains_key(view.expected_digest.unwrap()))
            &&& report.incorrect_inferred is Some <==> view.url is None && entries.contains_key(digest)
                && (inferred is None || inferred.unwrap() != entries[digest].url)
            &&& report.unnecessary_url is Some <==> view.url is Some && inferred is Some
                && view.url.unwrap() == inferred.unwrap()
            &&& report.unnecessary_expected matches Some(row) ==> {
                &&& row.len() == 3
                &&& row[0] == digest
                &&& row[1] == timestamp::timestamp_text(entries[digest].timestamp)
                &&& row[2] == entries[digest].url
            }
            &&& report.missing_cdx matches Some(row) ==> {
                &&& row.len() == 3
                &&& row[0] == digest
                &&& view.expected_digest matches Some(expected) ==> row[1] == expected
                &&& view.expected_digest is None ==> row[1].len() == 0
                &&& view.url matches Some(url) ==> row[2] == url
                &&& view.url is None ==> (inferred matches Some(url) ==> row[2] == url)
                &&& view.url is None && inferred is None ==> row[2].len() == 0
            }
            &&& report.incorrect_inferred matches Some(row) ==> {
                &&& row.len() == 3
                &&& row[0] == digest
                &&& inferred matches Some(url) ==> row[1] == url
                &&& inferred is None ==> row[1].len() == 0
                &&& row[2] == entries[digest].url
            }
            &&& report.unnecessary_url matches Some(row) ==> row == seq![digest, view.url.unwrap()]
        }),
{
}

/// Correcting a line changes nothing but its expected digest and its URL. Where the digest is indexed, the
/// expected digest is gone, and a URL that was left out comes out as that of the index; elsewhere the line stays
/// as it is.
pub proof fn law_correction_follows_the_index(
    view: LineView,
    entries: Map<Seq<char>, EntryView>,
    inferred: Option<Seq<char>>,
)
    ensures
        ({
            let corrected = line_report(view, entries, inferred).corrected;
            let digest = digest::digest_text(view.digest);
            &&& corrected.digest == view.digest
            &&& corrected.timestamp == view.timestamp
            &&& corrected.format == view.format
            &&& corrected.content == view.content
            &&& view.url is Some ==> corrected.url == view.url
            &&& entries.contains_key(digest) ==> {
                &&& corrected.expected_digest is None
                &&& view.url is None ==> (if corrected.url is Some {
                    corrected.url
                } else {
                    inferred
                }) == Some(entries[digest].url)
            }
            &&& !entries.contains_key(digest) ==> corrected == view
        }),
{
}

/// Each line adds its rows to the tables, at most one to each, and its corrected text to the corrected file.
pub proof fn law_every_line_is_reported_once(
    lines: Seq<SourceView>,
    line: SourceView,
    entries: Map<Seq<char>, EntryView>,
    default: Seq<char>,
)
    ensures
        ({
            let before = reports(lines, entries, default);
            let after = reports(lines.push(line), entries, default);
            let own = line_report(
                exact::parse_line(line.text).unwrap(),
                entries,
                line.inferred_url,
            );
            &&& after.unnecessary_expected == if own.unnecessary_expected is Some {
                before.unnecessary_expected.push(own.unnecessary_expected.unwrap())
            } else {
                before.unnecessary_expected
            }
            &&& after.missing_cdx == if own.missing_cdx is Some {
                before.missing_cdx.push(own.missing_cdx.unwrap())
            } else {
                before.missing_cdx
            }
            &&& after.incorrect_inferred == if own.incorrect_inferred is Some {
                before.incorrect_inferred.push(own.incorrect_inferred.unwrap())
            } else {
                before.incorrect_inferred
            }
            &&& after.unnecessary_url == if own.unnecessary_url is Some {
                before.unnecessary_url.push(own.unnecessary_url.unwrap())
            } else {
                before.unnecessary_url
            }
            &&& after.corrected == before.corrected.push(
                exact::line_text(
                    exact::written_view(own.corrected, default, line.inferred_url),
                ),
            )
        }),
{
    assert(lines.push(line).drop_last() =~= lines);
}

/// The digests that snapshots refer to are their own and those that they expect.
pub proof fn law_referenced_digests(lines: Seq<Seq<char>>, key: Seq<char>)
    ensures
        referenced(lines).contains(key) <==> exists|i: int|
            {
                let view = exact::parse_line(#[trigger] lines[i]).unwrap();
                &&& 0 <= i < lines.len()
                &&& key == digest::digest_text(view.digest) || view.expected_digest == Some(key)
            },
    decreases lines.len(),
{
    if lines.len() > 0 {
        let front = lines.drop_last();
        law_referenced_digests(front, key);
        assert(forall|k: int| 0 <= k < front.len() ==> #[trigger] lines[k] == front[k]);
        let view = exact::parse_line(lines[lines.len() - 1]).unwrap();
        if referenced(front).contains(key) {
            let i = choose|i: int|
                {
                    let view = exact::parse_line(#[trigger] front[i]).unwrap();
                    &&& 0 <= i < front.len()
                    &&& key == digest::digest_text(view.digest) || view.expected_digest == Some(key)
                };
            assert(lines[i] == front[i]);
        }
        assert forall|i: int|
            ({
                let view = exact::parse_line(#[trigger] lines[i]).unwrap();
                &&& 0 <= i < lines.len()
                &&& key == digest::digest_text(view.digest) || view.expected_digest == Some(key)
            }) implies referenced(lines).contains(key) by {
            if i < front.len() {
                assert(front[i] == lines[i]);
            }
        }
    }
}

/// A report of a line is seen by its rows and by the corrected snapshot.
pub proof fn law_reports_are_seen_whole(report: LineReport<'_>, row: Vec<String>)
    ensures
        report.unnecessary_expected == Some(row) ==> report@.unnecessary_expected == Some(
            lines::string_views(row@),
        ),
        report.missing_cdx == Some(row) ==> report@.missing_cdx == Some(lines::string_views(row@)),
        report.incorrect_inferred == Some(row) ==> report@.incorrect_inferred == Some(
            lines::string_views(row@),
        ),
        report.unnecessary_url == Some(row) ==> report@.unnecessary_url == Some(
            lines::string_views(row@),
        ),
        report.unnecessary_expected is None ==> report@.unnecessary_expected is None,
        report.missing_cdx is None ==> report@.missing_cdx is None,
        report.incorrect_inferred is None ==> report@.incorrect_inferred is None,
        report.unnecessary_url is None ==> report@.unnecessary_url is None,
        report@.corrected == exact::snapshot_view(report.corrected),
{
}

/// A line can be reconciled exactly if it holds a snapshot and, where it is to be corrected, the corrected
/// snapshot can be written.
pub proof fn law_which_lines_are_reconciled(
    line: SourceView,
    entries: Map<Seq<char>, EntryView>,
    default: Seq<char>,
    correct: bool,
)
    ensures
        can_reconcile(line, entries, default, correct) <==> {
            &&& exact::parse_line(line.text) matches Some(view)
            &&& correct ==> exact::is_writable(
                exact::written_view(
                    line_report(view, entries, line.inferred_url).corrected,
                    default,
                    line.inferred_url,
                ),
            )
        },
{
}

} // verus!
