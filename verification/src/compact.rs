//! Compacting digest-named data files into digest-sorted JSONL partitions.
//!
//! The compact operation takes each digest-named data file with its CDX metadata, decodes the bytes
//! under a chosen format, enriches the snapshot with the resolution (timestamp, URL, and expected
//! digest), and writes it into the matching partition. The files stand in a table keyed by digest, so
//! that snapshots are written in digest-sorted order.
use std::borrow::Cow;

use vstd::prelude::*;

use crate::context::Context;
use crate::digest;
use crate::digest::{Digest, Sha1Digest};
use crate::digest_table;
use crate::digest_table::DigestTable;
use crate::exact;
use crate::exact::{ExactSnapshot, LineView};
use crate::format::{FormatInfo, FormatView};
use crate::lines;
use crate::listing;
use crate::text;
use crate::timestamp::Timestamp;
use crate::validation;
use crate::validation::{Decoded, UnprocessedError};
use crate::writer;
use crate::writer::{Error, SnapshotWriter, WriterView};

verus! {

/// The CDX metadata of a digest.
#[derive(Debug)]
pub struct Resolution {
    /// When the capture was made.
    pub timestamp: Timestamp,
    /// The URL that was captured.
    pub url: String,
    /// The digest in the index, if it is not that of the content.
    pub expected_digest: Option<Digest<'static>>,
}

/// What else was found while the CDX metadata of a digest was looked up.
#[derive(Debug, PartialEq, Eq)]
pub struct ResolutionWarnings {
    /// Other captures under the digest itself.
    pub extra_valid: Vec<String>,
    /// Other captures under an expected digest.
    pub extra_invalid: Vec<String>,
}

impl ResolutionWarnings {
    /// Whether there is nothing to warn of.
    pub open spec fn has_none(&self) -> bool {
        self.extra_valid@.len() == 0 && self.extra_invalid@.len() == 0
    }

    /// Whether there is nothing to warn of.
    pub fn is_empty(&self) -> (empty: bool)
        ensures
            empty == self.has_none(),
    {
        self.extra_valid.is_empty() && self.extra_invalid.is_empty()
    }
}

/// Why a file was skipped.
#[derive(Clone, Copy, Debug, PartialEq, Eq, Structural)]
pub enum SkipReason {
    /// The file cannot be read.
    ReadError,
    /// The contents do not have the digest that the file is named by.
    DigestMismatch,
    /// No partition has the key that was chosen for the file.
    NoPartition,
    /// There is no codec for the format that was chosen for the file.
    UnsupportedFormat,
    /// The contents cannot be decoded under the format that was chosen for the file.
    Undecodable,
}

/// The skipped files, grouped by why they were skipped.
#[derive(Debug, PartialEq, Eq)]
pub struct Skipped {
    /// Files that cannot be read.
    pub read_error: Vec<String>,
    /// Files whose contents do not have the digest that they are named by.
    pub digest_mismatch: Vec<String>,
    /// Files whose partition there is not.
    pub no_partition: Vec<String>,
    /// Files of a format without a codec.
    pub unsupported_format: Vec<String>,
    /// Files that cannot be decoded.
    pub undecodable: Vec<String>,
}

/// The skipped files, as texts.
#[verifier::ext_equal]
pub struct SkippedView {
    /// Files that cannot be read.
    pub read_error: Seq<Seq<char>>,
    /// Files whose contents do not have the digest that they are named by.
    pub digest_mismatch: Seq<Seq<char>>,
    /// Files whose partition there is not.
    pub no_partition: Seq<Seq<char>>,
    /// Files of a format without a codec.
    pub unsupported_format: Seq<Seq<char>>,
    /// Files that cannot be decoded.
    pub undecodable: Seq<Seq<char>>,
}

impl View for Skipped {
    type V = SkippedView;

    open spec fn view(&self) -> SkippedView {
        SkippedView {
            read_error: lines::string_views(self.read_error@),
            digest_mismatch: lines::string_views(self.digest_mismatch@),
            no_partition: lines::string_views(self.no_partition@),
            unsupported_format: lines::string_views(self.unsupported_format@),
            undecodable: lines::string_views(self.undecodable@),
        }
    }
}

impl SkippedView {
    /// The lists with one more file.
    pub open spec fn pushed(self, reason: SkipReason, path: Seq<char>) -> SkippedView {
        match reason {
            SkipReason::ReadError => SkippedView { read_error: self.read_error.push(path), ..self },
            SkipReason::DigestMismatch => SkippedView {
                digest_mismatch: self.digest_mismatch.push(path),
                ..self
            },
            SkipReason::NoPartition => SkippedView {
                no_partition: self.no_partition.push(path),
                ..self
            },
            SkipReason::UnsupportedFormat => SkippedView {
                unsupported_format: self.unsupported_format.push(path),
                ..self
            },
            SkipReason::Undecodable => SkippedView {
                undecodable: self.undecodable.push(path),
                ..self
            },
        }
    }

    /// How many files are in the lists.
    pub open spec fn count(self) -> nat {
        self.read_error.len() + self.digest_mismatch.len() + self.no_partition.len()
            + self.unsupported_format.len() + self.undecodable.len()
    }

    /// Empty lists.
    pub open spec fn empty() -> SkippedView {
        SkippedView {
            read_error: Seq::empty(),
            digest_mismatch: Seq::empty(),
            no_partition: Seq::empty(),
            unsupported_format: Seq::empty(),
            undecodable: Seq::empty(),
        }
    }
}

/// Appends a path to a list.
fn push_path(paths: &mut Vec<String>, path: &str)
    ensures
        lines::string_views(final(paths)@) == lines::string_views(old(paths)@).push(path@),
{
    let ghost before = paths@;
    paths.push(path.to_owned());
    assert(lines::string_views(paths@) =~= lines::string_views(before).push(path@));
}

impl Skipped {
    /// Empty lists.
    pub fn empty() -> (skipped: Skipped)
        ensures
            skipped@ == SkippedView::empty(),
    {
        let skipped = Skipped {
            read_error: Vec::new(),
            digest_mismatch: Vec::new(),
            no_partition: Vec::new(),
            unsupported_format: Vec::new(),
            undecodable: Vec::new(),
        };
        assert(skipped@ =~= SkippedView::empty());
        skipped
    }

    /// Records a skipped file.
    pub fn push(&mut self, reason: SkipReason, path: &str)
        ensures
            final(self)@ == old(self)@.pushed(reason, path@),
    {
        match reason {
            SkipReason::ReadError => push_path(&mut self.read_error, path),
            SkipReason::DigestMismatch => push_path(&mut self.digest_mismatch, path),
            SkipReason::NoPartition => push_path(&mut self.no_partition, path),
            SkipReason::UnsupportedFormat => push_path(&mut self.unsupported_format, path),
            SkipReason::Undecodable => push_path(&mut self.undecodable, path),
        }
    }
}

/// Summary of a compact operation.
#[derive(Debug)]
pub struct Summary {
    /// Number of snapshots written with resolved CDX metadata.
    pub resolved_count: u64,
    /// Number of processed files that had no CDX resolution.
    pub unresolved_count: u64,
    /// Number of files skipped, equal to the total length of the lists of skipped files.
    pub skipped_count: u64,
    /// Digests of processed files that had no CDX resolution.
    ///
    /// Files skipped before metadata is applied are listed among the skipped files, not here.
    pub unresolved: Vec<Sha1Digest>,
    /// The skipped files, grouped by why they were skipped.
    pub skipped: Skipped,
    /// Non-empty resolution warnings.
    pub warnings: Vec<ResolutionWarnings>,
}

/// Summary of a compact operation, as numbers and texts.
#[verifier::ext_equal]
pub struct SummaryView {
    /// Number of snapshots with resolved CDX metadata.
    pub resolved_count: nat,
    /// Number of processed files without.
    pub unresolved_count: nat,
    /// Number of files skipped.
    pub skipped_count: nat,
    /// Digests of processed files without CDX metadata.
    pub unresolved: Seq<nat>,
    /// The skipped files.
    pub skipped: SkippedView,
    /// Non-empty resolution warnings.
    pub warnings: Seq<ResolutionWarnings>,
}

impl View for Summary {
    type V = SummaryView;

    open spec fn view(&self) -> SummaryView {
        SummaryView {
            resolved_count: self.resolved_count as nat,
            unresolved_count: self.unresolved_count as nat,
            skipped_count: self.skipped_count as nat,
            unresolved: listing::digest_views(self.unresolved@),
            skipped: self.skipped@,
            warnings: self.warnings@,
        }
    }
}

impl SummaryView {
    /// A summary of no files.
    pub open spec fn empty() -> SummaryView {
        SummaryView {
            resolved_count: 0,
            unresolved_count: 0,
            skipped_count: 0,
            unresolved: Seq::empty(),
            skipped: SkippedView::empty(),
            warnings: Seq::empty(),
        }
    }

    /// The summary after one more file was skipped.
    pub open spec fn skipping(self, reason: SkipReason, path: Seq<char>) -> SummaryView {
        SummaryView {
            skipped_count: self.skipped_count + 1,
            skipped: self.skipped.pushed(reason, path),
            ..self
        }
    }

    /// The summary after CDX metadata was applied to one more file, or there was none.
    pub open spec fn applying(
        self,
        digest: nat,
        resolution: Option<(Resolution, ResolutionWarnings)>,
    ) -> SummaryView {
        match resolution {
            Some((_, warnings)) => SummaryView {
                resolved_count: self.resolved_count + 1,
                warnings: if warnings.has_none() {
                    self.warnings
                } else {
                    self.warnings.push(warnings)
                },
                ..self
            },
            None => SummaryView {
                unresolved_count: self.unresolved_count + 1,
                unresolved: self.unresolved.push(digest),
                ..self
            },
        }
    }
}

/// A snapshot with CDX metadata in place of its own.
pub open spec fn resolved_view(
    view: LineView,
    resolution: Option<(Resolution, ResolutionWarnings)>,
) -> LineView {
    match resolution {
        Some((resolution, _)) => LineView {
            timestamp: Some(resolution.timestamp@),
            url: Some(resolution.url@),
            expected_digest: match resolution.expected_digest {
                Some(expected) => Some(expected.text()),
                None => None,
            },
            ..view
        },
        None => view,
    }
}

/// Applies a CDX resolution to a snapshot, recording the counts and any warnings it carries, and
/// reports whether one was available.
pub fn apply_resolution(
    snapshot: &mut ExactSnapshot<'static>,
    digest: Sha1Digest,
    resolution: Option<(Resolution, ResolutionWarnings)>,
    summary: &mut Summary,
) -> (resolved: bool)
    requires
        old(summary).resolved_count < u64::MAX,
        old(summary).unresolved_count < u64::MAX,
    ensures
        resolved == (resolution is Some),
        exact::snapshot_view(*final(snapshot)) == resolved_view(
            exact::snapshot_view(*old(snapshot)),
            resolution,
        ),
        final(summary)@ == old(summary)@.applying(digest@, resolution),
{
    match resolution {
        Some((resolution, warnings)) => {
            snapshot.timestamp = Some(resolution.timestamp);
            snapshot.url = Some(Cow::Owned(resolution.url));
            snapshot.expected_digest = match &resolution.expected_digest {
                Some(expected) => Some(Cow::Owned(expected.to_string())),
                None => None,
            };
            if !warnings.is_empty() {
                summary.warnings.push(warnings);
            }
            summary.resolved_count = summary.resolved_count + 1;
            true
        },
        None => {
            proof {
                listing::lemma_digest_views_push(summary.unresolved@, digest);
            }
            summary.unresolved.push(digest);
            summary.unresolved_count = summary.unresolved_count + 1;
            false
        },
    }
}

/// A data file to compact, with what was looked up and chosen for it. The digest that it is named by is
/// its key.
#[derive(Debug)]
pub struct DataFile {
    /// The path of the file.
    pub path: String,
    /// The contents, if they can be read.
    pub contents: Option<Vec<u8>>,
    /// The CDX metadata of the digest, if any.
    pub resolution: Option<(Resolution, ResolutionWarnings)>,
    /// The key of the partition that was chosen for the contents.
    pub partition: u64,
    /// The format that was chosen for the contents. Its closing whitespace is computed from the
    /// contents instead.
    pub format: FormatInfo,
    /// What the codec of that format makes of the contents. Plain text needs no codec.
    pub decoded: Decoded,
    /// The URL that the context of the partition infers from the content.
    pub inferred_url: Option<String>,
}

/// What becomes of a file before it is written.
#[verifier::ext_equal]
pub enum Outcome {
    /// It is skipped.
    Skipped(SkipReason),
    /// It is decoded, to be written to the partition at this place.
    Ready(int, LineView),
}

/// The place of the first partition with a key, or the number of partitions if there is none.
pub open spec fn partition_of(keys: Seq<u64>, key: u64) -> int
    decreases keys.len(),
{
    if keys.len() == 0 || keys[0] == key {
        0
    } else {
        1 + partition_of(keys.drop_first(), key)
    }
}

/// A snapshot of archived bytes with the given text, and with the metadata that was chosen for them.
pub open spec fn built_view(format: FormatView, text: Seq<char>, bytes: Seq<u8>) -> LineView {
    let view = validation::held_view(format.name, text, bytes);
    LineView { format: FormatView { metadata: format.metadata, ..view.format }, ..view }
}

/// What becomes of a file that is named by a digest before it is written.
pub open spec fn outcome(named: nat, file: DataFile, keys: Seq<u64>) -> Outcome {
    match file.contents {
        None => Outcome::Skipped(SkipReason::ReadError),
        Some(contents) => if digest::digest_of(contents@) != named {
            Outcome::Skipped(SkipReason::DigestMismatch)
        } else if partition_of(keys, file.partition) >= keys.len() {
            Outcome::Skipped(SkipReason::NoPartition)
        } else if file.format@.name is Some && file.decoded is NoCodec {
            Outcome::Skipped(SkipReason::UnsupportedFormat)
        } else {
            match validation::text_of(file.format@.name, contents@, file.decoded) {
                None => Outcome::Skipped(SkipReason::Undecodable),
                Some(text) => Outcome::Ready(
                    partition_of(keys, file.partition),
                    built_view(file.format@, text, contents@),
                ),
            }
        },
    }
}

/// The place of the first partition with a key.
fn find_partition(keys: &Vec<u64>, key: u64) -> (place: Option<usize>)
    ensures
        match place {
            Some(place) => place == partition_of(keys@, key) && place < keys@.len(),
            None => partition_of(keys@, key) >= keys@.len(),
        },
{
    let mut i: usize = 0;
    assert(keys@.skip(0) =~= keys@);
    while i < keys.len()
        invariant
            i <= keys@.len(),
            partition_of(keys@, key) == i + partition_of(keys@.skip(i as int), key),
        decreases keys@.len() - i,
    {
        if keys[i] == key {
            return Some(i);
        }
        assert(keys@.skip(i as int).drop_first() =~= keys@.skip(i + 1));
        i = i + 1;
    }
    None
}

/// Builds the snapshot of archived bytes under a format, with the metadata of that format.
fn build_snapshot(
    context: &Context,
    format: &FormatInfo,
    bytes: &[u8],
    decoded: &Decoded,
) -> (result: Result<ExactSnapshot<'static>, SkipReason>)
    ensures
        match result {
            Ok(snapshot) => {
                &&& validation::text_of(format@.name, bytes@, *decoded) matches Some(text)
                &&& exact::snapshot_view(snapshot) == built_view(format@, text, bytes@)
            },
            Err(SkipReason::UnsupportedFormat) => format@.name is Some && *decoded is NoCodec,
            Err(SkipReason::Undecodable) => {
                &&& format@.name is Some ==> !(*decoded is NoCodec)
                &&& validation::text_of(format@.name, bytes@, *decoded) is None
            },
            Err(_) => false,
        },
{
    match context.unprocessed_decoded(&format.name, bytes, decoded) {
        Ok(snapshot) => {
            let ghost text = validation::text_of(format@.name, bytes@, *decoded).unwrap();
            let mut snapshot = snapshot;
            snapshot.format.metadata = format.copy_metadata();
            assert(exact::snapshot_view(snapshot) =~= built_view(format@, text, bytes@));
            Ok(snapshot)
        },
        Err(UnprocessedError::UnsupportedFormat(_)) => Err(SkipReason::UnsupportedFormat),
        Err(_) => Err(SkipReason::Undecodable),
    }
}

/// Decodes a file for the partition that was chosen for it.
fn prepare(
    named: &Sha1Digest,
    file: &DataFile,
    keys: &Vec<u64>,
    writers: &Vec<SnapshotWriter>,
) -> (result: Result<(usize, ExactSnapshot<'static>), SkipReason>)
    requires
        keys@.len() == writers@.len(),
    ensures
        match result {
            Ok((place, snapshot)) => {
                &&& place < keys@.len()
                &&& outcome(named@, *file, keys@) == Outcome::Ready(
                    place as int,
                    exact::snapshot_view(snapshot),
                )
            },
            Err(reason) => outcome(named@, *file, keys@) == Outcome::Skipped(reason),
        },
{
    let contents: &Vec<u8> = match &file.contents {
        Some(contents) => contents,
        None => return Err(SkipReason::ReadError),
    };
    let actual = Sha1Digest::compute(contents);
    proof {
        digest::lemma_digest_unique(actual, *named);
    }
    if actual != *named {
        return Err(SkipReason::DigestMismatch);
    }
    let place: usize = match find_partition(keys, file.partition) {
        Some(place) => place,
        None => return Err(SkipReason::NoPartition),
    };
    match build_snapshot(writers[place].context(), &file.format, contents, &file.decoded) {
        Ok(snapshot) => Ok((place, snapshot)),
        Err(reason) => Err(reason),
    }
}

/// How far a compact operation has come.
#[verifier::ext_equal]
pub struct State {
    /// The summary so far.
    pub summary: SummaryView,
    /// The partitions.
    pub writers: Seq<WriterView>,
    /// Whether a snapshot could not be written.
    pub failed: bool,
}

/// The text of an optional string.
pub open spec fn inferred_of(file: DataFile) -> Option<Seq<char>> {
    match file.inferred_url {
        Some(url) => Some(url@),
        None => None,
    }
}

impl State {
    /// The state after one more file, which is named by a digest.
    pub open spec fn after(
        self,
        named: nat,
        file: DataFile,
        keys: Seq<u64>,
        skip_unresolved: bool,
    ) -> State {
        match outcome(named, file, keys) {
            Outcome::Skipped(reason) => State {
                summary: self.summary.skipping(reason, file.path@),
                ..self
            },
            Outcome::Ready(place, view) => {
                let summary = self.summary.applying(named, file.resolution);
                let resolved = resolved_view(view, file.resolution);
                let inferred = inferred_of(file);
                if skip_unresolved && file.resolution is None {
                    State { summary, ..self }
                } else if self.writers[place].refuses(resolved, inferred) {
                    State { summary, failed: true, ..self }
                } else {
                    State {
                        summary,
                        writers: self.writers.update(
                            place,
                            self.writers[place].wrote(resolved, inferred),
                        ),
                        ..self
                    }
                }
            },
        }
    }

    /// The state after files are processed one after the other, until a snapshot cannot be written.
    pub open spec fn after_all(
        self,
        files: Seq<(Sha1Digest, DataFile)>,
        keys: Seq<u64>,
        skip_unresolved: bool,
    ) -> State
        decreases files.len(),
    {
        if files.len() == 0 {
            self
        } else {
            let before = self.after_all(files.drop_last(), keys, skip_unresolved);
            if before.failed {
                before
            } else {
                before.after(files.last().0@, files.last().1, keys, skip_unresolved)
            }
        }
    }
}

/// The partitions as what they hold.
pub open spec fn writer_views(writers: Seq<SnapshotWriter>) -> Seq<WriterView> {
    writers.map_values(|writer: SnapshotWriter| writer@)
}

/// The contexts of partitions.
pub open spec fn contexts(writers: Seq<SnapshotWriter>) -> Seq<Context> {
    writers.map_values(|writer: SnapshotWriter| writer.held_context())
}

/// Writes a prepared file to its partition.
fn write_ready(
    writers: &mut Vec<SnapshotWriter>,
    place: usize,
    snapshot: &ExactSnapshot<'static>,
    inferred_url: &Option<String>,
) -> (result: Result<(), Error>)
    requires
        place < old(writers)@.len(),
    ensures
        ({
            let writer = writer_views(old(writers)@)[place as int];
            let view = exact::snapshot_view(*snapshot);
            let inferred = match *inferred_url {
                Some(url) => Some(url@),
                None => None,
            };
            match result {
                Ok(_) => {
                    &&& !writer.refuses(view, inferred)
                    &&& writer_views(final(writers)@) == writer_views(old(writers)@).update(
                        place as int,
                        writer.wrote(view, inferred),
                    )
                },
                Err(error) => {
                    &&& error is Unwritable
                    &&& writer.refuses(view, inferred)
                    &&& writer_views(final(writers)@) == writer_views(old(writers)@)
                },
            }
        }),
        final(writers)@.len() == old(writers)@.len(),
        contexts(final(writers)@) == contexts(old(writers)@),
{
    let inferred: Option<&str> = match inferred_url {
        Some(url) => Some(url.as_str()),
        None => None,
    };
    let ghost before = writers@;
    let writer: &mut SnapshotWriter = &mut writers[place];
    let result = writer.write_snapshot(snapshot, inferred);
    assert(contexts(writers@) =~= contexts(before));
    match result {
        Ok(_) => {
            assert(writer_views(writers@) =~= writer_views(before).update(
                place as int,
                writers@[place as int]@,
            ));
            Ok(())
        },
        Err(error) => {
            assert(writer_views(writers@) =~= writer_views(before));
            Err(error)
        },
    }
}

/// Writes data files, in the order of the digests that they are named by, to the partitions that were
/// chosen for them, enriched with their CDX metadata.
///
/// A file whose contents cannot be read, do not have the digest that the file is named by, belong to
/// no partition or cannot be decoded is recorded as skipped. The operation stops at the first
/// snapshot that cannot be written.
pub fn compact_into(
    files: DigestTable<DataFile>,
    keys: &Vec<u64>,
    writers: &mut Vec<SnapshotWriter>,
    skip_unresolved: bool,
) -> (result: (Summary, Option<Error>))
    requires
        keys@.len() == old(writers)@.len(),
    ensures
        digest_table::is_sorted(files.all()),
        ({
            let start = State {
                summary: SummaryView::empty(),
                writers: writer_views(old(writers)@),
                failed: false,
            };
            let end = start.after_all(files.all(), keys@, skip_unresolved);
            &&& result.0@ == end.summary
            &&& writer_views(final(writers)@) == end.writers
            &&& result.1 is Some == end.failed
            &&& result.1 matches Some(error) ==> error is Unwritable
        }),
        contexts(final(writers)@) == contexts(old(writers)@),
{
    let mut summary = Summary {
        resolved_count: 0,
        unresolved_count: 0,
        skipped_count: 0,
        unresolved: Vec::new(),
        skipped: Skipped::empty(),
        warnings: Vec::new(),
    };
    let ghost start = State {
        summary: SummaryView::empty(),
        writers: writer_views(writers@),
        failed: false,
    };
    let ghost all = files.all();
    let ghost held = contexts(writers@);
    let files = files.into_entries();
    let count: usize = files.len();
    let mut failure: Option<Error> = None;
    proof {
        assert(summary@ =~= SummaryView::empty());
        assert(all.take(0) =~= Seq::empty());
    }
    for entry in iter: files
        invariant
            iter.seq() == all,
            count == all.len(),
            keys@.len() == writers@.len(),
            contexts(writers@) == held,
            ({
                let now = start.after_all(all.take(iter.index()), keys@, skip_unresolved);
                &&& summary@ == now.summary
                &&& writer_views(writers@) == now.writers
                &&& failure is Some == now.failed
            }),
            failure matches Some(error) ==> error is Unwritable,
            summary.resolved_count <= iter.index(),
            summary.unresolved_count <= iter.index(),
            summary.skipped_count <= iter.index(),
    {
        let ghost i = iter.index();
        let ghost now = start.after_all(all.take(i), keys@, skip_unresolved);
        proof {
            assert(all.take(i + 1).drop_last() =~= all.take(i));
            assert(all.take(i + 1).last() == all[i]);
            assert(entry == all[i]);
        }
        let (digest, file) = entry;
        if failure.is_none() {
            match prepare(&digest, &file, keys, writers) {
                Err(reason) => {
                    summary.skipped.push(reason, file.path.as_str());
                    summary.skipped_count = summary.skipped_count + 1;
                },
                Ok((place, snapshot)) => {
                    let mut snapshot = snapshot;
                    let resolved = apply_resolution(
                        &mut snapshot,
                        digest,
                        file.resolution,
                        &mut summary,
                    );
                    if !skip_unresolved || resolved {
                        if let Err(error) = write_ready(
                            writers,
                            place,
                            &snapshot,
                            &file.inferred_url,
                        ) {
                            failure = Some(error);
                        }
                    }
                },
            }
        }
    }
    assert(all.take(all.len() as int) =~= all);
    (summary, failure)
}

/// The counts of a summary add up: the number of skipped files is the length of the lists, the number
/// of unresolved files that of theirs, and every file that was processed is counted once. Without a
/// failure, that is every file.
pub proof fn law_counts_add_up(
    writers: Seq<WriterView>,
    files: Seq<(Sha1Digest, DataFile)>,
    keys: Seq<u64>,
    skip_unresolved: bool,
)
    ensures
        ({
            let start = State { summary: SummaryView::empty(), writers, failed: false };
            let end = start.after_all(files, keys, skip_unresolved);
            &&& end.summary.skipped_count == end.summary.skipped.count()
            &&& end.summary.unresolved_count == end.summary.unresolved.len()
            &&& end.summary.resolved_count + end.summary.unresolved_count
                + end.summary.skipped_count <= files.len()
            &&& !end.failed ==> end.summary.resolved_count + end.summary.unresolved_count
                + end.summary.skipped_count == files.len()
        }),
    decreases files.len(),
{
    if files.len() > 0 {
        law_counts_add_up(writers, files.drop_last(), keys, skip_unresolved);
    }
}

/// The place of a partition is none before the first.
proof fn lemma_partition(keys: Seq<u64>, key: u64)
    ensures
        0 <= partition_of(keys, key) <= keys.len(),
    decreases keys.len(),
{
    if keys.len() > 0 && keys[0] != key {
        lemma_partition(keys.drop_first(), key);
    }
}

/// A file that is decoded has the digest that it is named by, and belongs to a partition.
proof fn lemma_ready(named: nat, file: DataFile, keys: Seq<u64>)
    ensures
        outcome(named, file, keys) matches Outcome::Ready(place, view) ==> {
            &&& 0 <= place < keys.len()
            &&& view.digest == named
            &&& resolved_view(view, file.resolution).digest == named
        },
{
    lemma_partition(keys, file.partition);
}

/// The snapshots that files give for a partition, each with the URL that its content implies.
pub open spec fn routed(
    files: Seq<(Sha1Digest, DataFile)>,
    keys: Seq<u64>,
    skip_unresolved: bool,
    place: int,
) -> Seq<(LineView, Option<Seq<char>>)>
    decreases files.len(),
{
    if files.len() == 0 {
        Seq::empty()
    } else {
        let front = routed(files.drop_last(), keys, skip_unresolved, place);
        let (named, file) = files.last();
        match outcome(named@, file, keys) {
            Outcome::Ready(chosen, view) => if chosen == place && !(skip_unresolved
                && file.resolution is None) {
                front.push((resolved_view(view, file.resolution), inferred_of(file)))
            } else {
                front
            },
            Outcome::Skipped(_) => front,
        }
    }
}

/// The snapshots of files in ascending digest order come in ascending digest order, and each has the
/// digest that a file is named by.
proof fn lemma_routed(
    files: Seq<(Sha1Digest, DataFile)>,
    keys: Seq<u64>,
    skip_unresolved: bool,
    place: int,
)
    requires
        digest_table::is_sorted(files),
    ensures
        writer::are_ascending(routed(files, keys, skip_unresolved, place)),
        forall|k: int|
            0 <= k < routed(files, keys, skip_unresolved, place).len() ==> exists|i: int|
                #[trigger] digest_table::stands_at(
                    files,
                    (#[trigger] routed(files, keys, skip_unresolved, place)[k]).0.digest,
                    i,
                ),
    decreases files.len(),
{
    if files.len() > 0 {
        let front = files.drop_last();
        let last = files.len() - 1;
        assert forall|i: int, j: int| 0 <= i < j < front.len() implies (#[trigger] front[i]).0@ < (
        #[trigger] front[j]).0@ by {
            assert(files[i].0@ < files[j].0@);
        }
        lemma_routed(front, keys, skip_unresolved, place);
        lemma_ready(files.last().0@, files.last().1, keys);
        let before = routed(front, keys, skip_unresolved, place);
        let all = routed(files, keys, skip_unresolved, place);
        assert forall|k: int| 0 <= k < before.len() implies {
            &&& before[k].0.digest < files[last].0@
            &&& exists|i: int|
                #[trigger] digest_table::stands_at(files, (#[trigger] before[k]).0.digest, i)
        } by {
            let i = choose|i: int| digest_table::stands_at(front, before[k].0.digest, i);
            assert(files[i].0@ < files[last].0@);
            assert(digest_table::stands_at(files, before[k].0.digest, i));
        }
        assert forall|k: int| 0 <= k < all.len() implies exists|i: int|
            #[trigger] digest_table::stands_at(files, (#[trigger] all[k]).0.digest, i) by {
            if k < before.len() {
                assert(all[k] == before[k]);
            } else {
                assert(digest_table::stands_at(files, all[k].0.digest, last));
            }
        }
        assert forall|i: int, j: int| 0 <= i < j < all.len() implies (#[trigger] all[i]).0.digest < (
        #[trigger] all[j]).0.digest by {
            assert(all[i] == before[i]);
            if j < before.len() {
                assert(all[j] == before[j]);
            }
        }
    }
}

/// What a partition holds is what was written of the snapshots that the files give for it.
proof fn lemma_partition_holds_routed(
    writers: Seq<WriterView>,
    files: Seq<(Sha1Digest, DataFile)>,
    keys: Seq<u64>,
    skip_unresolved: bool,
    place: int,
)
    requires
        keys.len() == writers.len(),
        0 <= place < writers.len(),
    ensures
        ({
            let start = State { summary: SummaryView::empty(), writers, failed: false };
            let end = start.after_all(files, keys, skip_unresolved);
            &&& end.writers.len() == writers.len()
            &&& !end.failed ==> end.writers[place] == writers[place].wrote_all(
                routed(files, keys, skip_unresolved, place),
            )
        }),
    decreases files.len(),
{
    if files.len() > 0 {
        let front = files.drop_last();
        lemma_partition_holds_routed(writers, front, keys, skip_unresolved, place);
        lemma_ready(files.last().0@, files.last().1, keys);
        let before = routed(front, keys, skip_unresolved, place);
        let all = routed(files, keys, skip_unresolved, place);
        if all != before {
            assert(all.drop_last() =~= before);
        }
    }
}

/// Partitions are sorted by digest: the snapshots that the files of a table give for a partition come in
/// strictly ascending digest order, and each of them is written to it, once. What a partition held
/// before has to end before the digests of the files.
pub proof fn law_partitions_are_digest_sorted(
    writers: Seq<WriterView>,
    files: Seq<(Sha1Digest, DataFile)>,
    keys: Seq<u64>,
    skip_unresolved: bool,
    place: int,
)
    requires
        keys.len() == writers.len(),
        0 <= place < writers.len(),
        digest_table::is_sorted(files),
        writers[place].last matches Some(last) ==> forall|i: int|
            0 <= i < files.len() ==> last < (#[trigger] files[i]).0@,
    ensures
        ({
            let start = State { summary: SummaryView::empty(), writers, failed: false };
            let end = start.after_all(files, keys, skip_unresolved);
            let given = routed(files, keys, skip_unresolved, place);
            &&& writer::are_ascending(given)
            &&& writers[place].kept(given) == given
            &&& !end.failed ==> {
                &&& end.writers[place] == writers[place].wrote_all(given)
                &&& end.writers[place].output == writers[place].output + lines::written(
                    writers[place].texts(given),
                )
            }
        }),
{
    let given = routed(files, keys, skip_unresolved, place);
    lemma_partition_holds_routed(writers, files, keys, skip_unresolved, place);
    lemma_routed(files, keys, skip_unresolved, place);
    if given.len() > 0 {
        let i = choose|i: int| digest_table::stands_at(files, given[0].0.digest, i);
        assert(digest_table::stands_at(files, given[0].0.digest, i));
    }
    writer::law_ascending_all_kept(writers[place], given);
    writer::law_output_is_kept_lines(writers[place], given);
}

/// Where a snapshot cannot be written, the partitions are left with what the files before it gave.
pub proof fn law_failure_keeps_what_was_written(
    writers: Seq<WriterView>,
    files: Seq<(Sha1Digest, DataFile)>,
    keys: Seq<u64>,
    skip_unresolved: bool,
)
    ensures
        ({
            let start = State { summary: SummaryView::empty(), writers, failed: false };
            start.after_all(files, keys, skip_unresolved).failed ==> exists|n: int|
                {
                    let before = start.after_all(
                        #[trigger] files.take(n),
                        keys,
                        skip_unresolved,
                    );
                    &&& 0 <= n < files.len()
                    &&& !before.failed
                    &&& start.after_all(files, keys, skip_unresolved).writers == before.writers
                }
        }),
    decreases files.len(),
{
    let start = State { summary: SummaryView::empty(), writers, failed: false };
    if files.len() > 0 && start.after_all(files, keys, skip_unresolved).failed {
        let last = files.len() - 1;
        let front = files.drop_last();
        assert(files.take(last) =~= front);
        if start.after_all(front, keys, skip_unresolved).failed {
            law_failure_keeps_what_was_written(writers, front, keys, skip_unresolved);
            let n = choose|n: int|
                {
                    let before = start.after_all(
                        #[trigger] front.take(n),
                        keys,
                        skip_unresolved,
                    );
                    &&& 0 <= n < front.len()
                    &&& !before.failed
                    &&& start.after_all(front, keys, skip_unresolved).writers == before.writers
                };
            assert(files.take(n) =~= front.take(n));
        }
    }
}

/// The place of a partition is the first that has the key, and is past the end exactly if none has it.
proof fn lemma_partition_of(keys: Seq<u64>, key: u64)
    ensures
        0 <= partition_of(keys, key) <= keys.len(),
        partition_of(keys, key) < keys.len() ==> keys[partition_of(keys, key)] == key,
        forall|i: int| 0 <= i < partition_of(keys, key) ==> #[trigger] keys[i] != key,
    decreases keys.len(),
{
    if keys.len() > 0 && keys[0] != key {
        let rest = keys.drop_first();
        lemma_partition_of(rest, key);
        assert forall|i: int| 0 <= i < partition_of(keys, key) implies #[trigger] keys[i] != key by {
            if i > 0 {
                assert(rest[i - 1] == keys[i]);
            }
        }
    }
}

/// A file is skipped exactly if it cannot be read, its contents do not have the digest that it is named by, no
/// partition has its key, or its contents cannot be decoded: by a codec that is there, or as UTF-8 where no
/// codec is called for. The first of these that holds is the reason.
pub proof fn law_which_files_are_skipped(named: nat, file: DataFile, keys: Seq<u64>)
    ensures
        ({
            let is_read = file.contents is Some;
            let is_named = is_read && digest::digest_of(file.contents.unwrap()@) == named;
            let is_routed = is_named && keys.contains(file.partition);
            let is_plain = file.format@.name is None;
            match outcome(named, file, keys) {
                Outcome::Skipped(SkipReason::ReadError) => !is_read,
                Outcome::Skipped(SkipReason::DigestMismatch) => is_read && !is_named,
                Outcome::Skipped(SkipReason::NoPartition) => is_named && !is_routed,
                Outcome::Skipped(SkipReason::UnsupportedFormat) => is_routed && !is_plain
                    && file.decoded is NoCodec,
                Outcome::Skipped(SkipReason::Undecodable) => {
                    ||| is_routed && is_plain && !vstd::utf8::valid_utf8(file.contents.unwrap()@)
                    ||| is_routed && !is_plain && file.decoded is Failed
                },
                Outcome::Ready(place, _) => {
                    &&& is_routed
                    &&& is_plain ==> vstd::utf8::valid_utf8(file.contents.unwrap()@)
                    &&& !is_plain ==> file.decoded is Text
                    &&& 0 <= place < keys.len()
                    &&& keys[place] == file.partition
                },
            }
        }),
{
    lemma_partition_of(keys, file.partition);
    let place = partition_of(keys, file.partition);
    if place < keys.len() {
        assert(keys.contains(keys[place]));
    } else if keys.contains(file.partition) {
        let i = choose|i: int| 0 <= i < keys.len() && keys[i] == file.partition;
        assert(keys[i] != file.partition);
    }
}

/// The snapshot of a file holds the digest that the file is named by, the format that was chosen for it, its
/// name and all of its metadata, and the whole text of the contents. The rest is what was looked up for the
/// digest: the timestamp, the URL and the digest in the index, or nothing.
pub proof fn law_snapshots_hold_their_files(named: nat, file: DataFile, keys: Seq<u64>)
    ensures
        outcome(named, file, keys) matches Outcome::Ready(place, view) ==> {
            let snapshot = resolved_view(view, file.resolution);
            &&& snapshot.digest == named
            &&& snapshot.digest == digest::digest_of(file.contents.unwrap()@)
            &&& snapshot.format.name == file.format@.name
            &&& snapshot.format.metadata == file.format@.metadata
            &&& snapshot.format.closing_whitespace matches Some(whitespace)
            &&& file.format@.name is None ==> vstd::utf8::encode_utf8(snapshot.content + whitespace)
                == file.contents.unwrap()@
            &&& file.format@.name is Some ==> (file.decoded matches Decoded::Text(text)
                && snapshot.content + whitespace == text@)
            &&& match file.resolution {
                Some((resolution, _)) => {
                    &&& snapshot.timestamp == Some(resolution.timestamp@)
                    &&& snapshot.url == Some(resolution.url@)
                    &&& resolution.expected_digest matches Some(expected)
                        ==> snapshot.expected_digest == Some(expected.text())
                    &&& resolution.expected_digest is None ==> snapshot.expected_digest is None
                },
                None => {
                    &&& snapshot.timestamp is None
                    &&& snapshot.url is None
                    &&& snapshot.expected_digest is None
                },
            }
        },
{
    if let Outcome::Ready(place, view) = outcome(named, file, keys) {
        let contents = file.contents.unwrap()@;
        let text = validation::text_of(file.format@.name, contents, file.decoded).unwrap();
        validation::law_content_and_whitespace(text, contents);
        if file.format@.name is None {
            vstd::utf8::decode_utf8_encode_utf8(contents);
        }
    }
}

/// Whether the snapshot at a place among those for a partition is that of a file.
pub open spec fn is_snapshot_of(
    snapshot: (LineView, Option<Seq<char>>),
    named: nat,
    file: DataFile,
) -> bool {
    &&& snapshot.0.digest == named
    &&& snapshot.0.format.name == file.format@.name
    &&& snapshot.0.format.metadata == file.format@.metadata
    &&& snapshot.0.timestamp is Some == file.resolution is Some
    &&& snapshot.1 == inferred_of(file)
}

/// Each snapshot that is written to a partition is that of a file with the key of the partition, under its
/// digest and with all of the metadata of its format. Each file that is not skipped has one there, unless it
/// has no resolution and such files are left out.
pub proof fn law_partitions_hold_their_files(
    files: Seq<(Sha1Digest, DataFile)>,
    keys: Seq<u64>,
    skip_unresolved: bool,
    place: int,
)
    requires
        0 <= place < keys.len(),
    ensures
        ({
            let given = routed(files, keys, skip_unresolved, place);
            &&& forall|k: int|
                0 <= k < given.len() ==> exists|i: int|
                    {
                        &&& 0 <= i < files.len()
                        &&& is_snapshot_of(
                            #[trigger] given[k],
                            (#[trigger] files[i]).0@,
                            files[i].1,
                        )
                        &&& files[i].1.partition == keys[place]
                        &&& skip_unresolved ==> files[i].1.resolution is Some
                    }
            &&& forall|i: int|
                #![trigger files[i]]
                0 <= i < files.len() && (outcome(files[i].0@, files[i].1, keys) matches Outcome::Ready(
                    chosen,
                    _,
                ) && chosen == place) && (files[i].1.resolution is Some || !skip_unresolved)
                    ==> exists|k: int|
                    0 <= k < given.len() && is_snapshot_of(
                        #[trigger] given[k],
                        files[i].0@,
                        files[i].1,
                    )
        }),
    decreases files.len(),
{
    if files.len() > 0 {
        let front = files.drop_last();
        law_partitions_hold_their_files(front, keys, skip_unresolved, place);
        let before = routed(front, keys, skip_unresolved, place);
        let given = routed(files, keys, skip_unresolved, place);
        let (named, file) = files.last();
        law_snapshots_hold_their_files(named@, file, keys);
        law_which_files_are_skipped(named@, file, keys);
        assert forall|k: int| 0 <= k < given.len() implies exists|i: int|
            {
                &&& 0 <= i < files.len()
                &&& is_snapshot_of(#[trigger] given[k], (#[trigger] files[i]).0@, files[i].1)
                &&& files[i].1.partition == keys[place]
                &&& skip_unresolved ==> files[i].1.resolution is Some
            } by {
            if k < before.len() {
                assert(given[k] == before[k]);
                let i = choose|i: int|
                    {
                        &&& 0 <= i < front.len()
                        &&& is_snapshot_of(before[k], (#[trigger] front[i]).0@, front[i].1)
                        &&& front[i].1.partition == keys[place]
                        &&& skip_unresolved ==> front[i].1.resolution is Some
                    };
                assert(files[i] == front[i]);
            } else {
                assert(files[files.len() - 1] == (named, file));
                assert(is_snapshot_of(given[k], named@, file));
            }
        }
        assert forall|i: int|
            #![trigger files[i]]
            0 <= i < files.len() && (outcome(files[i].0@, files[i].1, keys) matches Outcome::Ready(
                chosen,
                _,
            ) && chosen == place) && (files[i].1.resolution is Some
                || !skip_unresolved) implies exists|k: int|
            0 <= k < given.len() && is_snapshot_of(#[trigger] given[k], files[i].0@, files[i].1) by {
            if i < front.len() {
                assert(front[i] == files[i]);
                let k = choose|k: int|
                    0 <= k < before.len() && is_snapshot_of(
                        #[trigger] before[k],
                        files[i].0@,
                        files[i].1,
                    );
                assert(given[k] == before[k]);
            } else {
                assert(files[i] == (named, file));
                assert(is_snapshot_of(given[given.len() - 1], named@, file));
            }
        }
    }
}

/// A file is accounted for once: in the list for the reason why it is skipped, or in the count of those that
/// were resolved, with its warnings if it has any, or in the count and the list of those that were not. A
/// skipped file changes no partition, and neither does one without a resolution where such files are left out.
pub proof fn law_files_are_accounted_for(
    state: State,
    named: nat,
    file: DataFile,
    keys: Seq<u64>,
    skip_unresolved: bool,
)
    requires
        state.writers.len() == keys.len(),
    ensures
        ({
            let before = state.summary;
            let end = state.after(named, file, keys, skip_unresolved);
            let after = end.summary;
            let path = file.path@;
            match outcome(named, file, keys) {
                Outcome::Skipped(reason) => {
                    &&& end.writers == state.writers
                    &&& after.skipped_count == before.skipped_count + 1
                    &&& after.resolved_count == before.resolved_count
                    &&& after.unresolved_count == before.unresolved_count
                    &&& after.unresolved == before.unresolved
                    &&& after.warnings == before.warnings
                    &&& after.skipped.read_error == if reason is ReadError {
                        before.skipped.read_error.push(path)
                    } else {
                        before.skipped.read_error
                    }
                    &&& after.skipped.digest_mismatch == if reason is DigestMismatch {
                        before.skipped.digest_mismatch.push(path)
                    } else {
                        before.skipped.digest_mismatch
                    }
                    &&& after.skipped.no_partition == if reason is NoPartition {
                        before.skipped.no_partition.push(path)
                    } else {
                        before.skipped.no_partition
                    }
                    &&& after.skipped.unsupported_format == if reason is UnsupportedFormat {
                        before.skipped.unsupported_format.push(path)
                    } else {
                        before.skipped.unsupported_format
                    }
                    &&& after.skipped.undecodable == if reason is Undecodable {
                        before.skipped.undecodable.push(path)
                    } else {
                        before.skipped.undecodable
                    }
                },
                Outcome::Ready(place, _) => {
                    &&& after.skipped_count == before.skipped_count
                    &&& after.skipped == before.skipped
                    &&& file.resolution matches Some((_, warnings)) ==> {
                        &&& after.resolved_count == before.resolved_count + 1
                        &&& after.unresolved_count == before.unresolved_count
                        &&& after.unresolved == before.unresolved
                        &&& warnings.extra_valid@.len() > 0 || warnings.extra_invalid@.len() > 0
                            ==> after.warnings == before.warnings.push(warnings)
                        &&& warnings.extra_valid@.len() == 0 && warnings.extra_invalid@.len() == 0
                            ==> after.warnings == before.warnings
                    }
                    &&& file.resolution is None ==> {
                        &&& after.resolved_count == before.resolved_count
                        &&& after.unresolved_count == before.unresolved_count + 1
                        &&& after.unresolved == before.unresolved.push(named)
                        &&& after.warnings == before.warnings
                    }
                    &&& file.resolution is None && skip_unresolved ==> end.writers == state.writers
                        && end.failed == state.failed
                    &&& forall|other: int|
                        0 <= other < state.writers.len() && other != place
                            ==> #[trigger] end.writers[other] == state.writers[other]
                },
            }
        }),
{
    lemma_partition_of(keys, file.partition);
}

/// Combines a processing loop's outcome with the outcome of terminating its output: the error of the
/// loop is the more informative one, and is reported in preference to the other.
pub fn prefer_loop_error<S, E>(
    summary: S,
    loop_error: Option<E>,
    finish_error: Option<E>,
) -> (result: Result<S, E>)
    ensures
        result == match (loop_error, finish_error) {
            (Some(error), _) => Err::<S, E>(error),
            (None, Some(error)) => Err(error),
            (None, None) => Ok(summary),
        },
{
    match (loop_error, finish_error) {
        (Some(error), _) => Err(error),
        (None, Some(error)) => Err(error),
        (None, None) => Ok(summary),
    }
}

/// The partitions of WXJ content.
#[derive(Clone, Copy, Debug, PartialEq, Eq, Structural)]
pub enum WxjPartition {
    /// Tweets in the flat format.
    Flat,
    /// Tweets in the data format.
    Data,
    /// Content that is neither.
    Other,
}

/// What content in the flat format starts with.
pub const FLAT_START: &'static str = "{\"created_at\":";

/// What content in the data format starts with.
pub const DATA_START: &'static str = "{\"data\":";

/// Whether bytes start with a text.
pub open spec fn starts_with(bytes: Seq<u8>, prefix: Seq<char>) -> bool {
    vstd::utf8::encode_utf8(prefix).is_prefix_of(bytes)
}

/// Whether bytes start with other bytes.
pub fn has_prefix(bytes: &[u8], prefix: &[u8]) -> (found: bool)
    ensures
        found == prefix@.is_prefix_of(bytes@),
{
    if prefix.len() > bytes.len() {
        return false;
    }
    let mut i: usize = 0;
    while i < prefix.len()
        invariant
            i <= prefix@.len() <= bytes@.len(),
            forall|k: int| 0 <= k < i ==> prefix@[k] == bytes@[k],
        decreases prefix@.len() - i,
    {
        if prefix[i] != bytes[i] {
            return false;
        }
        i = i + 1;
    }
    assert(bytes@.subrange(0, prefix@.len() as int) =~= prefix@);
    true
}

/// The partition that WXJ content belongs to.
pub fn wxj_partition(bytes: &[u8]) -> (partition: WxjPartition)
    ensures
        partition == if starts_with(bytes@, FLAT_START@) {
            WxjPartition::Flat
        } else if starts_with(bytes@, DATA_START@) {
            WxjPartition::Data
        } else {
            WxjPartition::Other
        },
{
    if has_prefix(bytes, FLAT_START.as_bytes()) {
        WxjPartition::Flat
    } else if has_prefix(bytes, DATA_START.as_bytes()) {
        WxjPartition::Data
    } else {
        WxjPartition::Other
    }
}

/// Content belongs with the tweets of the flat format if it starts as they do, with those of the data format if
/// it starts as those do, and with neither otherwise.
pub proof fn law_content_is_told_by_start(bytes: &[u8], partition: WxjPartition)
    requires
        call_ensures(wxj_partition, (bytes,), partition),
    ensures
        ({
            let starts = |text: Seq<char>| vstd::utf8::encode_utf8(text).is_prefix_of(bytes@);
            &&& partition is Flat <==> starts("{\"created_at\":"@)
            &&& partition is Data ==> starts("{\"data\":"@)
            &&& starts("{\"data\":"@) && !starts("{\"created_at\":"@) ==> partition is Data
            &&& partition is Other <==> !starts("{\"created_at\":"@) && !starts("{\"data\":"@)
        }),
{
}

/// An error of the loop is reported before one of finishing, and without either the summary is given.
pub proof fn law_first_error_is_reported<S, E>(
    summary: S,
    loop_error: Option<E>,
    finish_error: Option<E>,
    result: Result<S, E>,
)
    requires
        call_ensures(prefer_loop_error::<S, E>, (summary, loop_error, finish_error), result),
    ensures
        result is Ok <==> loop_error is None && finish_error is None,
        result matches Ok(given) ==> given == summary,
        loop_error matches Some(error) ==> result == Err::<S, E>(error),
        loop_error is None ==> (finish_error matches Some(error) ==> result == Err::<S, E>(error)),
{
}

/// A summary is seen by its counts and its lists.
pub proof fn law_summaries_are_seen_whole(summary: Summary)
    ensures
        summary@.resolved_count == summary.resolved_count,
        summary@.unresolved_count == summary.unresolved_count,
        summary@.skipped_count == summary.skipped_count,
        summary@.unresolved == summary.unresolved@.map_values(|digest: Sha1Digest| digest@),
        summary@.warnings == summary.warnings@,
        summary@.skipped.read_error == lines::string_views(summary.skipped.read_error@),
        summary@.skipped.digest_mismatch == lines::string_views(summary.skipped.digest_mismatch@),
        summary@.skipped.no_partition == lines::string_views(summary.skipped.no_partition@),
        summary@.skipped.unsupported_format == lines::string_views(
            summary.skipped.unsupported_format@,
        ),
        summary@.skipped.undecodable == lines::string_views(summary.skipped.undecodable@),
{
}

/// A compaction that writes everything leaves in each new partition the lines of its files behind what it held,
/// in the order of their digests: a line for each file with its key that is not skipped, with the digest of the
/// file and with the name and all of the metadata of its format.
pub proof fn law_compaction_keeps_formats(
    files: DigestTable<DataFile>,
    keys: &Vec<u64>,
    writers: &mut Vec<SnapshotWriter>,
    skip_unresolved: bool,
    result: (Summary, Option<Error>),
    place: int,
)
    requires
        call_ensures(compact_into, (files, keys, writers, skip_unresolved), result),
        keys@.len() == old(writers)@.len(),
        0 <= place < keys@.len(),
        old(writers)@[place]@.last is None,
        result.1 is None,
    ensures
        ({
            let before = old(writers)@[place]@;
            let after = writer_views(final(writers)@)[place];
            exists|given: Seq<(LineView, Option<Seq<char>>)>|
                {
                    &&& after.output == before.output + lines::written(#[trigger] before.texts(given))
                    &&& before.kept(given) == given
                    &&& writer::are_ascending(given)
                    &&& forall|k: int|
                        0 <= k < given.len() ==> is_snapshot_of_one(
                            #[trigger] given[k],
                            files.all(),
                            keys@[place],
                        )
                }
        }),
{
    let before = old(writers)@[place]@;
    let views = writer_views(old(writers)@);
    assert(views[place] == before);
    law_partitions_are_digest_sorted(views, files.all(), keys@, skip_unresolved, place);
    law_partitions_hold_their_files(files.all(), keys@, skip_unresolved, place);
    let given = routed(files.all(), keys@, skip_unresolved, place);
    assert forall|k: int| 0 <= k < given.len() implies is_snapshot_of_one(
        #[trigger] given[k],
        files.all(),
        keys@[place],
    ) by {
        let i = choose|i: int|
            {
                &&& 0 <= i < files.all().len()
                &&& is_snapshot_of(given[k], (#[trigger] files.all()[i]).0@, files.all()[i].1)
                &&& files.all()[i].1.partition == keys@[place]
                &&& skip_unresolved ==> files.all()[i].1.resolution is Some
            };
        assert(files.all()[i].1.partition == keys@[place]);
    }
    assert(writer_views(final(writers)@)[place].output == before.output + lines::written(
        before.texts(given),
    ));
}

/// Whether a snapshot is that of one of the files with a partition key.
pub open spec fn is_snapshot_of_one(
    snapshot: (LineView, Option<Seq<char>>),
    files: Seq<(Sha1Digest, DataFile)>,
    key: u64,
) -> bool {
    exists|i: int|
        {
            &&& 0 <= i < files.len()
            &&& (#[trigger] files[i]).1.partition == key
            &&& snapshot.0.digest == files[i].0@
            &&& snapshot.0.format.name == files[i].1.format@.name
            &&& snapshot.0.format.metadata == files[i].1.format@.metadata
        }
}

} // verus!
