//! Validating snapshot lines that arrive one after the other.
//!
//! Unlike a check of a whole file, a digest that is rejected does not advance the point that the
//! next digest is compared with, and every line has to hold a snapshot.
use vstd::prelude::*;

use crate::check;
use crate::check::{SourceLine, SourceView};
use crate::context::Context;
use crate::digest;
use crate::digest::Sha1Digest;
use crate::exact;
use crate::listing;
use crate::snapshot::Snapshot;
use crate::validation;
use crate::validation::ValidationError;

verus! {

/// A digest that was declared, and the one that the content has.
#[derive(Clone, Copy, Debug, PartialEq, Eq, Structural)]
pub struct DigestError {
    /// The declared digest.
    pub expected: Sha1Digest,
    /// The digest of the content.
    pub actual: Sha1Digest,
}

/// What was found of one line.
#[derive(Debug, PartialEq, Eq)]
pub enum LineValidation {
    /// The line holds a snapshot that reproduces its digest.
    Valid(Sha1Digest),
    /// The line with this one-based number does not hold a snapshot.
    InvalidLine(usize),
    /// The line holds a snapshot that does not reproduce its digest.
    UnexpectedDigest(DigestError),
    /// There is no codec for the format with this name.
    UnsupportedFormat(String),
}

/// What is found of one line.
#[verifier::ext_equal]
pub enum LineFinding {
    /// The line holds a snapshot that reproduces its digest.
    Valid(nat),
    /// The line with this one-based number does not hold a snapshot.
    InvalidLine(int),
    /// The line holds a snapshot with the first digest that has the second.
    UnexpectedDigest(nat, nat),
    /// There is no codec for the format with this name.
    UnsupportedFormat(Seq<char>),
}

impl View for LineValidation {
    type V = LineFinding;

    open spec fn view(&self) -> LineFinding {
        match self {
            LineValidation::Valid(digest) => LineFinding::Valid(digest@),
            LineValidation::InvalidLine(number) => LineFinding::InvalidLine(*number as int),
            LineValidation::UnexpectedDigest(error) => LineFinding::UnexpectedDigest(
                error.expected@,
                error.actual@,
            ),
            LineValidation::UnsupportedFormat(name) => LineFinding::UnsupportedFormat(name@),
        }
    }
}

/// What is found of the line at a zero-based index.
pub open spec fn finding(index: int, line: SourceView, default: Seq<char>) -> LineFinding {
    match exact::parse_line(line.text) {
        None => LineFinding::InvalidLine(index + 1),
        Some(view) => match validation::outcome(view, default, line.encoded) {
            validation::Outcome::Valid => LineFinding::Valid(view.digest),
            validation::Outcome::Mismatch(actual) => LineFinding::UnexpectedDigest(
                view.digest,
                actual,
            ),
            validation::Outcome::Unsupported => LineFinding::UnsupportedFormat(
                view.format.name.unwrap(),
            ),
            validation::Outcome::BadWhitespace => LineFinding::InvalidLine(index + 1),
        },
    }
}

/// Parse and validate a single line under `context`.
pub fn validate_one(index: usize, line: &SourceLine, context: &Context) -> (found: LineValidation)
    requires
        index < usize::MAX,
    ensures
        found@ == finding(index as int, line@, context@),
{
    let snapshot = match Snapshot::parse(line.text.as_str()) {
        Ok(snapshot) => snapshot,
        Err(_) => return LineValidation::InvalidLine(index + 1),
    };
    let encoded: Option<&Vec<u8>> = match &line.encoded {
        Some(bytes) => Some(bytes),
        None => None,
    };
    match context.verify_with(&snapshot, encoded) {
        Ok(_) => LineValidation::Valid(snapshot.digest),
        Err(ValidationError::Mismatch(actual)) => LineValidation::UnexpectedDigest(
            DigestError { expected: snapshot.digest, actual },
        ),
        Err(ValidationError::UnsupportedFormat(name)) => LineValidation::UnsupportedFormat(name),
        Err(ValidationError::ClosingWhitespace) => LineValidation::InvalidLine(index + 1),
    }
}

/// Accumulated outcomes from validating every line of a snapshot stream.
///
/// Each verified digest is compared with the most recent digest accepted in order: an equal digest
/// is a duplicate, and a smaller one is out of order.
#[derive(Debug, PartialEq, Eq)]
pub struct StreamValidation {
    /// Number of lines that parsed, verified against their digest, and arrived in strictly
    /// ascending digest order.
    pub valid_count: usize,
    /// One-based numbers of the lines that could not be parsed as snapshots.
    pub invalid_lines: Vec<usize>,
    /// Mismatches for lines that parsed but whose reproduced bytes hashed to a different digest.
    pub unexpected_digests: Vec<DigestError>,
    /// Names of formats that appeared on a line but have no codec.
    pub unsupported_formats: Vec<String>,
    /// Digests of verified lines that sorted strictly before the most recent digest accepted in
    /// order.
    pub out_of_order: Vec<Sha1Digest>,
    /// Digests of verified lines equal to the most recent digest accepted in order.
    pub duplicates: Vec<Sha1Digest>,
}

/// What was found of a stream, as numbers and texts.
#[verifier::ext_equal]
pub struct StreamView {
    /// Number of lines accepted in order.
    pub valid_count: nat,
    /// Numbers of the lines that hold no snapshot.
    pub invalid_lines: Seq<int>,
    /// Declared and actual digests.
    pub unexpected_digests: Seq<(nat, nat)>,
    /// Names of formats without a codec.
    pub unsupported_formats: Seq<Seq<char>>,
    /// Digests smaller than the one before.
    pub out_of_order: Seq<nat>,
    /// Digests equal to the one before.
    pub duplicates: Seq<nat>,
}

impl View for StreamValidation {
    type V = StreamView;

    open spec fn view(&self) -> StreamView {
        StreamView {
            valid_count: self.valid_count as nat,
            invalid_lines: self.invalid_lines@.map_values(|number: usize| number as int),
            unexpected_digests: self.unexpected_digests@.map_values(
                |error: DigestError| (error.expected@, error.actual@),
            ),
            unsupported_formats: self.unsupported_formats@.map_values(|name: String| name@),
            out_of_order: listing::digest_views(self.out_of_order@),
            duplicates: listing::digest_views(self.duplicates@),
        }
    }
}

impl StreamView {
    /// Nothing was found yet.
    pub open spec fn empty() -> StreamView {
        StreamView {
            valid_count: 0,
            invalid_lines: Seq::empty(),
            unexpected_digests: Seq::empty(),
            unsupported_formats: Seq::empty(),
            out_of_order: Seq::empty(),
            duplicates: Seq::empty(),
        }
    }

    /// What is found with one line more, after `last` was accepted in order.
    pub open spec fn recorded(self, last: Option<nat>, line: LineFinding) -> StreamView {
        match line {
            LineFinding::Valid(digest) => match last {
                Some(last) if digest == last => StreamView {
                    duplicates: self.duplicates.push(digest),
                    ..self
                },
                Some(last) if digest < last => StreamView {
                    out_of_order: self.out_of_order.push(digest),
                    ..self
                },
                _ => StreamView { valid_count: self.valid_count + 1, ..self },
            },
            LineFinding::InvalidLine(number) => StreamView {
                invalid_lines: self.invalid_lines.push(number),
                ..self
            },
            LineFinding::UnexpectedDigest(expected, actual) => StreamView {
                unexpected_digests: self.unexpected_digests.push((expected, actual)),
                ..self
            },
            LineFinding::UnsupportedFormat(name) => StreamView {
                unsupported_formats: self.unsupported_formats.push(name),
                ..self
            },
        }
    }

    /// Whether nothing but lines accepted in order was found.
    pub open spec fn has_no_problem(self) -> bool {
        &&& self.invalid_lines.len() == 0
        &&& self.unexpected_digests.len() == 0
        &&& self.unsupported_formats.len() == 0
        &&& self.out_of_order.len() == 0
        &&& self.duplicates.len() == 0
    }
}

/// The digest that the next one is compared with, after one line more.
pub open spec fn advanced(last: Option<nat>, line: LineFinding) -> Option<nat> {
    match line {
        LineFinding::Valid(digest) => match last {
            Some(last) if digest <= last => Some(last),
            _ => Some(digest),
        },
        _ => last,
    }
}

/// The most recent digest accepted in order among `lines`.
pub open spec fn cursor(lines: Seq<LineFinding>) -> Option<nat>
    decreases lines.len(),
{
    if lines.len() == 0 {
        None
    } else {
        advanced(cursor(lines.drop_last()), lines.last())
    }
}

/// What is found of a stream, line by line.
pub open spec fn accumulated(lines: Seq<LineFinding>) -> StreamView
    decreases lines.len(),
{
    if lines.len() == 0 {
        StreamView::empty()
    } else {
        accumulated(lines.drop_last()).recorded(cursor(lines.drop_last()), lines.last())
    }
}

/// What is found of each of the lines.
pub open spec fn findings(lines: Seq<SourceView>, default: Seq<char>) -> Seq<LineFinding> {
    Seq::new(lines.len(), |i: int| finding(i, lines[i], default))
}

/// The number behind a digest.
pub open spec fn digest_view(digest: Option<Sha1Digest>) -> Option<nat> {
    match digest {
        Some(digest) => Some(digest@),
        None => None,
    }
}

impl StreamValidation {
    /// An accumulation of no lines.
    pub fn empty() -> (empty: StreamValidation)
        ensures
            empty@ == StreamView::empty(),
    {
        let empty = StreamValidation {
            valid_count: 0,
            invalid_lines: Vec::new(),
            unexpected_digests: Vec::new(),
            unsupported_formats: Vec::new(),
            out_of_order: Vec::new(),
            duplicates: Vec::new(),
        };
        assert(empty@ =~= StreamView::empty());
        empty
    }

    /// Returns `true` if every line parsed, verified against its digest, and arrived in strictly
    /// ascending digest order.
    pub fn is_successful(&self) -> (successful: bool)
        ensures
            successful == self@.has_no_problem(),
    {
        self.invalid_lines.is_empty() && self.unexpected_digests.is_empty()
            && self.unsupported_formats.is_empty() && self.out_of_order.is_empty()
            && self.duplicates.is_empty()
    }

    /// Adds what was found of the next line, after the digest `last` was accepted in order, and
    /// returns the digest that the line after it is compared with.
    pub fn record(&mut self, last: Option<Sha1Digest>, line: LineValidation) -> (next: Option<
        Sha1Digest,
    >)
        requires
            old(self).valid_count < usize::MAX,
        ensures
            final(self)@ == old(self)@.recorded(digest_view(last), line@),
            digest_view(next) == advanced(digest_view(last), line@),
    {
        let ghost before = *self;
        match line {
            LineValidation::Valid(digest) => {
                if let Some(last) = last {
                    if digest == last {
                        self.duplicates.push(digest);
                        proof {
                            listing::lemma_digest_views_push(before.duplicates@, digest);
                        }
                        return Some(last);
                    }
                    proof {
                        if digest@ == last@ {
                            digest::lemma_digest_unique(digest, last);
                        }
                    }
                    if digest.is_before(&last) {
                        self.out_of_order.push(digest);
                        proof {
                            listing::lemma_digest_views_push(before.out_of_order@, digest);
                        }
                        return Some(last);
                    }
                }
                self.valid_count = self.valid_count + 1;
                Some(digest)
            },
            LineValidation::InvalidLine(number) => {
                self.invalid_lines.push(number);
                assert(self@.invalid_lines =~= before@.invalid_lines.push(number as int));
                last
            },
            LineValidation::UnexpectedDigest(error) => {
                self.unexpected_digests.push(error);
                assert(self@.unexpected_digests =~= before@.unexpected_digests.push(
                    (error.expected@, error.actual@),
                ));
                last
            },
            LineValidation::UnsupportedFormat(name) => {
                let ghost text = name@;
                self.unsupported_formats.push(name);
                assert(self@.unsupported_formats =~= before@.unsupported_formats.push(text));
                last
            },
        }
    }
}

/// Validates lines that are already decoded.
pub fn validate_lines(lines: &Vec<SourceLine>, context: &Context) -> (result: StreamValidation)
    ensures
        result@ == accumulated(findings(check::source_views(lines@), context@)),
{
    let ghost all = findings(check::source_views(lines@), context@);
    let mut result = StreamValidation::empty();
    let mut last: Option<Sha1Digest> = None;
    let mut i: usize = 0;
    assert(all.take(0) =~= Seq::empty());
    while i < lines.len()
        invariant
            i <= lines@.len(),
            all == findings(check::source_views(lines@), context@),
            result@ == accumulated(all.take(i as int)),
            result.valid_count <= i,
            digest_view(last) == cursor(all.take(i as int)),
        decreases lines@.len() - i,
    {
        let found = validate_one(i, &lines[i], context);
        proof {
            assert(found@ == all[i as int]);
            assert(all.take(i + 1).drop_last() =~= all.take(i as int));
            assert(all.take(i + 1).last() == all[i as int]);
        }
        last = result.record(last, found);
        i = i + 1;
    }
    assert(all.take(lines@.len() as int) =~= all);
    result
}

/// The most recent digest accepted bounds those accepted before it, and is one of them.
proof fn lemma_cursor(lines: Seq<LineFinding>)
    requires
        accumulated(lines).has_no_problem(),
    ensures
        forall|i: int| 0 <= i < lines.len() ==> #[trigger] lines[i] is Valid,
        forall|i: int, j: int|
            0 <= i < j < lines.len() ==> #[trigger] lines[i]->Valid_0 < #[trigger] lines[j]->Valid_0,
        lines.len() > 0 ==> cursor(lines) == Some(lines.last()->Valid_0),
        lines.len() == 0 ==> cursor(lines) is None,
        accumulated(lines).valid_count == lines.len(),
    decreases lines.len(),
{
    if lines.len() > 0 {
        let before = lines.drop_last();
        lemma_cursor(before);
        assert forall|i: int, j: int| 0 <= i < j < lines.len() implies #[trigger] lines[i]->Valid_0
            < #[trigger] lines[j]->Valid_0 by {
            assert(lines[i] == before[i]);
            if j < lines.len() - 1 {
                assert(lines[j] == before[j]);
            } else if i < before.len() - 1 {
                assert(before[i]->Valid_0 < before[before.len() - 1]->Valid_0);
            }
        }
        assert forall|i: int| 0 <= i < lines.len() implies #[trigger] lines[i] is Valid by {
            if i < before.len() {
                assert(before[i] is Valid);
            }
        }
    }
}

/// Lines that are all verified, in strictly ascending digest order, are all accepted.
proof fn lemma_ascending(lines: Seq<LineFinding>)
    requires
        is_ascending(lines),
    ensures
        accumulated(lines).has_no_problem(),
    decreases lines.len(),
{
    if lines.len() > 0 {
        let before = lines.drop_last();
        assert forall|i: int| 0 <= i < before.len() implies #[trigger] before[i] is Valid by {
            assert(lines[i] is Valid);
        }
        assert forall|i: int, j: int| 0 <= i < j < before.len() implies #[trigger] before[i]->Valid_0
            < #[trigger] before[j]->Valid_0 by {
            assert(lines[i]->Valid_0 < lines[j]->Valid_0);
        }
        lemma_ascending(before);
        lemma_cursor(before);
        if before.len() > 0 {
            assert(lines[before.len() - 1]->Valid_0 < lines[lines.len() - 1]->Valid_0);
        }
        assert(lines[lines.len() - 1] is Valid);
    }
}

/// Whether every line is verified and the digests are strictly ascending.
pub open spec fn is_ascending(lines: Seq<LineFinding>) -> bool {
    &&& forall|i: int| 0 <= i < lines.len() ==> #[trigger] lines[i] is Valid
    &&& forall|i: int, j: int|
        0 <= i < j < lines.len() ==> #[trigger] lines[i]->Valid_0 < #[trigger] lines[j]->Valid_0
}

/// A validation is successful exactly if every line is verified against its digest and the digests
/// are strictly ascending. All lines are then counted as valid.
pub proof fn law_success_means_ascending(lines: Seq<LineFinding>)
    ensures
        accumulated(lines).has_no_problem() <==> is_ascending(lines),
        is_ascending(lines) ==> accumulated(lines).valid_count == lines.len(),
{
    if accumulated(lines).has_no_problem() {
        lemma_cursor(lines);
    }
    if is_ascending(lines) {
        lemma_ascending(lines);
        lemma_cursor(lines);
    }
}

/// Every line of a stream is counted or reported exactly once.
pub proof fn law_every_line_is_reported(lines: Seq<LineFinding>)
    ensures
        accumulated(lines).valid_count + accumulated(lines).invalid_lines.len() + accumulated(
            lines,
        ).unexpected_digests.len() + accumulated(lines).unsupported_formats.len() + accumulated(
            lines,
        ).out_of_order.len() + accumulated(lines).duplicates.len() == lines.len(),
    decreases lines.len(),
{
    if lines.len() > 0 {
        law_every_line_is_reported(lines.drop_last());
    }
}

/// A line is found by its snapshot: one that does not parse, or whose closing whitespace is none, is invalid and
/// reported by its number, counted from one. Any other is valid under its digest, has another digest than it
/// says, or is of a format without a codec.
pub proof fn law_lines_are_found(index: int, line: SourceView, default: Seq<char>)
    ensures
        ({
            let found = finding(index, line, default);
            match exact::parse_line(line.text) {
                None => found == LineFinding::InvalidLine(index + 1),
                Some(view) => {
                    let outcome = validation::outcome(view, default, line.encoded);
                    &&& outcome is Valid ==> found == LineFinding::Valid(view.digest)
                    &&& outcome matches validation::Outcome::Mismatch(actual) ==> found
                        == LineFinding::UnexpectedDigest(view.digest, actual)
                    &&& outcome is Unsupported ==> Some(found->UnsupportedFormat_0) == view.format.name
                        && found is UnsupportedFormat
                    &&& outcome is BadWhitespace ==> found == LineFinding::InvalidLine(index + 1)
                },
            }
        }),
{
}

/// Each line is filed in one place: a valid one counts where its digest is greater than all before it, is a
/// duplicate where it is the greatest, and out of order where it is less. The rest stays as it was.
pub proof fn law_lines_are_filed(view: StreamView, last: Option<nat>, line: LineFinding)
    ensures
        ({
            let after = view.recorded(last, line);
            let is_duplicate = line matches LineFinding::Valid(digest) && last == Some(digest);
            let is_late = line matches LineFinding::Valid(digest) && (last matches Some(last) && digest
                < last);
            &&& after.duplicates == if is_duplicate {
                view.duplicates.push(line->Valid_0)
            } else {
                view.duplicates
            }
            &&& after.out_of_order == if is_late {
                view.out_of_order.push(line->Valid_0)
            } else {
                view.out_of_order
            }
            &&& after.valid_count == view.valid_count + if line is Valid && !is_duplicate && !is_late {
                1nat
            } else {
                0
            }
            &&& after.invalid_lines == if line is InvalidLine {
                view.invalid_lines.push(line->InvalidLine_0)
            } else {
                view.invalid_lines
            }
            &&& after.unexpected_digests == if line is UnexpectedDigest {
                view.unexpected_digests.push((line->UnexpectedDigest_0, line->UnexpectedDigest_1))
            } else {
                view.unexpected_digests
            }
            &&& after.unsupported_formats == if line is UnsupportedFormat {
                view.unsupported_formats.push(line->UnsupportedFormat_0)
            } else {
                view.unsupported_formats
            }
        }),
{
}

/// What a line is compared with is the greatest digest of the valid lines before it.
pub proof fn law_cursor_is_the_greatest(lines: Seq<LineFinding>)
    ensures
        match cursor(lines) {
            None => forall|i: int| 0 <= i < lines.len() ==> !(#[trigger] lines[i] is Valid),
            Some(last) => {
                &&& lines.contains(LineFinding::Valid(last))
                &&& forall|i: int|
                    0 <= i < lines.len() && #[trigger] lines[i] is Valid ==> lines[i]->Valid_0 <= last
            },
        },
    decreases lines.len(),
{
    if lines.len() > 0 {
        let front = lines.drop_last();
        law_cursor_is_the_greatest(front);
        assert(forall|i: int| 0 <= i < front.len() ==> #[trigger] lines[i] == front[i]);
        if let Some(last) = cursor(front) {
            let i = choose|i: int| 0 <= i < front.len() && front[i] == LineFinding::Valid(last);
            assert(lines[i] == LineFinding::Valid(last));
        }
        assert(lines[lines.len() - 1] == lines.last());
    }
}

/// Each line has its finding, by its number.
pub proof fn law_every_line_has_a_finding(lines: Seq<SourceView>, default: Seq<char>, i: int)
    requires
        0 <= i < lines.len(),
    ensures
        findings(lines, default).len() == lines.len(),
        findings(lines, default)[i] == finding(i, lines[i], default),
{
}

/// What was found of lines is seen by its counts and its lists.
pub proof fn law_findings_are_seen_whole(found: StreamValidation, i: int)
    ensures
        found@.valid_count == found.valid_count,
        found@.invalid_lines.len() == found.invalid_lines@.len(),
        0 <= i < found.invalid_lines@.len() ==> found@.invalid_lines[i] == found.invalid_lines@[i],
        found@.unexpected_digests.len() == found.unexpected_digests@.len(),
        0 <= i < found.unexpected_digests@.len() ==> found@.unexpected_digests[i] == (
            found.unexpected_digests@[i].expected@,
            found.unexpected_digests@[i].actual@,
        ),
        found@.unsupported_formats.len() == found.unsupported_formats@.len(),
        0 <= i < found.unsupported_formats@.len() ==> found@.unsupported_formats[i]
            == found.unsupported_formats@[i]@,
        found@.out_of_order.len() == found.out_of_order@.len(),
        0 <= i < found.out_of_order@.len() ==> found@.out_of_order[i] == found.out_of_order@[i]@,
        found@.duplicates.len() == found.duplicates@.len(),
        0 <= i < found.duplicates@.len() ==> found@.duplicates[i] == found.duplicates@[i]@,
{
}

/// The findings of a stream are without a problem exactly if every list of them is empty.
pub proof fn law_success_means_empty_lists(found: &StreamValidation, successful: bool)
    requires
        call_ensures(StreamValidation::is_successful, (found,), successful),
    ensures
        successful <==> found.invalid_lines@.len() == 0 && found.unexpected_digests@.len() == 0
            && found.unsupported_formats@.len() == 0 && found.out_of_order@.len() == 0
            && found.duplicates@.len() == 0,
{
}

} // verus!
