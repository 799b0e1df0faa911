//! Checking a compact snapshot file: digests, schema, ordering, and metadata consistency.
//!
//! The check says, per line, whether it parses under the snapshot schema, whether its content
//! reproduces its digest under the given context, whether the digests are sorted and distinct, and
//! whether its metadata is in a consistent state (a URL never appears without a timestamp, and
//! neither the URL nor expected digest is redundant). Missing timestamps are counted but do not make
//! a check fail.
use vstd::prelude::*;

use crate::context::Context;
use crate::digest;
use crate::digest::Sha1Digest;
use crate::exact;
use crate::exact::{ExactSnapshot, LineView};
use crate::listing;
use crate::snapshot::Snapshot;
use crate::text::{borrow_str, same_str};
use crate::validation;
use crate::validation::ValidationError;

verus! {

/// A line to check, with what only its context can say of it.
#[derive(Debug)]
pub struct SourceLine {
    /// The line, without its terminator.
    pub text: String,
    /// The URL that the context's query gives for the line's content.
    pub inferred_url: Option<String>,
    /// The bytes that the codec of the line's format reproduces for it, if there is a codec.
    pub encoded: Option<Vec<u8>>,
}

/// A line to check, as texts.
pub struct SourceView {
    /// The line.
    pub text: Seq<char>,
    /// The URL that the context's query gives.
    pub inferred_url: Option<Seq<char>>,
    /// The bytes that a codec reproduces.
    pub encoded: Option<Seq<u8>>,
}

impl View for SourceLine {
    type V = SourceView;

    open spec fn view(&self) -> SourceView {
        SourceView {
            text: self.text@,
            inferred_url: match self.inferred_url {
                Some(url) => Some(url@),
                None => None,
            },
            encoded: match self.encoded {
                Some(bytes) => Some(bytes@),
                None => None,
            },
        }
    }
}

/// The lines to check, as texts.
pub open spec fn source_views(lines: Seq<SourceLine>) -> Seq<SourceView> {
    lines.map_values(|line: SourceLine| line@)
}

/// Summary of a check.
#[derive(Debug, PartialEq, Eq)]
pub struct Summary {
    /// Number of (non-empty) lines read.
    pub line_count: u64,
    /// Number of snapshots whose content reproduces their digest.
    pub valid_digest_count: u64,
    /// Line numbers (one-based) that do not parse under the snapshot schema.
    pub schema_errors: Vec<u64>,
    /// Digests whose content hashes to a different value than stored.
    pub digest_mismatches: Vec<Sha1Digest>,
    /// Digests whose format has no codec.
    pub unsupported_formats: Vec<Sha1Digest>,
    /// Number of snapshots with no timestamp (not yet enhanced with CDX metadata).
    pub missing_timestamp_count: u64,
    /// Digests in an invalid metadata state: an explicit URL but no timestamp.
    pub url_without_timestamp: Vec<Sha1Digest>,
    /// Digests carrying an expected digest equal to their own digest (which should be absent).
    pub redundant_expected_digest: Vec<Sha1Digest>,
    /// Digests carrying an explicit URL equal to the context's inferred URL (which serialization
    /// under this context would omit).
    pub redundant_url: Vec<Sha1Digest>,
    /// Digests that sort before the preceding parsed snapshot's digest.
    pub out_of_order: Vec<Sha1Digest>,
    /// Digests equal to the preceding parsed snapshot's digest.
    pub duplicates: Vec<Sha1Digest>,
}

/// The lines of a file and the default closing whitespace that they are checked under.
pub struct Checked {
    /// The lines.
    pub lines: Seq<SourceView>,
    /// The default closing whitespace.
    pub default: Seq<char>,
}

impl Checked {
    /// Whether line `i` is not empty.
    pub open spec fn is_read(self, i: int) -> bool {
        self.lines[i].text.len() > 0
    }

    /// What line `i` says.
    pub open spec fn parsed(self, i: int) -> Option<LineView> {
        if self.is_read(i) {
            exact::parse_line(self.lines[i].text)
        } else {
            None
        }
    }

    /// Whether line `i` holds a snapshot.
    pub open spec fn is_parsed(self, i: int) -> bool {
        self.parsed(i) is Some
    }

    /// The digest that line `i` declares.
    pub open spec fn digest(self, i: int) -> nat {
        self.parsed(i).unwrap().digest
    }

    /// What the check of line `i` against its digest finds.
    pub open spec fn outcome(self, i: int) -> validation::Outcome {
        validation::outcome(self.parsed(i).unwrap(), self.default, self.lines[i].encoded)
    }

    /// Whether line `i` reproduces its digest.
    pub open spec fn is_valid(self, i: int) -> bool {
        self.is_parsed(i) && self.outcome(i) is Valid
    }

    /// Whether line `i` breaks the schema.
    pub open spec fn is_schema_error(self, i: int) -> bool {
        self.is_read(i) && (!self.is_parsed(i) || self.outcome(i) is BadWhitespace)
    }

    /// Whether line `i` hashes to another digest.
    pub open spec fn is_mismatch(self, i: int) -> bool {
        self.is_parsed(i) && self.outcome(i) is Mismatch
    }

    /// Whether there is no codec for the format of line `i`.
    pub open spec fn is_unsupported(self, i: int) -> bool {
        self.is_parsed(i) && self.outcome(i) is Unsupported
    }

    /// Whether line `i` has no timestamp.
    pub open spec fn lacks_timestamp(self, i: int) -> bool {
        self.is_parsed(i) && self.parsed(i).unwrap().timestamp is None
    }

    /// Whether line `i` has a URL but no timestamp.
    pub open spec fn has_url_only(self, i: int) -> bool {
        self.lacks_timestamp(i) && self.parsed(i).unwrap().url is Some
    }

    /// Whether the expected digest of line `i` is its digest.
    pub open spec fn has_redundant_digest(self, i: int) -> bool {
        self.is_parsed(i) && (self.parsed(i).unwrap().expected_digest matches Some(expected)
            && digest::is_digest_text(expected) && digest::digest_value(expected) == self.digest(i))
    }

    /// Whether the URL of line `i` is the inferred one.
    pub open spec fn has_redundant_url(self, i: int) -> bool {
        self.is_parsed(i) && self.parsed(i).unwrap().url is Some && self.parsed(i).unwrap().url
            == self.lines[i].inferred_url
    }

    /// The digest of the last snapshot before line `n`.
    pub open spec fn last_digest(self, n: int) -> Option<nat>
        decreases n,
    {
        if n <= 0 {
            None
        } else if self.is_parsed(n - 1) {
            Some(self.digest(n - 1))
        } else {
            self.last_digest(n - 1)
        }
    }

    /// Whether the digest of line `i` equals that of the snapshot before it.
    pub open spec fn is_duplicate(self, i: int) -> bool {
        self.is_parsed(i) && self.last_digest(i) == Some(self.digest(i))
    }

    /// Whether the digest of line `i` sorts before that of the snapshot before it.
    pub open spec fn is_out_of_order(self, i: int) -> bool {
        self.is_parsed(i) && (self.last_digest(i) matches Some(last) && self.digest(i) < last)
    }

    /// The digests of the first `n` lines at which a condition holds.
    pub open spec fn digests(self, n: nat, holds: spec_fn(int) -> bool) -> Seq<nat> {
        listing::places(n, holds).map_values(|i: int| self.digest(i))
    }

    /// Whether a summary says what holds of the first `n` lines.
    pub open spec fn is_summary(self, summary: Summary, n: nat) -> bool {
        &&& summary.line_count == listing::places(n, |i: int| self.is_read(i)).len()
        &&& summary.valid_digest_count == listing::places(n, |i: int| self.is_valid(i)).len()
        &&& summary.schema_errors@.map_values(|number: u64| number as int) == listing::places(
            n,
            |i: int| self.is_schema_error(i),
        ).map_values(|i: int| i + 1)
        &&& listing::digest_views(summary.digest_mismatches@) == self.digests(
            n,
            |i: int| self.is_mismatch(i),
        )
        &&& listing::digest_views(summary.unsupported_formats@) == self.digests(
            n,
            |i: int| self.is_unsupported(i),
        )
        &&& summary.missing_timestamp_count == listing::places(
            n,
            |i: int| self.lacks_timestamp(i),
        ).len()
        &&& listing::digest_views(summary.url_without_timestamp@) == self.digests(
            n,
            |i: int| self.has_url_only(i),
        )
        &&& listing::digest_views(summary.redundant_expected_digest@) == self.digests(
            n,
            |i: int| self.has_redundant_digest(i),
        )
        &&& listing::digest_views(summary.redundant_url@) == self.digests(
            n,
            |i: int| self.has_redundant_url(i),
        )
        &&& listing::digest_views(summary.out_of_order@) == self.digests(
            n,
            |i: int| self.is_out_of_order(i),
        )
        &&& listing::digest_views(summary.duplicates@) == self.digests(
            n,
            |i: int| self.is_duplicate(i),
        )
    }

    /// Whether every line that is not empty parses and reproduces its digest, the digests are
    /// strictly ascending, and no metadata is invalid or redundant.
    pub open spec fn is_sound(self) -> bool {
        &&& forall|i: int|
            0 <= i < self.lines.len() && #[trigger] self.is_read(i) ==> {
                &&& self.is_valid(i)
                &&& !self.has_url_only(i)
                &&& !self.has_redundant_digest(i)
                &&& !self.has_redundant_url(i)
            }
        &&& forall|i: int, j: int|
            0 <= i < j < self.lines.len() && #[trigger] self.is_parsed(i) && #[trigger] self.is_parsed(
                j,
            ) ==> self.digest(i) < self.digest(j)
    }
}

impl Checked {
    /// How the digests at which a condition holds grow by one line.
    proof fn lemma_digests_step(self, n: nat, holds: spec_fn(int) -> bool)
        ensures
            self.digests(n + 1, holds) == if holds(n as int) {
                self.digests(n, holds).push(self.digest(n as int))
            } else {
                self.digests(n, holds)
            },
    {
        assert(self.digests(n + 1, holds) =~= if holds(n as int) {
            self.digests(n, holds).push(self.digest(n as int))
        } else {
            self.digests(n, holds)
        });
    }

    /// How every list of a summary grows by one line.
    proof fn lemma_step(self, n: nat)
        ensures
            self.digests(n + 1, |i: int| self.is_mismatch(i)) == if self.is_mismatch(n as int) {
                self.digests(n, |i: int| self.is_mismatch(i)).push(self.digest(n as int))
            } else {
                self.digests(n, |i: int| self.is_mismatch(i))
            },
            self.digests(n + 1, |i: int| self.is_unsupported(i)) == if self.is_unsupported(
                n as int,
            ) {
                self.digests(n, |i: int| self.is_unsupported(i)).push(self.digest(n as int))
            } else {
                self.digests(n, |i: int| self.is_unsupported(i))
            },
            self.digests(n + 1, |i: int| self.has_url_only(i)) == if self.has_url_only(n as int) {
                self.digests(n, |i: int| self.has_url_only(i)).push(self.digest(n as int))
            } else {
                self.digests(n, |i: int| self.has_url_only(i))
            },
            self.digests(n + 1, |i: int| self.has_redundant_digest(i))
                == if self.has_redundant_digest(n as int) {
                self.digests(n, |i: int| self.has_redundant_digest(i)).push(self.digest(n as int))
            } else {
                self.digests(n, |i: int| self.has_redundant_digest(i))
            },
            self.digests(n + 1, |i: int| self.has_redundant_url(i)) == if self.has_redundant_url(
                n as int,
            ) {
                self.digests(n, |i: int| self.has_redundant_url(i)).push(self.digest(n as int))
            } else {
                self.digests(n, |i: int| self.has_redundant_url(i))
            },
            self.digests(n + 1, |i: int| self.is_out_of_order(i)) == if self.is_out_of_order(
                n as int,
            ) {
                self.digests(n, |i: int| self.is_out_of_order(i)).push(self.digest(n as int))
            } else {
                self.digests(n, |i: int| self.is_out_of_order(i))
            },
            self.digests(n + 1, |i: int| self.is_duplicate(i)) == if self.is_duplicate(n as int) {
                self.digests(n, |i: int| self.is_duplicate(i)).push(self.digest(n as int))
            } else {
                self.digests(n, |i: int| self.is_duplicate(i))
            },
            listing::places(n + 1, |i: int| self.is_schema_error(i)).map_values(|i: int| i + 1)
                == if self.is_schema_error(n as int) {
                listing::places(n, |i: int| self.is_schema_error(i)).map_values(
                    |i: int| i + 1,
                ).push(n as int + 1)
            } else {
                listing::places(n, |i: int| self.is_schema_error(i)).map_values(|i: int| i + 1)
            },
    {
        self.lemma_digests_step(n, |i: int| self.is_mismatch(i));
        self.lemma_digests_step(n, |i: int| self.is_unsupported(i));
        self.lemma_digests_step(n, |i: int| self.has_url_only(i));
        self.lemma_digests_step(n, |i: int| self.has_redundant_digest(i));
        self.lemma_digests_step(n, |i: int| self.has_redundant_url(i));
        self.lemma_digests_step(n, |i: int| self.is_out_of_order(i));
        self.lemma_digests_step(n, |i: int| self.is_duplicate(i));
        let errors = listing::places(n, |i: int| self.is_schema_error(i));
        assert(errors.push(n as int).map_values(|i: int| i + 1) =~= errors.map_values(
            |i: int| i + 1,
        ).push(n as int + 1));
    }
}

/// Appends a digest to a list.
fn push_digest(digests: &mut Vec<Sha1Digest>, digest: Sha1Digest)
    ensures
        listing::digest_views(final(digests)@) == listing::digest_views(old(digests)@).push(
            digest@,
        ),
{
    proof {
        listing::lemma_digest_views_push(digests@, digest);
    }
    digests.push(digest);
}

/// Whether an expected digest is the digest itself.
fn is_redundant_digest(snapshot: &ExactSnapshot<'_>) -> (redundant: bool)
    ensures
        redundant == (exact::snapshot_view(*snapshot).expected_digest matches Some(expected)
            && digest::is_digest_text(expected) && digest::digest_value(expected)
            == snapshot.digest@),
{
    match &snapshot.expected_digest {
        Some(expected) => match Sha1Digest::parse_str(borrow_str(expected)) {
            Ok(expected) => {
                proof {
                    digest::lemma_digest_unique(expected, snapshot.digest);
                }
                expected == snapshot.digest
            },
            Err(_) => false,
        },
        None => false,
    }
}

/// Whether a URL is the inferred one.
fn is_redundant_url(snapshot: &ExactSnapshot<'_>, inferred: &Option<String>) -> (redundant: bool)
    ensures
        redundant == (exact::snapshot_view(*snapshot).url is Some && exact::snapshot_view(
            *snapshot,
        ).url == match *inferred {
            Some(url) => Some(url@),
            None => None,
        }),
{
    match (&snapshot.url, inferred) {
        (Some(url), Some(inferred)) => same_str(borrow_str(url), inferred.as_str()),
        _ => false,
    }
}

impl Summary {
    /// A summary of no lines.
    fn empty() -> (summary: Summary)
        ensures
            forall|checked: Checked| #[trigger] checked.is_summary(summary, 0),
            summary.line_count == 0,
            summary.valid_digest_count == 0,
            summary.missing_timestamp_count == 0,
    {
        let summary = Summary {
            line_count: 0,
            valid_digest_count: 0,
            schema_errors: Vec::new(),
            digest_mismatches: Vec::new(),
            unsupported_formats: Vec::new(),
            missing_timestamp_count: 0,
            url_without_timestamp: Vec::new(),
            redundant_expected_digest: Vec::new(),
            redundant_url: Vec::new(),
            out_of_order: Vec::new(),
            duplicates: Vec::new(),
        };
        assert forall|checked: Checked| #[trigger] checked.is_summary(summary, 0) by {
            let none: Seq<int> = Seq::empty();
            assert(none.map_values(|i: int| checked.digest(i)) =~= Seq::empty());
            assert(none.map_values(|i: int| i + 1) =~= Seq::empty());
            assert(listing::digest_views(summary.duplicates@) =~= Seq::empty());
            assert(listing::digest_views(summary.out_of_order@) =~= Seq::empty());
            assert(listing::digest_views(summary.redundant_url@) =~= Seq::empty());
            assert(listing::digest_views(summary.redundant_expected_digest@) =~= Seq::empty());
            assert(listing::digest_views(summary.url_without_timestamp@) =~= Seq::empty());
            assert(listing::digest_views(summary.unsupported_formats@) =~= Seq::empty());
            assert(listing::digest_views(summary.digest_mismatches@) =~= Seq::empty());
            assert(summary.schema_errors@.map_values(|number: u64| number as int) =~= Seq::empty());
        }
        summary
    }

    /// Returns `true` if every line parses, every digest validates, the file is strictly
    /// digest-sorted, and no metadata is in an invalid or redundant state. (Missing timestamps are
    /// reported but do not make a file unsuccessful: a packed file is valid before enhancement.)
    pub fn is_successful(&self) -> (successful: bool)
        ensures
            successful == self.has_no_problem(),
    {
        self.schema_errors.is_empty() && self.digest_mismatches.is_empty()
            && self.unsupported_formats.is_empty() && self.url_without_timestamp.is_empty()
            && self.redundant_expected_digest.is_empty() && self.redundant_url.is_empty()
            && self.out_of_order.is_empty() && self.duplicates.is_empty()
    }
}

impl Checked {
    /// The last digest before a line is that of some snapshot before it, or there is none.
    proof fn lemma_last_digest(self, n: int)
        requires
            n >= 0,
        ensures
            match self.last_digest(n) {
                Some(last) => exists|k: int|
                    0 <= k < n && #[trigger] self.is_parsed(k) && self.digest(k) == last && (forall|
                        j: int,
                    |
                        k < j < n ==> !#[trigger] self.is_parsed(j)),
                None => forall|j: int| 0 <= j < n ==> !#[trigger] self.is_parsed(j),
            },
        decreases n,
    {
        if n > 0 {
            if self.is_parsed(n - 1) {
                assert(self.is_parsed(n - 1));
            } else {
                self.lemma_last_digest(n - 1);
                if let Some(last) = self.last_digest(n - 1) {
                    let k = choose|k: int|
                        0 <= k < n - 1 && #[trigger] self.is_parsed(k) && self.digest(k) == last
                            && (forall|j: int| k < j < n - 1 ==> !#[trigger] self.is_parsed(j));
                    assert(self.is_parsed(k));
                }
            }
        }
    }

    /// Without a line out of order or repeated, the digests before a line are below its own.
    proof fn lemma_ascending(self, i: int, j: int)
        requires
            forall|k: int|
                0 <= k <= j ==> !#[trigger] self.is_duplicate(k) && !self.is_out_of_order(k),
            0 <= i < j,
            self.is_parsed(i),
            self.is_parsed(j),
        ensures
            self.digest(i) < self.digest(j),
        decreases j,
    {
        self.lemma_last_digest(j);
        assert(!self.is_duplicate(j));
        let last = self.last_digest(j).unwrap();
        let k = choose|k: int|
            0 <= k < j && #[trigger] self.is_parsed(k) && self.digest(k) == last && (forall|m: int|
                k < m < j ==> !#[trigger] self.is_parsed(m));
        if i < k {
            self.lemma_ascending(i, k);
        }
    }

    /// No line of a sound file has a problem.
    proof fn lemma_sound_line(self, i: int)
        requires
            self.is_sound(),
            0 <= i < self.lines.len(),
        ensures
            !self.is_schema_error(i),
            !self.is_mismatch(i),
            !self.is_unsupported(i),
            !self.has_url_only(i),
            !self.has_redundant_digest(i),
            !self.has_redundant_url(i),
            !self.is_out_of_order(i),
            !self.is_duplicate(i),
    {
        if self.is_read(i) {
            assert(self.is_valid(i));
        }
        if self.is_parsed(i) {
            self.lemma_last_digest(i);
            if let Some(last) = self.last_digest(i) {
                let k = choose|k: int|
                    0 <= k < i && #[trigger] self.is_parsed(k) && self.digest(k) == last && (forall|
                        m: int,
                    |
                        k < m < i ==> !#[trigger] self.is_parsed(m));
                assert(self.digest(k) < self.digest(i));
            }
        }
    }

    /// A condition that holds nowhere has no digests.
    proof fn lemma_no_digests(self, holds: spec_fn(int) -> bool)
        ensures
            self.digests(self.lines.len(), holds).len() == 0 <==> forall|i: int|
                0 <= i < self.lines.len() ==> !#[trigger] holds(i),
    {
        listing::lemma_no_places(self.lines.len(), holds);
    }

    /// Where a summary of all lines has no problem, the file is sound.
    proof fn lemma_clean_is_sound(self, summary: Summary)
        requires
            self.is_summary(summary, self.lines.len()),
            summary.has_no_problem(),
        ensures
            self.is_sound(),
    {
        let n = self.lines.len();
        let f1 = |i: int| self.is_schema_error(i);
        let f2 = |i: int| self.is_mismatch(i);
        let f3 = |i: int| self.is_unsupported(i);
        let f4 = |i: int| self.has_url_only(i);
        let f5 = |i: int| self.has_redundant_digest(i);
        let f6 = |i: int| self.has_redundant_url(i);
        let f7 = |i: int| self.is_out_of_order(i);
        let f8 = |i: int| self.is_duplicate(i);
        summary.lemma_lens();
        listing::lemma_no_places(n, f1);
        self.lemma_no_digests(f2);
        self.lemma_no_digests(f3);
        self.lemma_no_digests(f4);
        self.lemma_no_digests(f5);
        self.lemma_no_digests(f6);
        self.lemma_no_digests(f7);
        self.lemma_no_digests(f8);
        assert forall|i: int| 0 <= i < n && #[trigger] self.is_read(i) implies {
            &&& self.is_valid(i)
            &&& !self.has_url_only(i)
            &&& !self.has_redundant_digest(i)
            &&& !self.has_redundant_url(i)
        } by {
            assert(!f1(i) && !f2(i) && !f3(i) && !f4(i) && !f5(i) && !f6(i));
        }
        assert forall|i: int, j: int|
            0 <= i < j < n && #[trigger] self.is_parsed(i) && #[trigger] self.is_parsed(
                j,
            ) implies self.digest(i) < self.digest(j) by {
            assert forall|k: int| 0 <= k <= j implies !#[trigger] self.is_duplicate(k)
                && !self.is_out_of_order(k) by {
                assert(!f7(k) && !f8(k));
            }
            self.lemma_ascending(i, j);
        }
    }

    /// A summary of all lines of a sound file has no problem.
    proof fn lemma_sound_is_clean(self, summary: Summary)
        requires
            self.is_summary(summary, self.lines.len()),
            self.is_sound(),
        ensures
            summary.has_no_problem(),
    {
        let n = self.lines.len();
        summary.lemma_lens();
        self.lemma_nowhere(|i: int| self.is_mismatch(i));
        self.lemma_nowhere(|i: int| self.is_unsupported(i));
        self.lemma_nowhere(|i: int| self.has_url_only(i));
        self.lemma_nowhere(|i: int| self.has_redundant_digest(i));
        self.lemma_nowhere(|i: int| self.has_redundant_url(i));
        self.lemma_nowhere(|i: int| self.is_out_of_order(i));
        self.lemma_nowhere(|i: int| self.is_duplicate(i));
        self.lemma_nowhere(|i: int| self.is_schema_error(i));
        self.lemma_no_digests(|i: int| self.is_schema_error(i));
    }

    /// In a sound file, each of the problems has no digests.
    proof fn lemma_nowhere(self, holds: spec_fn(int) -> bool)
        requires
            self.is_sound(),
            forall|i: int| #[trigger]
                holds(i) ==> self.is_schema_error(i) || self.is_mismatch(i) || self.is_unsupported(
                    i,
                ) || self.has_url_only(i) || self.has_redundant_digest(i) || self.has_redundant_url(
                    i,
                ) || self.is_out_of_order(i) || self.is_duplicate(i),
        ensures
            self.digests(self.lines.len(), holds).len() == 0,
            listing::places(self.lines.len(), holds).len() == 0,
    {
        listing::lemma_no_places(self.lines.len(), holds);
        assert forall|i: int| 0 <= i < self.lines.len() implies !#[trigger] holds(i) by {
            self.lemma_sound_line(i);
        }
    }
}

impl Summary {
    /// Whether every list of problems is empty.
    pub open spec fn has_no_problem(&self) -> bool {
        &&& self.schema_errors@.len() == 0
        &&& self.digest_mismatches@.len() == 0
        &&& self.unsupported_formats@.len() == 0
        &&& self.url_without_timestamp@.len() == 0
        &&& self.redundant_expected_digest@.len() == 0
        &&& self.redundant_url@.len() == 0
        &&& self.out_of_order@.len() == 0
        &&& self.duplicates@.len() == 0
    }

    proof fn lemma_lens(&self)
        ensures
            self.schema_errors@.map_values(|number: u64| number as int).len()
                == self.schema_errors@.len(),
            listing::digest_views(self.digest_mismatches@).len() == self.digest_mismatches@.len(),
            listing::digest_views(self.unsupported_formats@).len()
                == self.unsupported_formats@.len(),
            listing::digest_views(self.url_without_timestamp@).len()
                == self.url_without_timestamp@.len(),
            listing::digest_views(self.redundant_expected_digest@).len()
                == self.redundant_expected_digest@.len(),
            listing::digest_views(self.redundant_url@).len() == self.redundant_url@.len(),
            listing::digest_views(self.out_of_order@).len() == self.out_of_order@.len(),
            listing::digest_views(self.duplicates@).len() == self.duplicates@.len(),
    {
    }
}

/// A check finds no problem in a file exactly if every line that is not empty parses and reproduces
/// its digest, the digests are strictly ascending, and no metadata is invalid or redundant.
pub proof fn law_success_means_sound(checked: Checked, summary: Summary)
    requires
        checked.is_summary(summary, checked.lines.len()),
    ensures
        summary.has_no_problem() <==> checked.is_sound(),
{
    if summary.has_no_problem() {
        checked.lemma_clean_is_sound(summary);
    }
    if checked.is_sound() {
        checked.lemma_sound_is_clean(summary);
    }
}

/// Check compact snapshot JSONL lines against the given context.
///
/// Accumulates a [`Summary`] of schema errors, digest mismatches, missing or inconsistent metadata,
/// and ordering problems. Empty lines are passed over.
pub fn check_lines(lines: &Vec<SourceLine>, context: &Context) -> (summary: Summary)
    ensures
        (Checked { lines: source_views(lines@), default: context@ }).is_summary(
            summary,
            lines@.len(),
        ),
{
    let ghost checked = Checked { lines: source_views(lines@), default: context@ };
    let mut summary = Summary::empty();
    let mut last_digest: Option<Sha1Digest> = None;
    let mut i: usize = 0;
    while i < lines.len()
        invariant
            i <= lines@.len(),
            checked == (Checked { lines: source_views(lines@), default: context@ }),
            checked.is_summary(summary, i as nat),
            summary.line_count <= i,
            summary.valid_digest_count <= i,
            summary.missing_timestamp_count <= i,
            checked.last_digest(i as int) == match last_digest {
                Some(digest) => Some(digest@),
                None => None,
            },
        decreases lines@.len() - i,
    {
        let line = &lines[i];
        proof {
            assert(checked.lines[i as int] == line@);
        }
        last_digest = check_line(&mut summary, line, i, last_digest, context, Ghost(checked));
        i = i + 1;
    }
    assert(checked.lines.len() == lines@.len());
    summary
}

/// Adds what holds of one line to a summary of the lines before it, and returns the digest of the
/// last snapshot.
fn check_line(
    summary: &mut Summary,
    line: &SourceLine,
    i: usize,
    last_digest: Option<Sha1Digest>,
    context: &Context,
    Ghost(checked): Ghost<Checked>,
) -> (last: Option<Sha1Digest>)
    requires
        i < checked.lines.len(),
        i < usize::MAX,
        checked.lines[i as int] == line@,
        checked.default == context@,
        checked.is_summary(*old(summary), i as nat),
        old(summary).line_count <= i,
        old(summary).valid_digest_count <= i,
        old(summary).missing_timestamp_count <= i,
        checked.last_digest(i as int) == match last_digest {
            Some(digest) => Some(digest@),
            None => None,
        },
    ensures
        checked.is_summary(*final(summary), i as nat + 1),
        final(summary).line_count <= i + 1,
        final(summary).valid_digest_count <= i + 1,
        final(summary).missing_timestamp_count <= i + 1,
        checked.last_digest(i + 1) == match last {
            Some(digest) => Some(digest@),
            None => None,
        },
{
    let ghost n = i as int;
    proof {
        checked.lemma_step(i as nat);
    }
    if line.text.as_str().is_empty() {
        return last_digest;
    }
    let number: u64 = i as u64 + 1;
    summary.line_count = summary.line_count + 1;
    let ghost errors = summary.schema_errors@;
    proof {
        assert(errors.push(number).map_values(|number: u64| number as int) =~= errors.map_values(
            |number: u64| number as int,
        ).push(number as int));
    }
    let snapshot = match Snapshot::parse(line.text.as_str()) {
        Ok(snapshot) => snapshot,
        Err(_) => {
            summary.schema_errors.push(number);
            return last_digest;
        },
    };
    let ghost view = exact::snapshot_view(snapshot);
    proof {
        assert(checked.parsed(n) == Some(view));
        assert(checked.digest(n) == snapshot.digest@);
    }
    let encoded: Option<&Vec<u8>> = match &line.encoded {
        Some(bytes) => Some(bytes),
        None => None,
    };
    match context.verify_with(&snapshot, encoded) {
        Ok(_) => {
            summary.valid_digest_count = summary.valid_digest_count + 1;
        },
        Err(ValidationError::Mismatch(_)) => {
            push_digest(&mut summary.digest_mismatches, snapshot.digest);
        },
        Err(ValidationError::UnsupportedFormat(_)) => {
            push_digest(&mut summary.unsupported_formats, snapshot.digest);
        },
        Err(ValidationError::ClosingWhitespace) => {
            summary.schema_errors.push(number);
        },
    }
    if snapshot.timestamp.is_none() {
        summary.missing_timestamp_count = summary.missing_timestamp_count + 1;
        if snapshot.url.is_some() {
            push_digest(&mut summary.url_without_timestamp, snapshot.digest);
        }
    }
    if is_redundant_digest(&snapshot) {
        push_digest(&mut summary.redundant_expected_digest, snapshot.digest);
    }
    if is_redundant_url(&snapshot, &line.inferred_url) {
        push_digest(&mut summary.redundant_url, snapshot.digest);
    }
    if let Some(last) = last_digest {
        proof {
            digest::lemma_digest_unique(snapshot.digest, last);
        }
        if snapshot.digest == last {
            push_digest(&mut summary.duplicates, snapshot.digest);
        } else if snapshot.digest.is_before(&last) {
            push_digest(&mut summary.out_of_order, snapshot.digest);
        }
    }
    Some(snapshot.digest)
}

/// What is reported of a line, said of its text and its snapshot: whether it is read and parsed, and what is
/// wrong with its digest or its metadata.
pub proof fn law_lines_are_judged(checked: Checked, i: int)
    requires
        0 <= i < checked.lines.len(),
    ensures
        ({
            let line = checked.lines[i];
            let parsed = exact::parse_line(line.text);
            let is_read = line.text.len() > 0;
            let view = parsed.unwrap();
            let outcome = validation::outcome(view, checked.default, line.encoded);
            &&& checked.is_read(i) <==> is_read
            &&& checked.is_valid(i) <==> is_read && parsed is Some && outcome is Valid
            &&& checked.is_schema_error(i) <==> is_read && (parsed is None || outcome is BadWhitespace)
            &&& checked.is_mismatch(i) <==> is_read && parsed is Some && outcome is Mismatch
            &&& checked.is_unsupported(i) <==> is_read && parsed is Some && outcome is Unsupported
            &&& checked.lacks_timestamp(i) <==> is_read && parsed is Some && view.timestamp is None
            &&& checked.has_url_only(i) <==> is_read && parsed is Some && view.timestamp is None
                && view.url is Some
            &&& checked.has_redundant_digest(i) <==> is_read && parsed is Some && (
            view.expected_digest matches Some(expected) && digest::is_digest_text(expected)
                && digest::digest_value(expected) == view.digest)
            &&& checked.has_redundant_url(i) <==> is_read && parsed is Some && view.url is Some
                && line.inferred_url is Some && view.url.unwrap() == line.inferred_url.unwrap()
        }),
{
}

/// A line is compared with the last line before it that was parsed: it is a duplicate where both have the same
/// digest, and out of order where it has the smaller one.
pub proof fn law_lines_are_compared(checked: Checked, before: int, i: int)
    requires
        0 <= before < i < checked.lines.len(),
        checked.is_parsed(before),
        checked.is_parsed(i),
        forall|k: int| before < k < i ==> !#[trigger] checked.is_parsed(k),
    ensures
        checked.is_duplicate(i) <==> checked.digest(i) == checked.digest(before),
        checked.is_out_of_order(i) <==> checked.digest(i) < checked.digest(before),
{
    lemma_last_digest(checked, before, i);
}

/// The last digest before a line is that of the last line that was parsed.
proof fn lemma_last_digest(checked: Checked, before: int, n: int)
    requires
        0 <= before < n,
        checked.is_parsed(before),
        forall|k: int| before < k < n ==> !#[trigger] checked.is_parsed(k),
    ensures
        checked.last_digest(n) == Some(checked.digest(before)),
    decreases n,
{
    if before < n - 1 {
        assert(!checked.is_parsed(n - 1));
        lemma_last_digest(checked, before, n - 1);
    }
}

/// The first line that is parsed is neither a duplicate nor out of order.
pub proof fn law_first_line_is_in_order(checked: Checked, i: int)
    requires
        0 <= i < checked.lines.len(),
        forall|k: int| 0 <= k < i ==> !#[trigger] checked.is_parsed(k),
    ensures
        !checked.is_duplicate(i),
        !checked.is_out_of_order(i),
{
    lemma_no_last_digest(checked, i);
}

/// Where no line was parsed there is no last digest.
proof fn lemma_no_last_digest(checked: Checked, n: int)
    requires
        forall|k: int| 0 <= k < n ==> !#[trigger] checked.is_parsed(k),
    ensures
        checked.last_digest(n) is None,
    decreases n,
{
    if n > 0 {
        assert(!checked.is_parsed(n - 1));
        lemma_no_last_digest(checked, n - 1);
    }
}

/// A line is seen by its text, the URL that its content implies and the bytes that its codec reproduces.
pub proof fn law_source_lines_are_seen_whole(lines: Seq<SourceLine>, i: int)
    requires
        0 <= i < lines.len(),
    ensures
        ({
            let line = lines[i];
            let view = source_views(lines)[i];
            &&& source_views(lines).len() == lines.len()
            &&& view.text == line.text@
            &&& line.inferred_url matches Some(url) ==> view.inferred_url == Some(url@)
            &&& line.inferred_url is None ==> view.inferred_url is None
            &&& line.encoded matches Some(bytes) ==> view.encoded == Some(bytes@)
            &&& line.encoded is None ==> view.encoded is None
        }),
{
}

/// What a summary counts and lists is exactly the lines that it is said of: a place for each, in order.
pub proof fn law_summaries_list_every_line(checked: Checked, summary: Summary)
    requires
        checked.is_summary(summary, checked.lines.len()),
    ensures
        ({
            let n = checked.lines.len();
            let at = |holds: spec_fn(int) -> bool| listing::places(n, holds);
            let listed = |digests: Seq<Sha1Digest>, holds: spec_fn(int) -> bool|
                digests.len() == at(holds).len() && forall|k: int|
                    0 <= k < digests.len() ==> (#[trigger] digests[k])@ == checked.digest(at(holds)[k]);
            &&& summary.line_count == at(|i: int| checked.is_read(i)).len()
            &&& summary.valid_digest_count == at(|i: int| checked.is_valid(i)).len()
            &&& summary.missing_timestamp_count == at(|i: int| checked.lacks_timestamp(i)).len()
            &&& summary.schema_errors@.len() == at(|i: int| checked.is_schema_error(i)).len()
            &&& forall|k: int|
                0 <= k < summary.schema_errors@.len() ==> #[trigger] summary.schema_errors@[k] == at(
                    |i: int| checked.is_schema_error(i),
                )[k] + 1
            &&& listed(summary.digest_mismatches@, |i: int| checked.is_mismatch(i))
            &&& listed(summary.unsupported_formats@, |i: int| checked.is_unsupported(i))
            &&& listed(summary.url_without_timestamp@, |i: int| checked.has_url_only(i))
            &&& listed(summary.redundant_expected_digest@, |i: int| checked.has_redundant_digest(i))
            &&& listed(summary.redundant_url@, |i: int| checked.has_redundant_url(i))
            &&& listed(summary.out_of_order@, |i: int| checked.is_out_of_order(i))
            &&& listed(summary.duplicates@, |i: int| checked.is_duplicate(i))
        }),
{
    let n = checked.lines.len();
    lemma_listed(checked, summary.digest_mismatches@, |i: int| checked.is_mismatch(i));
    lemma_listed(checked, summary.unsupported_formats@, |i: int| checked.is_unsupported(i));
    lemma_listed(checked, summary.url_without_timestamp@, |i: int| checked.has_url_only(i));
    lemma_listed(checked, summary.redundant_expected_digest@, |i: int| checked.has_redundant_digest(i));
    lemma_listed(checked, summary.redundant_url@, |i: int| checked.has_redundant_url(i));
    lemma_listed(checked, summary.out_of_order@, |i: int| checked.is_out_of_order(i));
    lemma_listed(checked, summary.duplicates@, |i: int| checked.is_duplicate(i));
    let numbers = summary.schema_errors@.map_values(|number: u64| number as int);
    let places = listing::places(n, |i: int| checked.is_schema_error(i));
    assert(numbers == places.map_values(|i: int| i + 1));
    assert(numbers.len() == summary.schema_errors@.len());
    assert forall|k: int| 0 <= k < summary.schema_errors@.len() implies #[trigger] summary.schema_errors@[k]
        == places[k] + 1 by {
        assert(numbers[k] == summary.schema_errors@[k] as int);
    }
}

/// Digests that are those at places are so one by one.
proof fn lemma_listed(checked: Checked, digests: Seq<Sha1Digest>, holds: spec_fn(int) -> bool)
    requires
        listing::digest_views(digests) == checked.digests(checked.lines.len(), holds),
    ensures
        ({
            let places = listing::places(checked.lines.len(), holds);
            &&& digests.len() == places.len()
            &&& forall|k: int|
                0 <= k < digests.len() ==> (#[trigger] digests[k])@ == checked.digest(places[k])
        }),
{
    let places = listing::places(checked.lines.len(), holds);
    assert(listing::digest_views(digests).len() == digests.len());
    assert forall|k: int| 0 <= k < digests.len() implies (#[trigger] digests[k])@ == checked.digest(
        places[k],
    ) by {
        assert(listing::digest_views(digests)[k] == digests[k]@);
    }
}

} // verus!
