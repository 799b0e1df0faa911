//! Verifying the digest and ordering of snapshot lines.
use vstd::prelude::*;

use crate::check;
use crate::check::{SourceLine, SourceView};
use crate::context::Context;
use crate::digest;
use crate::digest::Sha1Digest;
use crate::exact;
use crate::exact::{ExactSnapshot, LineView};
use crate::lines;
use crate::listing;
use crate::snapshot::Snapshot;
use crate::stream;
use crate::validation;

verus! {

/// Tallies accumulated across input files.
#[derive(Clone, Copy, Debug, PartialEq, Eq, Structural)]
pub struct VerificationCounts {
    /// Snapshots whose content hashed to their recorded digest.
    pub verified: u64,
    /// Snapshots whose content did not hash to their recorded digest.
    pub invalid: u64,
    /// Snapshots whose digest was not strictly greater than the previous line's.
    pub out_of_order: u64,
}

impl Default for VerificationCounts {
    fn default() -> (counts: VerificationCounts)
        ensures
            counts == (VerificationCounts { verified: 0, invalid: 0, out_of_order: 0 }),
    {
        VerificationCounts { verified: 0, invalid: 0, out_of_order: 0 }
    }
}

impl VerificationCounts {
    /// Whether no problem was counted.
    pub fn is_successful(&self) -> (successful: bool)
        ensures
            successful == (self.invalid == 0 && self.out_of_order == 0),
    {
        self.invalid == 0 && self.out_of_order == 0
    }
}

/// A line does not hold a snapshot.
#[derive(Clone, Copy, Debug, PartialEq, Eq, Structural)]
pub struct LineError {
    /// The one-based number of the line.
    pub line: usize,
}

/// The snapshot on a line.
#[verifier::opaque]
pub open spec fn view_of(line: Seq<char>) -> Option<LineView> {
    exact::parse_line(line)
}

/// Whether a line holds a snapshot that reproduces its digest.
pub open spec fn is_verified(line: SourceView, default: Seq<char>) -> bool {
    view_of(line.text) matches Some(view) && validation::outcome(
        view,
        default,
        line.encoded,
    ) is Valid
}

/// Whether line `i` does not come after the one before it.
pub open spec fn is_out_of_order(all: Seq<SourceView>, i: int) -> bool {
    i > 0 && view_of(all[i].text).unwrap().digest <= view_of(all[i - 1].text).unwrap().digest
}

/// How many of the first `n` lines are verified.
pub open spec fn verified_count(all: Seq<SourceView>, n: nat, default: Seq<char>) -> nat {
    listing::places(n, |i: int| is_verified(all[i], default)).len()
}

/// How many of the first `n` lines are out of order.
pub open spec fn out_of_order_count(all: Seq<SourceView>, n: nat) -> nat {
    listing::places(n, |i: int| is_out_of_order(all, i)).len()
}

/// Whether counts were added to for the first `n` lines.
pub open spec fn is_counted(
    counts: VerificationCounts,
    before: VerificationCounts,
    all: Seq<SourceView>,
    n: nat,
    default: Seq<char>,
) -> bool {
    &&& counts.verified == before.verified + verified_count(all, n, default)
    &&& counts.invalid == before.invalid + (n - verified_count(all, n, default))
    &&& counts.out_of_order == before.out_of_order + out_of_order_count(all, n)
}

/// Reads a snapshot line.
fn read_line(line: &str) -> (snapshot: Option<ExactSnapshot<'_>>)
    ensures
        match snapshot {
            Some(snapshot) => view_of(line@) == Some(exact::snapshot_view(snapshot)),
            None => view_of(line@) is None,
        },
{
    proof {
        reveal(view_of);
    }
    match Snapshot::parse(line) {
        Ok(snapshot) => Some(snapshot),
        Err(_) => None,
    }
}

/// Verifies the digest and ordering of every snapshot, adding each problem to `counts` rather than
/// failing fast. A line that holds no snapshot stops the run. Of each line, the bytes that a codec
/// reproduces for it count if its format has a codec.
pub fn verify_lines(
    all: &Vec<SourceLine>,
    context: &Context,
    counts: &mut VerificationCounts,
) -> (result: Result<(), LineError>)
    requires
        old(counts).verified + all@.len() <= u64::MAX,
        old(counts).invalid + all@.len() <= u64::MAX,
        old(counts).out_of_order + all@.len() <= u64::MAX,
    ensures
        ({
            let sources = check::source_views(all@);
            match result {
                Ok(_) => {
                    &&& forall|i: int| 0 <= i < sources.len() ==> view_of((#[trigger] sources[i]).text) is Some
                    &&& is_counted(*final(counts), *old(counts), sources, sources.len(), context@)
                },
                Err(error) => {
                    &&& 0 < error.line <= sources.len()
                    &&& view_of(sources[error.line - 1].text) is None
                    &&& forall|i: int|
                        0 <= i < error.line - 1 ==> view_of((#[trigger] sources[i]).text) is Some
                    &&& is_counted(
                        *final(counts),
                        *old(counts),
                        sources,
                        (error.line - 1) as nat,
                        context@,
                    )
                },
            }
        }),
{
    let ghost sources = check::source_views(all@);
    let ghost verifies = |i: int| is_verified(sources[i], context@);
    let ghost disorders = |i: int| is_out_of_order(sources, i);
    let ghost before = *counts;
    let mut last_digest: Option<Sha1Digest> = None;
    let mut k: usize = 0;
    while k < all.len()
        invariant
            k <= all@.len(),
            before == *old(counts),
            before.verified + all@.len() <= u64::MAX,
            before.invalid + all@.len() <= u64::MAX,
            before.out_of_order + all@.len() <= u64::MAX,
            sources == check::source_views(all@),
            verifies == (|i: int| is_verified(sources[i], context@)),
            disorders == (|i: int| is_out_of_order(sources, i)),
            forall|i: int| 0 <= i < k ==> view_of((#[trigger] sources[i]).text) is Some,
            is_counted(*counts, before, sources, k as nat, context@),
            stream::digest_view(last_digest) == if k == 0 {
                None
            } else {
                Some(view_of(sources[k - 1].text).unwrap().digest)
            },
        decreases all@.len() - k,
    {
        proof {
            listing::lemma_places(k as nat, verifies);
            listing::lemma_places(k as nat, disorders);
            assert(sources[k as int] == all@[k as int]@);
            assert(verifies(k as int) == is_verified(sources[k as int], context@));
            assert(disorders(k as int) == is_out_of_order(sources, k as int));
        }
        let snapshot = match read_line(all[k].text.as_str()) {
            Some(snapshot) => snapshot,
            None => return Err(LineError { line: k + 1 }),
        };
        if let Some(last) = last_digest {
            if !last.is_before(&snapshot.digest) {
                counts.out_of_order = counts.out_of_order + 1;
            }
        }
        last_digest = Some(snapshot.digest);
        let encoded: Option<&Vec<u8>> = match &all[k].encoded {
            Some(bytes) => Some(bytes),
            None => None,
        };
        match context.verify_with(&snapshot, encoded) {
            Ok(_) => {
                counts.verified = counts.verified + 1;
            },
            Err(_) => {
                counts.invalid = counts.invalid + 1;
            },
        }
        k = k + 1;
    }
    Ok(())
}

/// Where lines were counted without a problem, every one of them reproduces its digest and comes after
/// the one before it.
pub proof fn law_no_problem_means_sound(
    counts: VerificationCounts,
    all: Seq<SourceView>,
    default: Seq<char>,
)
    requires
        is_counted(
            counts,
            VerificationCounts { verified: 0, invalid: 0, out_of_order: 0 },
            all,
            all.len(),
            default,
        ),
        counts.invalid == 0,
        counts.out_of_order == 0,
    ensures
        forall|i: int| 0 <= i < all.len() ==> is_verified(#[trigger] all[i], default),
        forall|i: int|
            0 < i < all.len() ==> view_of(all[i - 1].text).unwrap().digest < view_of(
                (#[trigger] all[i]).text,
            ).unwrap().digest,
{
    let verifies = |i: int| is_verified(all[i], default);
    let disorders = |i: int| is_out_of_order(all, i);
    listing::lemma_no_places(all.len(), disorders);
    lemma_all_places(all.len(), verifies);
    assert forall|i: int| 0 <= i < all.len() implies is_verified(#[trigger] all[i], default) by {
        assert(verifies(i));
    }
    assert forall|i: int| 0 < i < all.len() implies view_of(all[i - 1].text).unwrap().digest < view_of(
        (#[trigger] all[i]).text,
    ).unwrap().digest by {
        assert(!disorders(i));
    }
}

/// Where a condition has as many places as there are, it holds everywhere.
proof fn lemma_all_places(n: nat, holds: spec_fn(int) -> bool)
    ensures
        listing::places(n, holds).len() <= n,
        listing::places(n, holds).len() == n ==> forall|i: int| 0 <= i < n ==> #[trigger] holds(i),
    decreases n,
{
    if n > 0 {
        lemma_all_places((n - 1) as nat, holds);
    }
}

/// The places of the snapshots without a timestamp.
pub open spec fn incomplete_places(all: Seq<Seq<char>>, n: nat) -> Seq<int> {
    listing::places(n, |i: int| view_of(all[i]).unwrap().timestamp is None)
}

/// The digest of every snapshot that has no capture metadata, in order. A line that holds no snapshot
/// stops the run.
pub fn incomplete_digests(all: &Vec<String>) -> (result: Result<Vec<Sha1Digest>, LineError>)
    ensures
        ({
            let texts = lines::string_views(all@);
            match result {
                Ok(digests) => {
                    &&& forall|i: int| 0 <= i < texts.len() ==> view_of(#[trigger] texts[i]) is Some
                    &&& listing::digest_views(digests@) == incomplete_places(
                        texts,
                        texts.len(),
                    ).map_values(|i: int| view_of(texts[i]).unwrap().digest)
                },
                Err(error) => {
                    &&& 0 < error.line <= texts.len()
                    &&& view_of(texts[error.line - 1]) is None
                    &&& forall|i: int|
                        0 <= i < error.line - 1 ==> view_of(#[trigger] texts[i]) is Some
                },
            }
        }),
{
    let ghost texts = lines::string_views(all@);
    let ghost holds = |i: int| view_of(texts[i]).unwrap().timestamp is None;
    let ghost digest_at = |i: int| view_of(texts[i]).unwrap().digest;
    let mut digests: Vec<Sha1Digest> = Vec::new();
    let mut k: usize = 0;
    assert(listing::digest_views(digests@) =~= listing::places(0, holds).map_values(digest_at));
    while k < all.len()
        invariant
            k <= all@.len(),
            texts == lines::string_views(all@),
            holds == (|i: int| view_of(texts[i]).unwrap().timestamp is None),
            digest_at == (|i: int| view_of(texts[i]).unwrap().digest),
            forall|i: int| 0 <= i < k ==> view_of(#[trigger] texts[i]) is Some,
            listing::digest_views(digests@) == listing::places(k as nat, holds).map_values(
                digest_at,
            ),
        decreases all@.len() - k,
    {
        assert(texts[k as int] == all@[k as int]@);
        let snapshot = match read_line(all[k].as_str()) {
            Some(snapshot) => snapshot,
            None => return Err(LineError { line: k + 1 }),
        };
        if snapshot.timestamp.is_none() {
            let ghost before = digests@;
            digests.push(snapshot.digest);
            proof {
                listing::lemma_digest_views_push(before, snapshot.digest);
                assert(holds(k as int));
                assert(digest_at(k as int) == snapshot.digest@);
                assert(listing::places((k + 1) as nat, holds).map_values(digest_at)
                    =~= listing::places(k as nat, holds).map_values(digest_at).push(
                    snapshot.digest@,
                ));
            }
        } else {
            assert(!holds(k as int));
        }
        k = k + 1;
    }
    Ok(digests)
}

/// Each line counts once: as verified where its snapshot reproduces its digest and as invalid otherwise, and as
/// out of order where its digest is not greater than that of the line before it.
pub proof fn law_lines_are_counted(all: Seq<SourceView>, n: nat, default: Seq<char>)
    requires
        n < all.len(),
    ensures
        verified_count(all, 0, default) == 0,
        out_of_order_count(all, 0) == 0,
        ({
            let line = all[n as int];
            let parsed = exact::parse_line(line.text);
            &&& verified_count(all, n + 1, default) == verified_count(all, n, default) + if parsed is Some
                && validation::outcome(parsed.unwrap(), default, line.encoded) is Valid {
                1nat
            } else {
                0
            }
            &&& out_of_order_count(all, n + 1) == out_of_order_count(all, n) + if n > 0
                && exact::parse_line(all[n - 1].text).unwrap().digest >= parsed.unwrap().digest {
                1nat
            } else {
                0
            }
        }),
{
    reveal(view_of);
}

/// A snapshot is incomplete exactly if it has no timestamp.
pub proof fn law_incomplete_snapshots_lack_timestamps(all: Seq<Seq<char>>, i: int)
    requires
        0 <= i < all.len(),
        exact::parse_line(all[i]) is Some,
    ensures
        incomplete_places(all, all.len()).contains(i) <==> exact::parse_line(
            all[i],
        ).unwrap().timestamp is None,
{
    reveal(view_of);
    let holds = |i: int| view_of(all[i]).unwrap().timestamp is None;
    listing::lemma_places(all.len(), holds);
    let found = listing::places(all.len(), holds);
    if found.contains(i) {
        let k = choose|k: int| 0 <= k < found.len() && found[k] == i;
        assert(holds(found[k]));
    }
    if exact::parse_line(all[i]).unwrap().timestamp is None {
        assert(holds(i));
    }
}

/// Counting adds up: each line counts as verified or as invalid, and not as both.
pub proof fn law_counts_add_up(
    counts: VerificationCounts,
    before: VerificationCounts,
    all: Seq<SourceView>,
    n: nat,
    default: Seq<char>,
)
    requires
        is_counted(counts, before, all, n, default),
    ensures
        (counts.verified - before.verified) + (counts.invalid - before.invalid) == n,
        counts.verified >= before.verified,
        counts.out_of_order >= before.out_of_order,
{
}

/// A verification succeeds exactly if no line is invalid and none is out of order.
pub proof fn law_success_means_no_problem(counts: &VerificationCounts, successful: bool)
    requires
        call_ensures(VerificationCounts::is_successful, (counts,), successful),
    ensures
        successful <==> counts.invalid == 0 && counts.out_of_order == 0,
{
}

} // verus!
