//! Exporting the content of chosen snapshots.
use vstd::prelude::*;

use crate::digest;
use crate::digest::Sha1Digest;
use crate::digest_table::DigestTable;
use crate::listing;

verus! {

/// The digests that are still to be exported, in ascending order.
#[derive(Debug)]
pub struct ExportPlan {
    pending: Vec<Sha1Digest>,
    next: usize,
}

/// Whether digests ascend.
pub open spec fn are_ascending(digests: Seq<nat>) -> bool {
    forall|i: int, j: int|
        0 <= i < j < digests.len() ==> (#[trigger] digests[i]) < (#[trigger] digests[j])
}

/// Whether the digests that were to be exported are those that a snapshot passes, which are missing, its own,
/// if that is requested, and those that come after it.
pub open spec fn is_step(
    before: Seq<nat>,
    digest: nat,
    missing: Seq<nat>,
    is_requested: bool,
    after: Seq<nat>,
) -> bool {
    &&& before == missing + (if is_requested {
        seq![digest]
    } else {
        Seq::empty()
    }) + after
    &&& forall|i: int| 0 <= i < missing.len() ==> #[trigger] missing[i] < digest
    &&& forall|i: int| 0 <= i < after.len() ==> #[trigger] after[i] > digest
}

/// What a step does to each digest.
proof fn lemma_step(
    before: Seq<nat>,
    digest: nat,
    missing: Seq<nat>,
    is_requested: bool,
    after: Seq<nat>,
)
    requires
        is_step(before, digest, missing, is_requested, after),
    ensures
        is_requested == before.contains(digest),
        forall|d: nat| #[trigger] missing.contains(d) <==> before.contains(d) && d < digest,
        forall|d: nat| #[trigger] after.contains(d) <==> before.contains(d) && d > digest,
{
    let own = if is_requested {
        seq![digest]
    } else {
        Seq::empty()
    };
    assert forall|d: nat| #[trigger] missing.contains(d) implies before.contains(d) && d < digest by {
        let i = choose|i: int| 0 <= i < missing.len() && missing[i] == d;
        assert(before[i] == d);
    }
    assert forall|d: nat| #[trigger] after.contains(d) implies before.contains(d) && d > digest by {
        let i = choose|i: int| 0 <= i < after.len() && after[i] == d;
        assert(before[missing.len() + own.len() + i] == d);
    }
    if is_requested {
        assert(before[missing.len() as int] == digest);
    }
    assert forall|d: nat| #[trigger] before.contains(d) implies missing.contains(d) || (is_requested
        && d == digest) || after.contains(d) by {
        let i = choose|i: int| 0 <= i < before.len() && before[i] == d;
        if i < missing.len() {
            assert(missing[i] == d);
        } else if i >= missing.len() + own.len() {
            assert(after[i - missing.len() - own.len()] == d);
        }
    }
}

/// Whether an export came by these snapshots, in ascending digest order, with these steps.
pub open spec fn is_export(
    plans: Seq<Seq<nat>>,
    digests: Seq<nat>,
    missing: Seq<Seq<nat>>,
    exported: Seq<bool>,
) -> bool {
    &&& plans.len() == digests.len() + 1
    &&& missing.len() == digests.len()
    &&& exported.len() == digests.len()
    &&& are_ascending(digests)
    &&& forall|i: int|
        0 <= i < digests.len() ==> is_step(
            #[trigger] plans[i],
            digests[i],
            missing[i],
            exported[i],
            plans[i + 1],
        )
}

/// Whether a digest is reported missing, on the way or at the end.
pub open spec fn is_reported(plans: Seq<Seq<nat>>, missing: Seq<Seq<nat>>, digest: nat) -> bool {
    plans.last().contains(digest) || exists|i: int|
        0 <= i < missing.len() && (#[trigger] missing[i]).contains(digest)
}

/// What is still to be exported are the digests that come after the last snapshot.
proof fn lemma_export(
    plans: Seq<Seq<nat>>,
    digests: Seq<nat>,
    missing: Seq<Seq<nat>>,
    exported: Seq<bool>,
    n: int,
)
    requires
        is_export(plans, digests, missing, exported),
        0 <= n <= digests.len(),
    ensures
        forall|d: nat| #[trigger]
            plans[n].contains(d) <==> plans[0].contains(d) && (n > 0 ==> d > digests[n - 1]),
    decreases n,
{
    if n > 0 {
        lemma_export(plans, digests, missing, exported, n - 1);
        assert(is_step(
            plans[n - 1],
            digests[n - 1],
            missing[n - 1],
            exported[n - 1],
            plans[n - 1 + 1],
        ));
        lemma_step(plans[n - 1], digests[n - 1], missing[n - 1], exported[n - 1], plans[n]);
        if n > 1 {
            assert(digests[n - 2] < digests[n - 1]);
        }
    }
}

/// The first snapshot that a digest comes before, if there is one.
proof fn lemma_first_after(digests: Seq<nat>, d: nat) -> (k: int)
    requires
        are_ascending(digests),
        !digests.contains(d),
    ensures
        0 <= k <= digests.len(),
        k < digests.len() ==> d < digests[k],
        k > 0 ==> digests[k - 1] < d,
    decreases digests.len(),
{
    if digests.len() == 0 {
        0
    } else {
        let last = digests.len() - 1;
        assert(digests.contains(digests[last]));
        if digests[last] < d {
            digests.len() as int
        } else {
            let front = digests.drop_last();
            assert forall|i: int, j: int| 0 <= i < j < front.len() implies (#[trigger] front[i]) < (
            #[trigger] front[j]) by {
                assert(digests[i] < digests[j]);
            }
            assert(!front.contains(d)) by {
                if front.contains(d) {
                    let i = choose|i: int| 0 <= i < front.len() && front[i] == d;
                    assert(digests[i] == d);
                }
            }
            let k = lemma_first_after(front, d);
            if k < front.len() {
                assert(front[k] == digests[k]);
            }
            if k > 0 {
                assert(front[k - 1] == digests[k - 1]);
            }
            k
        }
    }
}

/// A digest before or behind which ascending digests have their neighbours is none of them.
proof fn lemma_between(digests: Seq<nat>, d: nat, k: int)
    requires
        are_ascending(digests),
        0 <= k <= digests.len(),
        k < digests.len() ==> d < digests[k],
        k > 0 ==> digests[k - 1] < d,
    ensures
        !digests.contains(d),
{
    if digests.contains(d) {
        let i = choose|i: int| 0 <= i < digests.len() && digests[i] == d;
        if i > k {
            assert(digests[k] < digests[i]);
        } else if i < k - 1 {
            assert(digests[i] < digests[k - 1]);
        }
    }
}

/// What the step at a snapshot says of the digests that are to be exported.
proof fn lemma_export_step(
    plans: Seq<Seq<nat>>,
    digests: Seq<nat>,
    missing: Seq<Seq<nat>>,
    exported: Seq<bool>,
    i: int,
)
    requires
        is_export(plans, digests, missing, exported),
        0 <= i < digests.len(),
    ensures
        exported[i] == plans[0].contains(digests[i]),
        forall|d: nat| #[trigger]
            missing[i].contains(d) <==> plans[0].contains(d) && d < digests[i] && (i > 0
                ==> digests[i - 1] < d),
{
    lemma_export(plans, digests, missing, exported, i);
    assert(is_step(plans[i], digests[i], missing[i], exported[i], plans[i + 1]));
    lemma_step(plans[i], digests[i], missing[i], exported[i], plans[i + 1]);
    if i > 0 {
        assert(digests[i - 1] < digests[i]);
    }
    assert forall|d: nat| #[trigger] missing[i].contains(d) <==> plans[0].contains(d) && d
        < digests[i] && (i > 0 ==> digests[i - 1] < d) by {
        assert(plans[i].contains(d) <==> plans[0].contains(d) && (i > 0 ==> d > digests[i - 1]));
    }
}

/// A digest is reported missing exactly if it is to be exported and no snapshot has it.
proof fn lemma_reported(
    plans: Seq<Seq<nat>>,
    digests: Seq<nat>,
    missing: Seq<Seq<nat>>,
    exported: Seq<bool>,
    d: nat,
)
    requires
        is_export(plans, digests, missing, exported),
    ensures
        is_reported(plans, missing, d) == (plans[0].contains(d) && !digests.contains(d)),
{
    let n = digests.len() as int;
    lemma_export(plans, digests, missing, exported, n);
    assert(plans.last() == plans[n]);
    if plans.last().contains(d) {
        lemma_between(digests, d, n);
    }
    if exists|i: int| 0 <= i < missing.len() && (#[trigger] missing[i]).contains(d) {
        let i = choose|i: int| 0 <= i < missing.len() && (#[trigger] missing[i]).contains(d);
        lemma_export_step(plans, digests, missing, exported, i);
        lemma_between(digests, d, i);
    }
    if plans[0].contains(d) && !digests.contains(d) {
        let k = lemma_first_after(digests, d);
        if k < n {
            lemma_export_step(plans, digests, missing, exported, k);
            assert(missing[k].contains(d));
        }
    }
}

/// An export accounts for every digest: of a file in ascending digest order, exactly the requested snapshots
/// are exported, and exactly the requested digests that no snapshot has are reported missing, on the way or
/// at the end.
pub proof fn law_export_accounts_for_every_digest(
    plans: Seq<Seq<nat>>,
    digests: Seq<nat>,
    missing: Seq<Seq<nat>>,
    exported: Seq<bool>,
)
    requires
        is_export(plans, digests, missing, exported),
    ensures
        forall|i: int|
            0 <= i < digests.len() ==> #[trigger] exported[i] == plans[0].contains(digests[i]),
        forall|d: nat| #[trigger]
            is_reported(plans, missing, d) == (plans[0].contains(d) && !digests.contains(d)),
{
    assert forall|i: int| 0 <= i < digests.len() implies #[trigger] exported[i] == plans[0].contains(
        digests[i],
    ) by {
        lemma_export_step(plans, digests, missing, exported, i);
    }
    assert forall|d: nat| #[trigger]
        is_reported(plans, missing, d) == (plans[0].contains(d) && !digests.contains(d)) by {
        lemma_reported(plans, digests, missing, exported, d);
    }
}

impl ExportPlan {
    /// The digests that are still to be exported.
    pub closed spec fn pending(&self) -> Seq<nat> {
        listing::digest_views(self.pending@).skip(self.next as int)
    }

    #[verifier::type_invariant]
    spec fn is_valid(self) -> bool {
        self.next <= self.pending@.len() && are_ascending(listing::digest_views(self.pending@))
    }

    /// A plan for the requested digests, each once.
    pub fn new(requested: &Vec<Sha1Digest>) -> (plan: ExportPlan)
        ensures
            are_ascending(plan.pending()),
            forall|digest: nat|
                #![trigger plan.pending().contains(digest)]
                plan.pending().contains(digest) <==> listing::digest_views(requested@).contains(
                    digest,
                ),
    {
        let mut table: DigestTable<()> = DigestTable::new();
        let ghost all = listing::digest_views(requested@);
        let mut i: usize = 0;
        while i < requested.len()
            invariant
                i <= requested@.len(),
                all == listing::digest_views(requested@),
                forall|digest: nat| #[trigger]
                    table@.contains_key(digest) <==> all.take(i as int).contains(digest),
            decreases requested@.len() - i,
        {
            let ghost before = table@;
            table.insert(requested[i], ());
            proof {
                assert(all[i as int] == requested@[i as int]@);
                assert(all.take(i + 1) =~= all.take(i as int).push(all[i as int]));
                assert forall|digest: nat| #[trigger]
                    table@.contains_key(digest) <==> all.take(i + 1).contains(digest) by {
                    assert(before.contains_key(digest) <==> all.take(i as int).contains(digest));
                    let longer = all.take(i as int).push(all[i as int]);
                    if all.take(i as int).contains(digest) {
                        let k = choose|k: int|
                            0 <= k < all.take(i as int).len() && all.take(i as int)[k] == digest;
                        assert(longer[k] == digest);
                    }
                    if digest == all[i as int] {
                        assert(longer[i as int] == digest);
                    }
                }
            }
            i = i + 1;
        }
        assert(all.take(all.len() as int) =~= all);
        let entries = table.entries();
        let ghost sorted = entries@;
        let mut pending: Vec<Sha1Digest> = Vec::new();
        let mut k: usize = 0;
        while k < entries.len()
            invariant
                k <= entries@.len(),
                entries@ == sorted,
                pending@.len() == k,
                forall|j: int| 0 <= j < k ==> #[trigger] pending@[j] == sorted[j].0,
            decreases entries@.len() - k,
        {
            pending.push(entries[k].0);
            k = k + 1;
        }
        let ghost views = listing::digest_views(pending@);
        proof {
            assert forall|i: int, j: int| 0 <= i < j < views.len() implies (#[trigger] views[i]) < (
            #[trigger] views[j]) by {
                assert(views[i] == sorted[i].0@ && views[j] == sorted[j].0@);
            }
            assert(views.skip(0) =~= views);
            assert forall|digest: nat| views.contains(digest) <==> all.contains(digest) by {
                if views.contains(digest) {
                    let i = choose|i: int| 0 <= i < views.len() && views[i] == digest;
                    assert(views[i] == sorted[i].0@);
                    assert(table@.contains_key(sorted[i].0@));
                }
                if all.contains(digest) {
                    assert(table@.contains_key(digest));
                    let i = choose|i: int| crate::digest_table::stands_at(sorted, digest, i);
                    assert(views[i] == digest);
                }
            }
        }
        ExportPlan { pending, next: 0 }
    }

    /// Whether nothing is left to be exported.
    pub fn is_done(&self) -> (done: bool)
        ensures
            done == (self.pending().len() == 0),
    {
        proof {
            use_type_invariant(self);
        }
        self.next >= self.pending.len()
    }

    /// Moves on to the next snapshot of a file in ascending order: the requested digests that it passes
    /// are not present, and the snapshot is exported if its own digest was requested.
    pub fn advance(&mut self, digest: &Sha1Digest) -> (step: (Vec<Sha1Digest>, bool))
        ensures
            is_step(
                old(self).pending(),
                digest@,
                listing::digest_views(step.0@),
                step.1,
                final(self).pending(),
            ),
    {
        proof {
            use_type_invariant(&*self);
        }
        let ghost views = listing::digest_views(self.pending@);
        let ghost start = self.next as int;
        let ghost before = self.pending();
        let mut missing: Vec<Sha1Digest> = Vec::new();
        let mut next: usize = self.next;
        assert(listing::digest_views(missing@) =~= views.subrange(start, start));
        while next < self.pending.len() && self.pending[next].is_before(digest)
            invariant
                0 <= start <= next <= self.pending@.len(),
                *self == *old(self),
                views == listing::digest_views(self.pending@),
                listing::digest_views(missing@) == views.subrange(start, next as int),
                forall|j: int| start <= j < next ==> #[trigger] views[j] < digest@,
            decreases self.pending@.len() - next,
        {
            let ghost earlier = missing@;
            missing.push(self.pending[next]);
            proof {
                listing::lemma_digest_views_push(earlier, self.pending@[next as int]);
                assert(views[next as int] == self.pending@[next as int]@);
                assert(views.subrange(start, next + 1) =~= views.subrange(
                    start,
                    next as int,
                ).push(views[next as int]));
            }
            next = next + 1;
        }
        let ghost stop = next as int;
        let mut is_requested = false;
        if next < self.pending.len() {
            proof {
                digest::lemma_digest_unique(self.pending@[next as int], *digest);
                assert(views[next as int] == self.pending@[next as int]@);
            }
            if self.pending[next] == *digest {
                is_requested = true;
                next = next + 1;
            }
        }
        self.next = next;
        proof {
            let passed = views.subrange(start, stop);
            let own: Seq<nat> = if is_requested {
                seq![digest@]
            } else {
                Seq::empty()
            };
            assert(views.skip(start) =~= passed + own + views.skip(next as int));
            assert forall|i: int| 0 <= i < self.pending().len() implies #[trigger] self.pending()[i]
                > digest@ by {
                assert(self.pending()[i] == views[next + i]);
                if next + i > stop && stop < views.len() {
                    assert(views[stop] < views[next + i]);
                }
            }
        }
        (missing, is_requested)
    }

    /// The digests that are left, which are not present once the file was read to its end.
    pub fn rest(&self) -> (rest: Vec<Sha1Digest>)
        ensures
            listing::digest_views(rest@) == self.pending(),
    {
        proof {
            use_type_invariant(self);
        }
        let rest = vstd::slice::slice_to_vec(
            vstd::slice::slice_subrange(self.pending.as_slice(), self.next, self.pending.len()),
        );
        assert(listing::digest_views(rest@) =~= self.pending());
        rest
    }
}

/// An exported file does not hash to the digest it was exported for.
#[derive(Clone, Copy, Debug, PartialEq, Eq, Structural)]
pub struct DigestMismatch {
    /// The digest of the snapshot.
    pub expected: Sha1Digest,
    /// The digest of the file.
    pub actual: Sha1Digest,
}

/// Confirms that the bytes of an exported file hash to the digest of the snapshot.
pub fn check_exported(digest: Sha1Digest, on_disk: &[u8]) -> (result: Result<(), DigestMismatch>)
    ensures
        match result {
            Ok(_) => digest::digest_of(on_disk@) == digest@,
            Err(mismatch) => {
                &&& mismatch.expected == digest
                &&& mismatch.actual@ == digest::digest_of(on_disk@)
                &&& mismatch.actual@ != digest@
            },
        },
{
    let actual = Sha1Digest::compute(on_disk);
    proof {
        digest::lemma_digest_unique(actual, digest);
    }
    if actual == digest {
        Ok(())
    } else {
        Err(DigestMismatch { expected: digest, actual })
    }
}

/// What was exported is checked against its digest, and both digests are reported where they differ.
pub proof fn law_exported_content_is_checked(
    digest: Sha1Digest,
    on_disk: &[u8],
    result: Result<(), DigestMismatch>,
)
    requires
        call_ensures(check_exported, (digest, on_disk), result),
    ensures
        result is Ok <==> digest::digest_of(on_disk@) == digest@,
        result matches Err(mismatch) ==> mismatch.expected == digest && mismatch.actual@
            == digest::digest_of(on_disk@),
{
}

/// A plan has the digests that were asked for, each once and in ascending order.
pub proof fn law_plans_are_sorted(requested: &Vec<Sha1Digest>, plan: ExportPlan, digest: nat)
    requires
        call_ensures(ExportPlan::new, (requested,), plan),
    ensures
        plan.pending().contains(digest) <==> exists|i: int|
            0 <= i < requested@.len() && (#[trigger] requested@[i])@ == digest,
        forall|i: int, j: int|
            0 <= i < j < plan.pending().len() ==> (#[trigger] plan.pending()[i]) < (
            #[trigger] plan.pending()[j]),
{
    let views = listing::digest_views(requested@);
    assert(plan.pending().contains(digest) == views.contains(digest));
    if views.contains(digest) {
        let i = choose|i: int| 0 <= i < views.len() && views[i] == digest;
        assert(requested@[i]@ == digest);
    }
    assert forall|i: int| 0 <= i < requested@.len() && (#[trigger] requested@[i])@ == digest implies views.contains(
        digest,
    ) by {
        assert(views[i] == digest);
    }
}

/// A step to a digest of the source reports every digest that was asked for and that it passed over, and exports
/// the digest exactly if it was asked for.
pub proof fn law_steps_pass_over_missing_digests(
    plan: &mut ExportPlan,
    digest: &Sha1Digest,
    step: (Vec<Sha1Digest>, bool),
    other: nat,
)
    requires
        call_ensures(ExportPlan::advance, (plan, digest), step),
    ensures
        step.1 <==> old(plan).pending().contains(digest@),
        listing::digest_views(step.0@).contains(other) <==> old(plan).pending().contains(other) && other
            < digest@,
        final(plan).pending().contains(other) <==> old(plan).pending().contains(other) && other > digest@,
{
    let before = old(plan).pending();
    let missing = listing::digest_views(step.0@);
    let after = final(plan).pending();
    let middle = if step.1 {
        seq![digest@]
    } else {
        Seq::<nat>::empty()
    };
    assert(before == missing + middle + after);
    assert forall|d: nat| #[trigger] before.contains(d) <==> missing.contains(d) || middle.contains(d)
        || after.contains(d) by {
        if missing.contains(d) {
            let i = choose|i: int| 0 <= i < missing.len() && missing[i] == d;
            assert(before[i] == d);
        }
        if middle.contains(d) {
            let i = choose|i: int| 0 <= i < middle.len() && middle[i] == d;
            assert(before[missing.len() + i] == d);
        }
        if after.contains(d) {
            let i = choose|i: int| 0 <= i < after.len() && after[i] == d;
            assert(before[missing.len() + middle.len() + i] == d);
        }
        if before.contains(d) {
            let i = choose|i: int| 0 <= i < before.len() && before[i] == d;
            if i < missing.len() {
                assert(missing[i] == d);
            } else if i < missing.len() + middle.len() {
                assert(middle[i - missing.len()] == d);
            } else {
                assert(after[i - missing.len() - middle.len()] == d);
            }
        }
    }
    if step.1 {
        assert(middle[0] == digest@);
        assert(middle.contains(digest@));
    }
    if missing.contains(other) {
        let i = choose|i: int| 0 <= i < missing.len() && missing[i] == other;
        assert(missing[i] < digest@);
    }
    if after.contains(other) {
        let i = choose|i: int| 0 <= i < after.len() && after[i] == other;
        assert(after[i] > digest@);
    }
    if missing.contains(digest@) {
        let i = choose|i: int| 0 <= i < missing.len() && missing[i] == digest@;
        assert(missing[i] < digest@);
    }
    if after.contains(digest@) {
        let i = choose|i: int| 0 <= i < after.len() && after[i] == digest@;
        assert(after[i] > digest@);
    }
}

} // verus!
