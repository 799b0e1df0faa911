//! Checking that the digest of each stored item matches its content.
use vstd::prelude::*;

use crate::digest;
use crate::digest::Sha1Digest;
use crate::listing;

verus! {

/// An item of a store.
#[derive(Debug, PartialEq, Eq)]
pub struct Entry {
    /// The digest that the store has recorded for this item, which is not necessarily the digest of the
    /// current content.
    pub digest: Sha1Digest,
    /// The item's location in the store.
    pub path: String,
    /// The decoded bytes of the item.
    pub content: Vec<u8>,
}

impl Entry {
    /// Whether the content hashes to the recorded digest.
    pub open spec fn is_sound(&self) -> bool {
        digest::digest_of(self.content@) == self.digest@
    }
}

/// A single entry whose content does not hash to the digest it is stored under.
#[derive(Debug, PartialEq, Eq)]
pub struct Error {
    /// The digest the entry is indexed under.
    pub expected: Sha1Digest,
    /// The digest computed from the entry's current content.
    pub actual: Sha1Digest,
    /// The location of the mismatched entry in the backing store.
    pub path: String,
}

impl Error {
    /// Whether this reports an entry.
    pub open spec fn reports(&self, entry: Entry) -> bool {
        &&& self.expected@ == entry.digest@
        &&& self.actual@ == digest::digest_of(entry.content@)
        &&& self.path@ == entry.path@
    }

    /// Describes the mismatch.
    pub fn message(&self) -> (message: String)
        ensures
            message@ == "digest mismatch at "@ + self.path@ + ": expected "@ + digest::digest_text(
                self.expected@,
            ) + ", actual "@ + digest::digest_text(self.actual@),
    {
        let mut message: String = "digest mismatch at ".to_owned();
        crate::text::append(&mut message, self.path.as_str());
        crate::text::append(&mut message, ": expected ");
        crate::text::append(&mut message, self.expected.to_string().as_str());
        crate::text::append(&mut message, ", actual ");
        crate::text::append(&mut message, self.actual.to_string().as_str());
        message
    }
}

/// The outcome of verifying a store.
#[derive(Debug, PartialEq, Eq)]
pub struct Summary {
    /// Number of entries whose content hashed to their recorded digest.
    pub verified_count: usize,
    /// One entry per mismatch, in iteration order.
    pub errors: Vec<Error>,
}

/// The places of the entries that are not sound.
pub open spec fn unsound(entries: Seq<Entry>) -> Seq<int> {
    listing::places(entries.len(), |i: int| !entries[i].is_sound())
}

/// Whether a summary reports what a verification of entries finds: one error for each entry that is not
/// sound, in order.
pub open spec fn is_summary(summary: Summary, entries: Seq<Entry>) -> bool {
    &&& summary.verified_count + summary.errors@.len() == entries.len()
    &&& summary.errors@.len() == unsound(entries).len()
    &&& forall|i: int|
        0 <= i < summary.errors@.len() ==> #[trigger] summary.errors@[i].reports(
            entries[unsound(entries)[i]],
        )
}

/// Verifies that the digest associated with each entry matches the content.
pub fn verify(entries: &Vec<Entry>) -> (summary: Summary)
    ensures
        is_summary(summary, entries@),
{
    let mut verified_count: usize = 0;
    let mut errors: Vec<Error> = Vec::new();
    let ghost holds = |i: int| !entries@[i].is_sound();
    let mut k: usize = 0;
    while k < entries.len()
        invariant
            k <= entries@.len(),
            holds == (|i: int| !entries@[i].is_sound()),
            verified_count + errors@.len() == k,
            errors@.len() == listing::places(k as nat, holds).len(),
            forall|i: int|
                0 <= i < errors@.len() ==> #[trigger] errors@[i].reports(
                    entries@[listing::places(k as nat, holds)[i]],
                ),
        decreases entries@.len() - k,
    {
        let entry = &entries[k];
        let actual = Sha1Digest::compute(entry.content.as_slice());
        proof {
            digest::lemma_digest_unique(entry.digest, actual);
            assert(holds(k as int) == !entries@[k as int].is_sound());
        }
        if entry.digest == actual {
            verified_count = verified_count + 1;
        } else {
            let ghost before = errors@;
            errors.push(Error { expected: entry.digest, actual, path: entry.path.clone() });
            proof {
                let now = listing::places((k + 1) as nat, holds);
                assert forall|i: int| 0 <= i < errors@.len() implies (
                #[trigger] errors@[i]).reports(entries@[now[i]]) by {
                    if i < before.len() {
                        assert(before[i].reports(
                            entries@[listing::places(k as nat, holds)[i]],
                        ));
                    }
                }
            }
        }
        k = k + 1;
    }
    Summary { verified_count, errors }
}

/// A store verifies without errors exactly where every entry is sound.
pub proof fn law_no_errors_means_sound(entries: Seq<Entry>)
    ensures
        unsound(entries).len() == 0 <==> forall|i: int|
            0 <= i < entries.len() ==> (#[trigger] entries[i]).is_sound(),
{
    let holds = |i: int| !entries[i].is_sound();
    listing::lemma_no_places(entries.len(), holds);
    if unsound(entries).len() == 0 {
        assert forall|i: int| 0 <= i < entries.len() implies (#[trigger] entries[i]).is_sound() by {
            assert(!holds(i));
        }
    } else {
        if forall|i: int| 0 <= i < entries.len() ==> (#[trigger] entries[i]).is_sound() {
            assert forall|i: int| 0 <= i < entries.len() implies !(#[trigger] holds(i)) by {
                assert(entries[i].is_sound());
            }
        }
    }
}

/// Whether an error tells of an entry whose content has another digest than its own: of both digests and of
/// where it lies.
pub open spec fn tells_of(error: Error, entry: Entry) -> bool {
    &&& digest::digest_of(entry.content@) != entry.digest@
    &&& error.expected@ == entry.digest@
    &&& error.actual@ == digest::digest_of(entry.content@)
    &&& error.path@ == entry.path@
}

/// Whether an error tells of one of the entries.
pub open spec fn tells_of_one(error: Error, entries: Seq<Entry>) -> bool {
    exists|i: int| 0 <= i < entries.len() && tells_of(error, #[trigger] entries[i])
}

/// Whether one of the errors tells of an entry.
pub open spec fn is_told_of(entry: Entry, errors: Seq<Error>) -> bool {
    exists|k: int| 0 <= k < errors.len() && tells_of(#[trigger] errors[k], entry)
}

/// The errors of a summary tell exactly of the entries whose content has another digest than their own, and all
/// others count as verified.
pub proof fn law_every_unsound_entry_is_reported(summary: Summary, entries: Seq<Entry>)
    requires
        is_summary(summary, entries),
    ensures
        forall|k: int|
            0 <= k < summary.errors@.len() ==> tells_of_one(#[trigger] summary.errors@[k], entries),
        forall|i: int|
            0 <= i < entries.len() && digest::digest_of((#[trigger] entries[i]).content@)
                != entries[i].digest@ ==> is_told_of(entries[i], summary.errors@),
        summary.verified_count == entries.len() - summary.errors@.len(),
{
    let holds = |i: int| !entries[i].is_sound();
    let found = unsound(entries);
    listing::lemma_places(entries.len(), holds);
    assert(found == listing::places(entries.len(), holds));
    assert forall|k: int| 0 <= k < summary.errors@.len() implies tells_of_one(
        #[trigger] summary.errors@[k],
        entries,
    ) by {
        let i = found[k];
        assert(holds(i));
        assert(summary.errors@[k].reports(entries[i]));
        assert(tells_of(summary.errors@[k], entries[i]));
    }
    assert forall|i: int|
        0 <= i < entries.len() && digest::digest_of((#[trigger] entries[i]).content@)
            != entries[i].digest@ implies is_told_of(entries[i], summary.errors@) by {
        assert(holds(i));
        assert(found.contains(i));
        let k = choose|k: int| 0 <= k < found.len() && found[k] == i;
        assert(summary.errors@[k].reports(entries[i]));
        assert(tells_of(summary.errors@[k], entries[i]));
    }
}

} // verus!
