//! Digest-keyed capture metadata.
//!
//! Maps a SHA-1 digest to the captures (timestamp and original URL pairs) known for that content,
//! sorted by timestamp and then URL, with exact duplicates removed. A batch is recorded as a whole or
//! not at all.
use vstd::prelude::*;

use crate::captures;
use crate::captures::{decode_captures, merge_entries, Error};
use crate::digest::Sha1Digest;
use crate::digest_table;
use crate::digest_table::DigestTable;
use crate::item::UrlParts;
use crate::timestamp;
use crate::timestamp::Timestamp;

verus! {

/// One capture to record.
#[derive(Debug, PartialEq, Eq)]
pub struct Capture {
    /// The digest of the content.
    pub digest: Sha1Digest,
    /// When the capture was made.
    pub timestamp: Timestamp,
    /// The URL that was captured.
    pub original: String,
}

/// The bytes of the URL of a capture.
pub open spec fn url_bytes(capture: Capture) -> Seq<u8> {
    vstd::utf8::encode_utf8(capture.original@)
}

/// The entries of a batch for one digest, in order.
pub open spec fn additions_of(batch: Seq<Capture>, digest: nat) -> Seq<(int, Seq<u8>)>
    decreases batch.len(),
{
    if batch.len() == 0 {
        Seq::empty()
    } else {
        let before = additions_of(batch.drop_last(), digest);
        let last = batch.last();
        if last.digest@ == digest {
            before.push((last.timestamp@, url_bytes(last)))
        } else {
            before
        }
    }
}

/// Whether a batch has a capture of a digest.
pub open spec fn has_digest(batch: Seq<Capture>, digest: nat) -> bool {
    exists|i: int| 0 <= i < batch.len() && (#[trigger] batch[i]).digest@ == digest
}

/// The value stored for a digest, which is empty if there is none.
pub open spec fn stored_for(values: Map<nat, Seq<u8>>, digest: nat) -> Seq<u8> {
    if values.contains_key(digest) {
        values[digest]
    } else {
        Seq::empty()
    }
}

/// Whether every URL of a batch is short enough to be stored.
pub open spec fn has_short_urls(batch: Seq<Capture>) -> bool {
    forall|i: int| 0 <= i < batch.len() ==> url_bytes(#[trigger] batch[i]).len() <= u16::MAX
}

/// Whether values are those that they were, with the captures of a batch merged into them.
pub open spec fn is_recorded(
    values: Map<nat, Seq<u8>>,
    before: Map<nat, Seq<u8>>,
    batch: Seq<Capture>,
) -> bool {
    &&& forall|digest: nat| #[trigger]
        values.contains_key(digest) <==> before.contains_key(digest) || has_digest(batch, digest)
    &&& forall|digest: nat| #[trigger]
        values.contains_key(digest) && !has_digest(batch, digest) ==> values[digest]
            == before[digest]
    &&& forall|digest: nat|
        has_digest(batch, digest) ==> #[trigger] is_updated(
            values[digest],
            stored_for(before, digest),
            additions_of(batch, digest),
        )
}

/// Whether a value is a stored one with entries merged into it.
pub open spec fn is_updated(
    value: Seq<u8>,
    stored: Seq<u8>,
    additions: Seq<(int, Seq<u8>)>,
) -> bool {
    &&& raw_is_some(stored)
    &&& captures::raw_entries(value) matches Some(merged) && captures::is_merged(
        merged,
        captures::raw_entries(stored).unwrap(),
        additions,
    )
}

/// Whether a stored value is a sequence of whole entries.
pub open spec fn raw_is_some(stored: Seq<u8>) -> bool {
    captures::raw_entries(stored) is Some
}

/// Digest-keyed capture metadata.
#[derive(Debug)]
pub struct MetadataDb {
    values: DigestTable<Vec<u8>>,
}

/// Stored values as bytes.
pub open spec fn value_views(values: Map<nat, Vec<u8>>) -> Map<nat, Seq<u8>> {
    values.map_values(|value: Vec<u8>| value@)
}

impl View for MetadataDb {
    type V = Map<nat, Seq<u8>>;

    closed spec fn view(&self) -> Map<nat, Seq<u8>> {
        value_views(self.values@)
    }
}

/// Groups the captures of a batch by digest. A URL that is too long is refused.
fn group_captures(batch: &Vec<Capture>) -> (result: Result<DigestTable<Vec<(i64, Vec<u8>)>>, Error>)
    ensures
        match result {
            Ok(groups) => {
                &&& has_short_urls(batch@)
                &&& forall|digest: nat| #[trigger]
                    groups@.contains_key(digest) <==> has_digest(batch@, digest)
                &&& forall|digest: nat| #[trigger]
                    groups@.contains_key(digest) ==> captures::entry_views(groups@[digest]@)
                        == additions_of(batch@, digest)
            },
            Err(error) => exists|i: int|
                {
                    &&& 0 <= i < batch@.len()
                    &&& url_bytes(#[trigger] batch@[i]).len() > u16::MAX
                    &&& error matches Error::EncodeUrlTooLong(len) && len == url_bytes(
                        batch@[i],
                    ).len()
                    &&& has_short_urls(batch@.take(i))
                },
        },
{
    let mut groups: DigestTable<Vec<(i64, Vec<u8>)>> = DigestTable::new();
    let mut n: usize = 0;
    assert(batch@.take(0) =~= Seq::empty());
    while n < batch.len()
        invariant
            n <= batch@.len(),
            has_short_urls(batch@.take(n as int)),
            forall|digest: nat| #[trigger]
                groups@.contains_key(digest) <==> has_digest(batch@.take(n as int), digest),
            forall|digest: nat| #[trigger]
                groups@.contains_key(digest) ==> captures::entry_views(groups@[digest]@)
                    == additions_of(batch@.take(n as int), digest),
        decreases batch@.len() - n,
    {
        let capture = &batch[n];
        let url = capture.original.as_str().as_bytes();
        if url.len() > u16::MAX as usize {
            return Err(Error::EncodeUrlTooLong(url.len()));
        }
        let ghost front = batch@.take(n as int);
        let ghost next = batch@.take(n + 1);
        let ghost before = groups@;
        let entry = (capture.timestamp.to_secs(), vstd::slice::slice_to_vec(url));
        let ghost entry_view = (entry.0 as int, entry.1@);
        let ghost key = capture.digest@;
        let empty: Vec<(i64, Vec<u8>)> = Vec::new();
        let mut group: Vec<(i64, Vec<u8>)> = match groups.insert(capture.digest, empty) {
            Some(group) => group,
            None => Vec::new(),
        };
        let ghost group_before = group@;
        proof {
            assert(next.drop_last() =~= front);
            assert(next.last() == batch@[n as int]);
            if !before.contains_key(key) {
                lemma_no_additions(front, key);
            }
            assert(captures::entry_views(group_before) =~= additions_of(front, key));
        }
        group.push(entry);
        let ghost group_after = group@;
        groups.insert(capture.digest, group);
        proof {
            assert(captures::entry_views(group_after) =~= captures::entry_views(group_before).push(
                entry_view,
            ));
            assert forall|digest: nat| has_digest(next, digest) <==> (has_digest(front, digest)
                || digest == key) by {
                if has_digest(next, digest) {
                    let i = choose|i: int|
                        0 <= i < next.len() && (#[trigger] next[i]).digest@ == digest;
                    if i < n {
                        assert(front[i] == next[i]);
                    }
                }
                if has_digest(front, digest) {
                    let i = choose|i: int|
                        0 <= i < front.len() && (#[trigger] front[i]).digest@ == digest;
                    assert(next[i] == front[i]);
                }
                if digest == key {
                    assert(next[n as int].digest@ == key);
                }
            }
            assert forall|i: int| 0 <= i < next.len() implies url_bytes(#[trigger] next[i]).len()
                <= u16::MAX by {
                if i < n {
                    assert(front[i] == next[i]);
                }
            }
        }
        n = n + 1;
    }
    assert(batch@.take(n as int) =~= batch@);
    Ok(groups)
}

/// A batch without a digest has no entries for it.
proof fn lemma_no_additions(batch: Seq<Capture>, digest: nat)
    requires
        !has_digest(batch, digest),
    ensures
        additions_of(batch, digest) =~= Seq::empty(),
    decreases batch.len(),
{
    if batch.len() > 0 {
        assert(batch[batch.len() - 1].digest@ != digest);
        assert forall|i: int| 0 <= i < batch.drop_last().len() implies (
        #[trigger] batch.drop_last()[i]).digest@ != digest by {
            assert(batch[i].digest@ != digest);
        }
        lemma_no_additions(batch.drop_last(), digest);
    }
}

/// The entries of a batch have short URLs if the batch has.
proof fn lemma_short_additions(batch: Seq<Capture>, digest: nat)
    requires
        has_short_urls(batch),
    ensures
        forall|i: int|
            0 <= i < additions_of(batch, digest).len() ==> (#[trigger] additions_of(
                batch,
                digest,
            )[i]).1.len() <= u16::MAX,
    decreases batch.len(),
{
    if batch.len() > 0 {
        let front = batch.drop_last();
        assert forall|i: int| 0 <= i < front.len() implies url_bytes(#[trigger] front[i]).len()
            <= u16::MAX by {
            assert(url_bytes(batch[i]).len() <= u16::MAX);
        }
        lemma_short_additions(front, digest);
        assert(url_bytes(batch[batch.len() - 1]).len() <= u16::MAX);
        let before = additions_of(front, digest);
        assert forall|i: int| 0 <= i < additions_of(batch, digest).len() implies (
        #[trigger] additions_of(batch, digest)[i]).1.len() <= u16::MAX by {
            if i < before.len() {
                assert(additions_of(batch, digest)[i] == before[i]);
            }
        }
    }
}

/// The entries of stored values have short URLs.
proof fn lemma_short_entries(bytes: Seq<u8>)
    requires
        captures::raw_entries(bytes) is Some,
    ensures
        forall|i: int|
            0 <= i < captures::raw_entries(bytes).unwrap().len() ==> (
            #[trigger] captures::raw_entries(bytes).unwrap()[i]).1.len() <= u16::MAX,
    decreases bytes.len(),
{
    if bytes.len() > 0 {
        let (secs, url) = captures::first_entry(bytes).unwrap();
        let rest = bytes.skip(10 + url.len() as int);
        lemma_short_entries(rest);
        let all = captures::raw_entries(bytes).unwrap();
        assert(all =~= seq![(secs, url)] + captures::raw_entries(rest).unwrap());
        assert forall|i: int| 0 <= i < all.len() implies (#[trigger] all[i]).1.len() <= u16::MAX by {
            if i > 0 {
                assert(all[i] == captures::raw_entries(rest).unwrap()[i - 1]);
            }
        }
    }
}

/// What entries with short URLs merge to has short URLs.
proof fn lemma_none_too_long(
    merged: Seq<(int, Seq<u8>)>,
    existing: Seq<(int, Seq<u8>)>,
    additions: Seq<(int, Seq<u8>)>,
)
    requires
        captures::is_merged(merged, existing, additions),
        forall|i: int| 0 <= i < existing.len() ==> (#[trigger] existing[i]).1.len() <= u16::MAX,
        forall|i: int| 0 <= i < additions.len() ==> (#[trigger] additions[i]).1.len() <= u16::MAX,
    ensures
        captures::first_too_long(merged) is None,
{
    assert forall|i: int| 0 <= i < merged.len() implies (#[trigger] merged[i]).1.len()
        <= u16::MAX by {
        assert(merged.to_set().contains(merged[i]));
        if existing.contains(merged[i]) {
            let k = choose|k: int| 0 <= k < existing.len() && existing[k] == merged[i];
            assert(existing[k].1.len() <= u16::MAX);
        } else {
            assert(additions.to_set().contains(merged[i]));
            let k = choose|k: int| 0 <= k < additions.len() && additions[k] == merged[i];
            assert(additions[k].1.len() <= u16::MAX);
        }
    }
    lemma_no_long(merged);
}

proof fn lemma_no_long(entries: Seq<(int, Seq<u8>)>)
    requires
        forall|i: int| 0 <= i < entries.len() ==> (#[trigger] entries[i]).1.len() <= u16::MAX,
    ensures
        captures::first_too_long(entries) is None,
    decreases entries.len(),
{
    if entries.len() > 0 {
        assert(entries[0].1.len() <= u16::MAX);
        assert forall|i: int| 0 <= i < entries.drop_first().len() implies (
        #[trigger] entries.drop_first()[i]).1.len() <= u16::MAX by {
            assert(entries[i + 1].1.len() <= u16::MAX);
        }
        lemma_no_long(entries.drop_first());
    }
}

impl MetadataDb {
    /// A store without captures.
    pub fn new() -> (store: MetadataDb)
        ensures
            store@ == Map::<nat, Seq<u8>>::empty(),
    {
        let store = MetadataDb { values: DigestTable::new() };
        assert(store@ =~= Map::empty());
        store
    }

    /// Puts a stored value in place for a digest, whatever it holds.
    pub fn load(&mut self, digest: Sha1Digest, value: Vec<u8>)
        ensures
            final(self)@ == old(self)@.insert(digest@, value@),
    {
        let ghost before = self.values@;
        self.values.insert(digest, value);
        assert(self@ =~= value_views(before).insert(digest@, value@));
    }

    /// The value stored for a digest.
    pub fn value(&self, digest: &Sha1Digest) -> (value: Option<&Vec<u8>>)
        ensures
            match value {
                Some(value) => self@.contains_key(digest@) && self@[digest@] == value@,
                None => !self@.contains_key(digest@),
            },
    {
        self.values.get(digest)
    }

    /// Records a capture (timestamp and original URL) for a digest.
    ///
    /// Captures for a digest are kept sorted by timestamp (then by URL), and exact duplicates are
    /// collapsed.
    pub fn insert(&mut self, digest: Sha1Digest, timestamp: Timestamp, original: &str) -> (result:
        Result<(), Error>)
        ensures
            ({
                let url = vstd::utf8::encode_utf8(original@);
                match result {
                    Ok(_) => {
                        &&& url.len() <= u16::MAX
                        &&& final(self)@.dom() == old(self)@.dom().insert(digest@)
                        &&& is_updated(
                            final(self)@[digest@],
                            stored_for(old(self)@, digest@),
                            seq![(timestamp@, url)],
                        )
                        &&& final(self)@.remove(digest@) == old(self)@.remove(digest@)
                    },
                    Err(error) => {
                        &&& final(self)@ == old(self)@
                        &&& match error {
                            Error::EncodeUrlTooLong(len) => len == url.len() && url.len()
                                > u16::MAX,
                            Error::DecodeTruncatedEntry => url.len() <= u16::MAX && !raw_is_some(
                                stored_for(old(self)@, digest@),
                            ),
                            _ => false,
                        }
                    },
                }
            }),
    {
        let mut batch: Vec<Capture> = Vec::new();
        batch.push(Capture { digest, timestamp, original: original.to_owned() });
        proof {
            assert(batch@[0].digest@ == digest@);
            assert(batch@.drop_last() =~= Seq::empty());
            assert(additions_of(batch@.drop_last(), digest@) =~= Seq::empty());
            assert(additions_of(batch@, digest@) =~= seq![(timestamp@, url_bytes(batch@[0]))]);
            assert(has_digest(batch@, digest@));
        }
        let ghost before = self@;
        let result = self.insert_batch(&batch);
        proof {
            if result is Ok {
                assert(url_bytes(batch@[0]).len() <= u16::MAX);
                assert(is_updated(
                    self@[digest@],
                    stored_for(before, digest@),
                    additions_of(batch@, digest@),
                ));
                assert forall|d: nat| d != digest@ implies !has_digest(batch@, d) by {}
                assert(self@.dom() =~= before.dom().insert(digest@)) by {
                    assert forall|d: nat| #[trigger] self@.dom().contains(d) <==> before.dom().insert(
                        digest@,
                    ).contains(d) by {
                        assert(self@.contains_key(d) <==> before.contains_key(d) || has_digest(
                            batch@,
                            d,
                        ));
                    }
                }
                assert(self@.remove(digest@) =~= before.remove(digest@)) by {
                    assert forall|d: nat| d != digest@ implies (self@.contains_key(d)
                        <==> before.contains_key(d)) && (self@.contains_key(d) ==> self@[d]
                        == before[d]) by {
                        assert(self@.contains_key(d) <==> before.contains_key(d) || has_digest(
                            batch@,
                            d,
                        ));
                    }
                }
            }
        }
        result
    }

    /// Records a batch of captures, all of them or none.
    ///
    /// Captures for a digest are kept sorted by timestamp (then by URL), and exact duplicates are
    /// collapsed. Nothing is recorded if a URL is too long or a stored value that would be merged
    /// into is corrupt.
    pub fn insert_batch(&mut self, batch: &Vec<Capture>) -> (result: Result<(), Error>)
        ensures
            match result {
                Ok(_) => has_short_urls(batch@) && is_recorded(final(self)@, old(self)@, batch@),
                Err(error) => {
                    &&& final(self)@ == old(self)@
                    &&& match error {
                        Error::EncodeUrlTooLong(len) => exists|i: int|
                            {
                                &&& 0 <= i < batch@.len()
                                &&& url_bytes(#[trigger] batch@[i]).len() > u16::MAX
                                &&& len == url_bytes(batch@[i]).len()
                                &&& has_short_urls(batch@.take(i))
                            },
                        Error::DecodeTruncatedEntry => has_short_urls(batch@) && exists|digest: nat|
                            has_digest(batch@, digest) && !#[trigger] raw_is_some(
                                stored_for(old(self)@, digest),
                            ),
                        _ => false,
                    }
                },
            },
    {
        let groups = match group_captures(batch) {
            Ok(groups) => groups,
            Err(error) => return Err(error),
        };
        let grouped = groups.entries();
        let ghost before = self@;
        let mut updates: Vec<(Sha1Digest, Vec<u8>)> = Vec::new();
        let mut i: usize = 0;
        while i < grouped.len()
            invariant
                i <= grouped@.len(),
                updates@.len() == i,
                before == self@,
                self@ == old(self)@,
                has_short_urls(batch@),
                grouped@ == groups.all(),
                forall|k: int|
                    0 <= k < groups.all().len() ==> #[trigger] groups@.contains_key(
                        groups.all()[k].0@,
                    ) && groups@[groups.all()[k].0@] == groups.all()[k].1,
                forall|digest: nat| #[trigger]
                    groups@.contains_key(digest) <==> has_digest(batch@, digest),
                forall|digest: nat| #[trigger]
                    groups@.contains_key(digest) ==> captures::entry_views(groups@[digest]@)
                        == additions_of(batch@, digest),
                forall|k: int|
                    0 <= k < i ==> (#[trigger] updates@[k]).0 == grouped@[k].0 && is_updated(
                        updates@[k].1@,
                        stored_for(before, grouped@[k].0@),
                        additions_of(batch@, grouped@[k].0@),
                    ),
            decreases grouped@.len() - i,
        {
            let (digest, additions) = &grouped[i];
            let empty: Vec<u8> = Vec::new();
            let existing: &Vec<u8> = match self.values.get(digest) {
                Some(existing) => existing,
                None => &empty,
            };
            proof {
                assert(groups@.contains_key(groups.all()[i as int].0@));
                assert(has_digest(batch@, digest@));
                assert(existing@ =~= stored_for(before, digest@));
                lemma_short_additions(batch@, digest@);
                if captures::raw_entries(existing@) is Some {
                    lemma_short_entries(existing@);
                }
            }
            match merge_entries(existing, additions) {
                Ok(merged) => {
                    updates.push((*digest, merged));
                },
                Err(error) => {
                    proof {
                        if error is EncodeUrlTooLong {
                            let stored = captures::raw_entries(existing@).unwrap();
                            let merged = choose|merged: Seq<(int, Seq<u8>)>| #[trigger]
                                captures::is_merged(
                                    merged,
                                    stored,
                                    captures::entry_views(additions@),
                                ) && captures::first_too_long(merged) is Some;
                            lemma_none_too_long(
                                merged,
                                stored,
                                captures::entry_views(additions@),
                            );
                        } else {
                            assert(!raw_is_some(stored_for(before, digest@)));
                        }
                    }
                    return Err(error);
                },
            }
            i = i + 1;
        }
        self.apply(updates);
        proof {
            assert forall|digest: nat| has_digest(batch@, digest) implies #[trigger] is_updated(
                self@[digest],
                stored_for(before, digest),
                additions_of(batch@, digest),
            ) && self@.contains_key(digest) by {
                assert(groups@.contains_key(digest));
                let k = choose|k: int| digest_table::stands_at(groups.all(), digest, k);
                assert(updates@[k].0@ == digest);
            }
            assert forall|digest: nat| #[trigger] self@.contains_key(
                digest,
            ) implies (before.contains_key(digest) || has_digest(batch@, digest)) && (!has_digest(
                batch@,
                digest,
            ) ==> self@[digest] == before[digest]) by {
                if exists|k: int| 0 <= k < updates@.len() && (#[trigger] updates@[k]).0@ == digest {
                    let k = choose|k: int|
                        0 <= k < updates@.len() && (#[trigger] updates@[k]).0@ == digest;
                    assert(groups@.contains_key(groups.all()[k].0@));
                }
            }
            assert forall|digest: nat| #[trigger] self@.contains_key(digest)
                <==> before.contains_key(digest) || has_digest(batch@, digest) by {
                if has_digest(batch@, digest) {
                    assert(is_updated(
                        self@[digest],
                        stored_for(before, digest),
                        additions_of(batch@, digest),
                    ));
                }
            }
        }
        Ok(())
    }

    /// Puts values in place.
    fn apply(&mut self, updates: Vec<(Sha1Digest, Vec<u8>)>)
        requires
            forall|i: int, j: int|
                0 <= i < j < updates@.len() ==> (#[trigger] updates@[i]).0@ != (
                #[trigger] updates@[j]).0@,
        ensures
            forall|k: int|
                0 <= k < updates@.len() ==> final(self)@.contains_key((#[trigger] updates@[k]).0@)
                    && final(self)@[updates@[k].0@] == updates@[k].1@,
            forall|digest: nat| #[trigger]
                final(self)@.contains_key(digest) ==> old(self)@.contains_key(digest) || exists|
                    k: int,
                |
                    0 <= k < updates@.len() && (#[trigger] updates@[k]).0@ == digest,
            forall|digest: nat| #[trigger]
                old(self)@.contains_key(digest) ==> final(self)@.contains_key(digest),
            forall|digest: nat|
                #![trigger final(self)@[digest]]
                (forall|k: int| 0 <= k < updates@.len() ==> (#[trigger] updates@[k]).0@ != digest)
                    ==> final(self)@[digest] == old(self)@[digest],
    {
        let ghost all = updates@;
        let ghost before = self@;
        for update in iter: updates
            invariant
                iter.seq() == all,
                before == old(self)@,
                forall|i: int, j: int|
                    0 <= i < j < all.len() ==> (#[trigger] all[i]).0@ != (#[trigger] all[j]).0@,
                forall|k: int|
                    0 <= k < iter.index() ==> self@.contains_key((#[trigger] all[k]).0@)
                        && self@[all[k].0@] == all[k].1@,
                forall|digest: nat| #[trigger]
                    self@.contains_key(digest) ==> before.contains_key(digest) || exists|k: int|
                        0 <= k < all.len() && (#[trigger] all[k]).0@ == digest,
                forall|digest: nat| #[trigger]
                    before.contains_key(digest) ==> self@.contains_key(digest),
                forall|digest: nat|
                    #![trigger self@[digest]]
                    (forall|k: int| 0 <= k < all.len() ==> (#[trigger] all[k]).0@ != digest)
                        ==> self@[digest] == before[digest],
        {
            let ghost i = iter.index();
            assert(update == all[i]);
            let (digest, value) = update;
            self.load(digest, value);
            assert(all[i].0@ == digest@);
        }
    }

    /// Looks up the captures for a batch of digests.
    ///
    /// The result has the same length and order as `digests`, with `None` for digests that are not
    /// in the store.
    pub fn multi_get(&self, digests: &Vec<Sha1Digest>) -> (result: Result<
        Vec<Option<Vec<UrlParts<'static>>>>,
        Error,
    >)
        ensures
            match result {
                Ok(found) => {
                    &&& found@.len() == digests@.len()
                    &&& forall|i: int|
                        0 <= i < digests@.len() ==> is_lookup(
                            self@,
                            digests@[i]@,
                            #[trigger] found@[i],
                        )
                },
                Err(error) => exists|i: int|
                    {
                        &&& 0 <= i < digests@.len()
                        &&& self@.contains_key((#[trigger] digests@[i])@)
                        &&& captures::decoded(self@[digests@[i]@]) == Err::<
                            Seq<(Seq<char>, int)>,
                            Error,
                        >(error)
                        &&& forall|k: int|
                            0 <= k < i && self@.contains_key((#[trigger] digests@[k])@)
                                ==> captures::decoded(self@[digests@[k]@]) is Ok
                    },
            },
    {
        let mut found: Vec<Option<Vec<UrlParts<'static>>>> = Vec::new();
        let mut i: usize = 0;
        while i < digests.len()
            invariant
                i <= digests@.len(),
                found@.len() == i,
                forall|k: int|
                    0 <= k < i ==> is_lookup(self@, digests@[k]@, #[trigger] found@[k]),
                forall|k: int|
                    0 <= k < i && self@.contains_key((#[trigger] digests@[k])@)
                        ==> captures::decoded(self@[digests@[k]@]) is Ok,
            decreases digests@.len() - i,
        {
            match self.values.get(&digests[i]) {
                Some(value) => {
                    assert(self@.contains_key(digests@[i as int]@));
                    match decode_captures(value) {
                        Ok(captures) => found.push(Some(captures)),
                        Err(error) => return Err(error),
                    }
                },
                None => {
                    assert(!self@.contains_key(digests@[i as int]@));
                    found.push(None)
                },
            }
            i = i + 1;
        }
        Ok(found)
    }

    /// Every stored value, in the order of the digests.
    pub fn values(&self) -> (values: &Vec<(Sha1Digest, Vec<u8>)>)
        ensures
            digest_table::is_sorted(values@),
            forall|i: int|
                0 <= i < values@.len() ==> self@.contains_key((#[trigger] values@[i]).0@)
                    && self@[values@[i].0@] == values@[i].1@,
            forall|digest: nat| #[trigger]
                self@.contains_key(digest) ==> exists|i: int|
                    digest_table::stands_at(values@, digest, i),
    {
        let values = self.values.entries();
        assert forall|i: int| 0 <= i < values@.len() implies self@.contains_key(
            (#[trigger] values@[i]).0@,
        ) && self@[values@[i].0@] == values@[i].1@ by {
            assert(self.values@.contains_key(self.values.all()[i].0@));
        }
        assert forall|digest: nat| #[trigger] self@.contains_key(digest) implies exists|i: int|
            digest_table::stands_at(values@, digest, i) by {
            assert(self.values@.contains_key(digest));
        }
        values
    }

    /// Every capture in the store with its digest, ordered by digest and then as stored. A value that
    /// cannot be read gives its error.
    pub fn iter_all(&self) -> (all: Vec<Result<(Sha1Digest, UrlParts<'static>), Error>>)
        ensures
            exists|values: Seq<(nat, Seq<u8>)>| #[trigger]
                is_listing(values, self@) && listed_views(all@) == listed(values),
    {
        let values = self.values();
        let ghost views = values@.map_values(|value: (Sha1Digest, Vec<u8>)| (value.0@, value.1@));
        proof {
            assert(is_listing(views, self@)) by {
                assert forall|i: int, j: int| 0 <= i < j < views.len() implies (
                #[trigger] views[i]).0 < (#[trigger] views[j]).0 by {
                    assert(values@[i].0@ < values@[j].0@);
                }
                assert forall|i: int| 0 <= i < views.len() implies self@.contains_key(
                    (#[trigger] views[i]).0,
                ) && self@[views[i].0] == views[i].1 by {
                    assert(self@.contains_key(values@[i].0@));
                }
                assert forall|digest: nat| #[trigger] self@.contains_key(digest) implies exists|
                    i: int,
                | 0 <= i < views.len() && (#[trigger] views[i]).0 == digest by {
                    let i = choose|i: int| digest_table::stands_at(values@, digest, i);
                    assert(views[i].0 == digest);
                }
            }
        }
        let mut all: Vec<Result<(Sha1Digest, UrlParts<'static>), Error>> = Vec::new();
        let mut i: usize = 0;
        assert(views.take(0) =~= Seq::empty());
        assert(listed_views(all@) =~= Seq::empty());
        while i < values.len()
            invariant
                i <= values@.len(),
                views == values@.map_values(
                    |value: (Sha1Digest, Vec<u8>)| (value.0@, value.1@),
                ),
                listed_views(all@) == listed(views.take(i as int)),
            decreases values@.len() - i,
        {
            let (digest, value) = &values[i];
            let ghost before = listed_views(all@);
            proof {
                assert(views[i as int] == (digest@, value@));
                assert(views.take(i + 1).drop_last() =~= views.take(i as int));
                assert(views.take(i + 1).last() == views[i as int]);
            }
            match decode_captures(value) {
                Ok(captures) => {
                    let ghost expected = captures::capture_views(captures@);
                    push_captures(&mut all, *digest, captures);
                    assert(listed_views(all@) =~= before + value_listing(digest@, value@));
                },
                Err(error) => {
                    let ghost list = all@;
                    all.push(Err(error));
                    assert(listed_views(all@) =~= listed_views(list).push(Err(error)));
                    assert(listed_views(all@) =~= before + value_listing(digest@, value@));
                },
            }
            i = i + 1;
        }
        assert(views.take(i as int) =~= views);
        all
    }
}

/// Whether what was found for a digest is what is stored for it.
pub open spec fn is_lookup(
    values: Map<nat, Seq<u8>>,
    digest: nat,
    found: Option<Vec<UrlParts<'static>>>,
) -> bool {
    match found {
        Some(captures) => {
            &&& values.contains_key(digest)
            &&& captures::decoded(values[digest]) == Ok::<Seq<(Seq<char>, int)>, Error>(
                captures::capture_views(captures@),
            )
        },
        None => !values.contains_key(digest),
    }
}

/// Whether a list holds the entries of a map in ascending order of their keys.
pub open spec fn is_listing(list: Seq<(nat, Seq<u8>)>, values: Map<nat, Seq<u8>>) -> bool {
    &&& forall|i: int, j: int|
        0 <= i < j < list.len() ==> (#[trigger] list[i]).0 < (#[trigger] list[j]).0
    &&& forall|i: int|
        0 <= i < list.len() ==> values.contains_key((#[trigger] list[i]).0) && values[list[i].0]
            == list[i].1
    &&& forall|digest: nat| #[trigger]
        values.contains_key(digest) ==> exists|i: int|
            0 <= i < list.len() && (#[trigger] list[i]).0 == digest
}

/// The captures of one digest, or the error that its value gives.
pub open spec fn value_listing(digest: nat, value: Seq<u8>) -> Seq<
    Result<(nat, (Seq<char>, int)), Error>,
> {
    match captures::decoded(value) {
        Ok(captures) => captures.map_values(
            |capture: (Seq<char>, int)| Ok::<(nat, (Seq<char>, int)), Error>((digest, capture)),
        ),
        Err(error) => seq![Err(error)],
    }
}

/// The captures of digests, one digest after the other.
pub open spec fn listed(values: Seq<(nat, Seq<u8>)>) -> Seq<Result<(nat, (Seq<char>, int)), Error>>
    decreases values.len(),
{
    if values.len() == 0 {
        Seq::empty()
    } else {
        listed(values.drop_last()) + value_listing(values.last().0, values.last().1)
    }
}

/// Captures with their digests, as numbers and texts.
pub open spec fn listed_views(
    all: Seq<Result<(Sha1Digest, UrlParts<'static>), Error>>,
) -> Seq<Result<(nat, (Seq<char>, int)), Error>> {
    all.map_values(
        |item: Result<(Sha1Digest, UrlParts<'static>), Error>|
            match item {
                Ok((digest, capture)) => Ok::<(nat, (Seq<char>, int)), Error>(
                    (digest@, captures::capture_view(capture)),
                ),
                Err(error) => Err(error),
            },
    )
}

/// Appends captures with their digest.
fn push_captures(
    all: &mut Vec<Result<(Sha1Digest, UrlParts<'static>), Error>>,
    digest: Sha1Digest,
    captures: Vec<UrlParts<'static>>,
)
    ensures
        listed_views(final(all)@) == listed_views(old(all)@) + captures::capture_views(
            captures@,
        ).map_values(
            |capture: (Seq<char>, int)| Ok::<(nat, (Seq<char>, int)), Error>((digest@, capture)),
        ),
{
    let ghost start = listed_views(all@);
    let ghost views = captures::capture_views(captures@).map_values(
        |capture: (Seq<char>, int)| Ok::<(nat, (Seq<char>, int)), Error>((digest@, capture)),
    );
    let ghost given = captures@;
    assert(listed_views(all@) =~= start + views.take(0));
    for capture in iter: captures
        invariant
            iter.seq() == given,
            views == captures::capture_views(given).map_values(
                |capture: (Seq<char>, int)| Ok::<(nat, (Seq<char>, int)), Error>((digest@, capture)),
            ),
            listed_views(all@) == start + views.take(iter.index()),
    {
        let ghost i = iter.index();
        let ghost list = all@;
        let ghost view = captures::capture_view(capture);
        assert(capture == given[i]);
        all.push(Ok((digest, capture)));
        proof {
            assert(listed_views(all@) =~= listed_views(list).push(Ok((digest@, view))));
            assert(views[i] == Ok::<(nat, (Seq<char>, int)), Error>((digest@, view)));
            assert(views.take(i + 1) =~= views.take(i).push(views[i]));
            assert(listed_views(all@) =~= start + views.take(i + 1));
        }
    }
    assert(views.take(given.len() as int) =~= views);
}

/// Whether a capture of a digest gives an entry.
spec fn gives(capture: Capture, digest: nat, entry: (int, Seq<u8>)) -> bool {
    capture.digest@ == digest && entry == (capture.timestamp@, url_bytes(capture))
}

proof fn lemma_addition(batch: Seq<Capture>, digest: nat, entry: (int, Seq<u8>))
    ensures
        additions_of(batch, digest).contains(entry) <==> exists|i: int|
            0 <= i < batch.len() && gives(#[trigger] batch[i], digest, entry),
    decreases batch.len(),
{
    if batch.len() > 0 {
        let front = batch.drop_last();
        let n = batch.len() - 1;
        let before = additions_of(front, digest);
        let all = additions_of(batch, digest);
        lemma_addition(front, digest, entry);
        if exists|i: int| 0 <= i < batch.len() && gives(#[trigger] batch[i], digest, entry) {
            let i = choose|i: int| 0 <= i < batch.len() && gives(#[trigger] batch[i], digest, entry);
            if i < n {
                assert(gives(front[i], digest, entry));
                let k = before.index_of(entry);
                assert(all[k] == entry);
            } else {
                assert(all[all.len() - 1] == entry);
            }
        }
        if all.contains(entry) {
            let k = all.index_of(entry);
            if k < before.len() {
                assert(before[k] == entry);
                let i = choose|i: int|
                    0 <= i < front.len() && gives(#[trigger] front[i], digest, entry);
                assert(gives(batch[i], digest, entry));
            } else {
                assert(gives(batch[n], digest, entry));
            }
        }
    }
}

/// Whether a batch has a capture of a digest with the given URL and time.
pub open spec fn has_capture(batch: Seq<Capture>, digest: nat, capture: (Seq<char>, int)) -> bool {
    exists|i: int|
        {
            &&& 0 <= i < batch.len()
            &&& (#[trigger] batch[i]).digest@ == digest
            &&& capture == (batch[i].original@, batch[i].timestamp@)
        }
}

/// What is found for a digest after a batch of captures was recorded are the captures that were found
/// before and those of the batch, and no others, in the order of their times and URLs. What was stored for the
/// digest has to be readable, and the times of the batch have to lie in the supported range.
pub proof fn law_recorded_captures_are_found(
    values: Map<nat, Seq<u8>>,
    before: Map<nat, Seq<u8>>,
    batch: Seq<Capture>,
    digest: nat,
)
    requires
        is_recorded(values, before, batch),
        has_digest(batch, digest),
        captures::decoded(stored_for(before, digest)) is Ok,
        forall|i: int|
            0 <= i < batch.len() ==> timestamp::is_supported((#[trigger] batch[i]).timestamp@),
    ensures
        captures::decoded(values[digest]) is Ok,
        forall|capture: (Seq<char>, int)|
            #![trigger captures::decoded(values[digest])->Ok_0.contains(capture)]
            captures::decoded(values[digest])->Ok_0.contains(capture) <==> captures::decoded(
                stored_for(before, digest),
            )->Ok_0.contains(capture) || has_capture(batch, digest, capture),
        forall|i: int, j: int|
            0 <= i < j < captures::decoded(values[digest])->Ok_0.len() ==> capture_less(
                #[trigger] captures::decoded(values[digest])->Ok_0[i],
                #[trigger] captures::decoded(values[digest])->Ok_0[j],
            ),
{
    let stored = stored_for(before, digest);
    let added = additions_of(batch, digest);
    assert(is_updated(values[digest], stored, added));
    captures::lemma_decoded_entries(stored);
    captures::lemma_decoded_entries(values[digest]);
    let existing = captures::raw_entries(stored).unwrap();
    let merged = captures::raw_entries(values[digest]).unwrap();
    assert forall|k: int| 0 <= k < merged.len() implies captures::entry_problem(
        #[trigger] merged[k],
    ) is None by {
        assert(merged.to_set().contains(merged[k]));
        if existing.contains(merged[k]) {
            let i = existing.index_of(merged[k]);
            assert(existing[i] == merged[k]);
        } else {
            lemma_addition(batch, digest, merged[k]);
            let j = choose|j: int|
                0 <= j < batch.len() && gives(#[trigger] batch[j], digest, merged[k]);
            vstd::utf8::encode_utf8_valid_utf8(batch[j].original@);
        }
    }
    let found = captures::decoded(values[digest])->Ok_0;
    let held = captures::decoded(stored)->Ok_0;
    assert forall|capture: (Seq<char>, int)| #[trigger] found.contains(capture) implies held.contains(
        capture,
    ) || has_capture(batch, digest, capture) by {
        let k = found.index_of(capture);
        assert(found[k] == captures::capture_of(merged[k]));
        assert(merged.to_set().contains(merged[k]));
        if existing.contains(merged[k]) {
            let i = existing.index_of(merged[k]);
            assert(held[i] == capture);
        } else {
            lemma_addition(batch, digest, merged[k]);
            let j = choose|j: int|
                0 <= j < batch.len() && gives(#[trigger] batch[j], digest, merged[k]);
            vstd::utf8::encode_utf8_decode_utf8(batch[j].original@);
            assert(capture == (batch[j].original@, batch[j].timestamp@));
        }
    }
    assert forall|capture: (Seq<char>, int)|
        held.contains(capture) || has_capture(batch, digest, capture) implies #[trigger] found.contains(
        capture,
    ) by {
        let entry = if held.contains(capture) {
            existing[held.index_of(capture)]
        } else {
            let j = choose|j: int|
                {
                    &&& 0 <= j < batch.len()
                    &&& (#[trigger] batch[j]).digest@ == digest
                    &&& capture == (batch[j].original@, batch[j].timestamp@)
                };
            (batch[j].timestamp@, url_bytes(batch[j]))
        };
        if held.contains(capture) {
            let i = held.index_of(capture);
            assert(held[i] == captures::capture_of(existing[i]));
            assert(existing.contains(entry));
        } else {
            lemma_addition(batch, digest, entry);
            assert(exists|i: int|
                0 <= i < batch.len() && gives(#[trigger] batch[i], digest, entry));
            vstd::utf8::encode_utf8_decode_utf8(capture.0);
        }
        assert(existing.to_set().union(added.to_set()).contains(entry));
        assert(merged.to_set().contains(entry));
        let k = merged.index_of(entry);
        assert(merged[k] == entry);
        assert(found[k] == capture);
    }
    law_decoded_captures_are_ordered(values[digest]);
}

/// Whether one capture comes before another in the order of their times and then of their URLs.
pub open spec fn capture_less(a: (Seq<char>, int), b: (Seq<char>, int)) -> bool {
    captures::entry_less(
        (a.1, vstd::utf8::encode_utf8(a.0)),
        (b.1, vstd::utf8::encode_utf8(b.0)),
    )
}

/// Whether the captures of every digest are kept in ascending order, none twice.
pub open spec fn keeps_order(values: Map<nat, Seq<u8>>) -> bool {
    forall|digest: nat| #[trigger]
        values.contains_key(digest) ==> (captures::raw_entries(values[digest]) matches Some(entries)
            && captures::is_ascending(entries))
}

/// A store that keeps the captures of every digest in order still does after a batch is recorded.
pub proof fn law_captures_stay_ordered(
    values: Map<nat, Seq<u8>>,
    before: Map<nat, Seq<u8>>,
    batch: Seq<Capture>,
)
    requires
        keeps_order(before),
        is_recorded(values, before, batch),
    ensures
        keeps_order(values),
{
    assert forall|digest: nat| #[trigger] values.contains_key(
        digest,
    ) implies captures::raw_entries(values[digest]) matches Some(entries) && captures::is_ascending(
        entries,
    ) by {
        if has_digest(batch, digest) {
            assert(is_updated(
                values[digest],
                stored_for(before, digest),
                additions_of(batch, digest),
            ));
        } else {
            assert(before.contains_key(digest));
        }
    }
}

/// What is read of a value whose entries ascend comes in ascending order, none twice.
pub proof fn law_decoded_captures_are_ordered(value: Seq<u8>)
    requires
        captures::raw_entries(value) matches Some(entries) && captures::is_ascending(entries),
    ensures
        captures::decoded(value) matches Ok(found) ==> forall|i: int, j: int|
            0 <= i < j < found.len() ==> capture_less(#[trigger] found[i], #[trigger] found[j]),
{
    captures::lemma_decoded_entries(value);
    let entries = captures::raw_entries(value).unwrap();
    if let Ok(found) = captures::decoded(value) {
        assert forall|i: int, j: int| 0 <= i < j < found.len() implies capture_less(
            #[trigger] found[i],
            #[trigger] found[j],
        ) by {
            assert(captures::entry_problem(entries[i]) is None);
            assert(captures::entry_problem(entries[j]) is None);
            vstd::utf8::decode_utf8_encode_utf8(entries[i].1);
            vstd::utf8::decode_utf8_encode_utf8(entries[j].1);
            assert(found[i] == captures::capture_of(entries[i]));
            assert(found[j] == captures::capture_of(entries[j]));
            assert(captures::entry_less(entries[i], entries[j]));
        }
    }
}

/// Whether one listed capture comes before another in the order of digests, times and URLs.
pub open spec fn listed_less(a: (nat, (Seq<char>, int)), b: (nat, (Seq<char>, int))) -> bool {
    a.0 < b.0 || (a.0 == b.0 && capture_less(a.1, b.1))
}

/// Whether values come in the order of their digests, each with captures that can be read and ascend.
spec fn are_readable(list: Seq<(nat, Seq<u8>)>) -> bool {
    &&& forall|i: int, j: int|
        0 <= i < j < list.len() ==> (#[trigger] list[i]).0 < (#[trigger] list[j]).0
    &&& forall|i: int|
        0 <= i < list.len() ==> {
            &&& captures::decoded((#[trigger] list[i]).1) is Ok
            &&& captures::raw_entries(list[i].1) matches Some(entries) && captures::is_ascending(
                entries,
            )
        }
}

proof fn lemma_listing_is_ordered(list: Seq<(nat, Seq<u8>)>)
    requires
        are_readable(list),
    ensures
        forall|i: int|
            0 <= i < listed(list).len() ==> (#[trigger] listed(list)[i] matches Ok(item)
                && list.len() > 0 && item.0 <= list.last().0),
        forall|i: int, j: int|
            0 <= i < j < listed(list).len() ==> listed_less(
                (#[trigger] listed(list)[i])->Ok_0,
                (#[trigger] listed(list)[j])->Ok_0,
            ),
    decreases list.len(),
{
    if list.len() > 0 {
        let front = list.drop_last();
        let last = list.len() - 1;
        assert forall|i: int| 0 <= i < front.len() implies {
            &&& captures::decoded((#[trigger] front[i]).1) is Ok
            &&& captures::raw_entries(front[i].1) matches Some(entries) && captures::is_ascending(
                entries,
            )
        } by {
            assert(front[i] == list[i]);
        }
        lemma_listing_is_ordered(front);
        let before = listed(front);
        let (digest, value) = list[last];
        let found = captures::decoded(value)->Ok_0;
        law_decoded_captures_are_ordered(value);
        let all = listed(list);
        if front.len() > 0 {
            assert(front.last() == list[last - 1]);
            assert(list[last - 1].0 < list[last].0);
        }
        assert forall|i: int| 0 <= i < all.len() implies {
            &&& #[trigger] all[i] matches Ok(item) && item.0 <= digest
            &&& i < before.len() ==> all[i] == before[i] && all[i]->Ok_0.0 < digest
            &&& i >= before.len() ==> all[i]->Ok_0 == (digest, found[i - before.len()])
        } by {
            if i < before.len() {
                assert(all[i] == before[i]);
            } else {
                assert(all[i] == value_listing(digest, value)[i - before.len()]);
            }
        }
        assert forall|i: int, j: int| 0 <= i < j < all.len() implies listed_less(
            (#[trigger] all[i])->Ok_0,
            (#[trigger] all[j])->Ok_0,
        ) by {
            if j < before.len() {
                assert(listed_less(before[i]->Ok_0, before[j]->Ok_0));
            } else if i >= before.len() {
                assert(capture_less(found[i - before.len()], found[j - before.len()]));
            }
        }
    }
}

/// Of a store that keeps the captures of every digest in order and that can be read, all captures are
/// listed in the order of their digests, their times and their URLs, none twice.
pub proof fn law_listing_is_ordered(list: Seq<(nat, Seq<u8>)>, values: Map<nat, Seq<u8>>)
    requires
        is_listing(list, values),
        keeps_order(values),
        forall|digest: nat| #[trigger]
            values.contains_key(digest) ==> captures::decoded(values[digest]) is Ok,
    ensures
        forall|i: int| 0 <= i < listed(list).len() ==> #[trigger] listed(list)[i] is Ok,
        forall|i: int, j: int|
            0 <= i < j < listed(list).len() ==> listed_less(
                (#[trigger] listed(list)[i])->Ok_0,
                (#[trigger] listed(list)[j])->Ok_0,
            ),
{
    assert forall|i: int| 0 <= i < list.len() implies {
        &&& captures::decoded((#[trigger] list[i]).1) is Ok
        &&& captures::raw_entries(list[i].1) matches Some(entries) && captures::is_ascending(entries)
    } by {
        assert(values.contains_key(list[i].0));
    }
    lemma_listing_is_ordered(list);
}

/// What a batch adds under a digest is the times and URLs of its captures with that digest, in their order.
pub proof fn law_batches_are_grouped_by_digest(batch: Seq<Capture>, capture: Capture, digest: nat)
    ensures
        additions_of(Seq::empty(), digest) == Seq::<(int, Seq<u8>)>::empty(),
        additions_of(batch.push(capture), digest) == if capture.digest@ == digest {
            additions_of(batch, digest).push(
                (capture.timestamp@, vstd::utf8::encode_utf8(capture.original@)),
            )
        } else {
            additions_of(batch, digest)
        },
{
    assert(batch.push(capture).drop_last() =~= batch);
}

/// A listing gives the captures of each digest in turn, each with its digest, and an error in place of those
/// that cannot be decoded.
pub proof fn law_listings_give_every_capture(values: Seq<(nat, Seq<u8>)>, digest: nat, value: Seq<u8>)
    ensures
        ({
            let before = listed(values);
            let after = listed(values.push((digest, value)));
            &&& before.is_prefix_of(after)
            &&& captures::decoded(value) matches Err(error) ==> after == before.push(Err(error))
            &&& captures::decoded(value) matches Ok(found) ==> {
                &&& after.len() == before.len() + found.len()
                &&& forall|i: int|
                    0 <= i < found.len() ==> after[before.len() + i] == Ok::<
                        (nat, (Seq<char>, int)),
                        Error,
                    >((digest, #[trigger] found[i]))
            }
        }),
{
    assert(values.push((digest, value)).drop_last() =~= values);
    let before = listed(values);
    let after = listed(values.push((digest, value)));
    assert(after == before + value_listing(digest, value));
    if let Err(error) = captures::decoded(value) {
        assert(after =~= before.push(Err(error)));
    }
}

/// Captures are ordered by time, and those of the same time by the bytes of their URLs.
pub proof fn law_captures_are_ordered_by_time(a: (Seq<char>, int), b: (Seq<char>, int))
    ensures
        a.1 < b.1 ==> capture_less(a, b),
        a.1 > b.1 ==> !capture_less(a, b),
        a.1 == b.1 ==> (capture_less(a, b) <==> captures::bytes_less(
            vstd::utf8::encode_utf8(a.0),
            vstd::utf8::encode_utf8(b.0),
        )),
{
}

/// A batch is recorded under its digests and nowhere else: what is stored under any other digest stays.
pub proof fn law_other_digests_stay(
    values: Map<nat, Seq<u8>>,
    before: Map<nat, Seq<u8>>,
    batch: Seq<Capture>,
    digest: nat,
)
    requires
        is_recorded(values, before, batch),
        forall|i: int| 0 <= i < batch.len() ==> (#[trigger] batch[i]).digest@ != digest,
    ensures
        values.contains_key(digest) == before.contains_key(digest),
        values.contains_key(digest) ==> values[digest] == before[digest],
{
    assert(!has_digest(batch, digest));
}

/// A lookup gives for each digest the captures that are stored under it, or that there are none.
pub proof fn law_lookups_give_captures(
    store: &MetadataDb,
    digests: &Vec<Sha1Digest>,
    result: Result<Vec<Option<Vec<UrlParts<'static>>>>, Error>,
    i: int,
)
    requires
        call_ensures(MetadataDb::multi_get, (store, digests), result),
        0 <= i < digests@.len(),
    ensures
        result matches Ok(found) ==> {
            let stored = captures::decoded(store@[digests@[i]@]);
            &&& found@.len() == digests@.len()
            &&& found@[i] is Some <==> store@.contains_key(digests@[i]@)
            &&& found@[i] matches Some(captures) ==> {
                &&& stored is Ok
                &&& captures@.len() == stored->Ok_0.len()
                &&& forall|k: int|
                    0 <= k < captures@.len() ==> (#[trigger] captures@[k]).url@ == stored->Ok_0[k].0
                        && captures@[k].timestamp@ == stored->Ok_0[k].1
            }
        },
{
    if let Ok(found) = result {
        assert(is_lookup(store@, digests@[i]@, found@[i]));
        if let Some(captures) = found@[i] {
            let stored = captures::decoded(store@[digests@[i]@])->Ok_0;
            assert(stored == captures::capture_views(captures@));
            assert forall|k: int| 0 <= k < captures@.len() implies (#[trigger] captures@[k]).url@
                == stored[k].0 && captures@[k].timestamp@ == stored[k].1 by {
                assert(captures::capture_views(captures@)[k] == captures::capture_view(captures@[k]));
            }
        }
    }
}

} // verus!
