//! What is done with the items of a capture index: finding the captures whose content is missing, and
//! recording captures as metadata.
use vstd::prelude::*;

use crate::captures;
use crate::cdx::Item;
use crate::digest;
use crate::digest::{Digest, Sha1Digest};
use crate::digest_table::DigestTable;
use crate::integer;
use crate::integer::push_signed;
use crate::lines;
use crate::listing;
use crate::metadata;
use crate::metadata::{Capture, MetadataDb};
use crate::snapshot::Snapshot;
use crate::tabular;
use crate::tabular::row_line;
use crate::text;
use crate::text::{append, chars_of, string_of, trim};
use crate::timestamp;
use crate::timestamp::Timestamp;
use crate::verify_lines;

verus! {

/// An item of the index.
#[derive(Debug, PartialEq, Eq)]
pub struct StoredItem {
    /// The SURT key of the URL.
    pub surt: String,
    /// When the capture was made, in seconds since the epoch.
    pub timestamp_secs: i64,
    /// The URL that was captured.
    pub original: String,
    /// The digest, if it is a valid one.
    pub digest: Option<Sha1Digest>,
    /// The digest as it is written.
    pub digest_str: String,
}

/// What an item says.
#[verifier::ext_equal]
pub struct StoredView {
    /// The SURT key.
    pub surt: Seq<char>,
    /// The timestamp.
    pub timestamp_secs: int,
    /// The URL.
    pub original: Seq<char>,
    /// The digest, if it is a valid one.
    pub digest: Option<nat>,
    /// The digest as it is written.
    pub digest_str: Seq<char>,
}

impl View for StoredItem {
    type V = StoredView;

    open spec fn view(&self) -> StoredView {
        StoredView {
            surt: self.surt@,
            timestamp_secs: self.timestamp_secs as int,
            original: self.original@,
            digest: match self.digest {
                Some(digest) => Some(digest@),
                None => None,
            },
            digest_str: self.digest_str@,
        }
    }
}

/// What items say.
pub open spec fn stored_views(items: Seq<StoredItem>) -> Seq<StoredView> {
    items.map_values(|item: StoredItem| item@)
}

/// The digests of the snapshots on lines; a line that holds no snapshot is passed over.
pub open spec fn snapshot_digests(all: Seq<Seq<char>>) -> Set<nat> {
    Set::new(|digest: nat| exists|i: int| 0 <= i < all.len() && has_digest(#[trigger] all[i], digest))
}

/// Whether a line holds a snapshot with a digest.
pub open spec fn has_digest(line: Seq<char>, digest: nat) -> bool {
    verify_lines::view_of(line) matches Some(view) && view.digest == digest
}

/// The digests that lines list, each with white space around it or not; a line that holds none is
/// passed over.
pub open spec fn listed_digests(all: Seq<Seq<char>>) -> Set<nat> {
    Set::new(|digest: nat| exists|i: int| 0 <= i < all.len() && lists_digest(#[trigger] all[i], digest))
}

/// Whether a line lists a digest.
pub open spec fn lists_digest(line: Seq<char>, digest: nat) -> bool {
    digest::is_digest_text(text::trimmed(line)) && digest::digest_value(text::trimmed(line))
        == digest
}

/// The digest of the snapshot on a line.
fn snapshot_digest(line: &str) -> (digest: Option<Sha1Digest>)
    ensures
        match digest {
            Some(digest) => verify_lines::view_of(line@) matches Some(view) && view.digest
                == digest@,
            None => verify_lines::view_of(line@) is None,
        },
{
    proof {
        reveal(verify_lines::view_of);
    }
    match Snapshot::parse(line) {
        Ok(snapshot) => Some(snapshot.digest),
        Err(_) => None,
    }
}

/// Adds the digests of the snapshots on lines, and gives the number of lines that were passed over
/// because they hold no snapshot.
pub fn exclude_snapshots(excluded: &mut DigestTable<()>, all: &Vec<String>) -> (skipped: usize)
    ensures
        final(excluded)@.dom() == old(excluded)@.dom().union(
            snapshot_digests(lines::string_views(all@)),
        ),
        skipped == listing::places(
            all@.len(),
            |i: int| verify_lines::view_of(lines::string_views(all@)[i]) is None,
        ).len(),
{
    let ghost texts = lines::string_views(all@);
    let ghost before = excluded@.dom();
    let ghost holds = |i: int| verify_lines::view_of(texts[i]) is None;
    let mut skipped: usize = 0;
    let mut k: usize = 0;
    while k < all.len()
        invariant
            k <= all@.len(),
            before == old(excluded)@.dom(),
            texts == lines::string_views(all@),
            holds == (|i: int| verify_lines::view_of(texts[i]) is None),
            skipped <= k,
            skipped == listing::places(k as nat, holds).len(),
            forall|digest: nat| #[trigger]
                excluded@.contains_key(digest) <==> before.contains(digest) || exists|i: int|
                    0 <= i < k && has_digest(#[trigger] texts[i], digest),
        decreases all@.len() - k,
    {
        let ghost earlier = excluded@;
        assert(texts[k as int] == all@[k as int]@);
        assert(holds(k as int) == (verify_lines::view_of(texts[k as int]) is None));
        match snapshot_digest(all[k].as_str()) {
            Some(digest) => {
                excluded.insert(digest, ());
                assert(has_digest(texts[k as int], digest@));
            },
            None => {
                skipped = skipped + 1;
            },
        }
        proof {
            assert forall|digest: nat| #[trigger]
                excluded@.contains_key(digest) <==> before.contains(digest) || exists|i: int|
                    0 <= i < k + 1 && has_digest(#[trigger] texts[i], digest) by {
                assert(earlier.contains_key(digest) <==> before.contains(digest) || exists|i: int|
                    0 <= i < k && has_digest(#[trigger] texts[i], digest));
                if exists|i: int| 0 <= i < k + 1 && has_digest(#[trigger] texts[i], digest) {
                    let i = choose|i: int| 0 <= i < k + 1 && has_digest(#[trigger] texts[i], digest);
                    assert(has_digest(texts[i], digest));
                }
            }
        }
        k = k + 1;
    }
    assert(excluded@.dom() =~= before.union(snapshot_digests(texts)));
    skipped
}

/// Adds the digests that lines list, and gives the number of lines that are neither blank nor a digest
/// and were passed over.
pub fn exclude_listed(excluded: &mut DigestTable<()>, all: &Vec<String>) -> (skipped: usize)
    ensures
        final(excluded)@.dom() == old(excluded)@.dom().union(
            listed_digests(lines::string_views(all@)),
        ),
        skipped == listing::places(
            all@.len(),
            |i: int| is_invalid_listing(lines::string_views(all@)[i]),
        ).len(),
{
    let ghost texts = lines::string_views(all@);
    let ghost before = excluded@.dom();
    let ghost holds = |i: int| is_invalid_listing(texts[i]);
    let mut skipped: usize = 0;
    let mut k: usize = 0;
    while k < all.len()
        invariant
            k <= all@.len(),
            before == old(excluded)@.dom(),
            texts == lines::string_views(all@),
            holds == (|i: int| is_invalid_listing(texts[i])),
            skipped <= k,
            skipped == listing::places(k as nat, holds).len(),
            forall|digest: nat| #[trigger]
                excluded@.contains_key(digest) <==> before.contains(digest) || exists|i: int|
                    0 <= i < k && lists_digest(#[trigger] texts[i], digest),
        decreases all@.len() - k,
    {
        let ghost earlier = excluded@;
        assert(texts[k as int] == all@[k as int]@);
        assert(holds(k as int) == is_invalid_listing(texts[k as int]));
        let chars = chars_of(all[k].as_str());
        let trimmed = trim(&chars);
        match Sha1Digest::from_chars(&trimmed) {
            Ok(digest) => {
                excluded.insert(digest, ());
                assert(lists_digest(texts[k as int], digest@));
            },
            Err(_) => {
                if trimmed.len() > 0 {
                    skipped = skipped + 1;
                }
            },
        }
        proof {
            assert forall|digest: nat| #[trigger]
                excluded@.contains_key(digest) <==> before.contains(digest) || exists|i: int|
                    0 <= i < k + 1 && lists_digest(#[trigger] texts[i], digest) by {
                assert(earlier.contains_key(digest) <==> before.contains(digest) || exists|i: int|
                    0 <= i < k && lists_digest(#[trigger] texts[i], digest));
                if exists|i: int| 0 <= i < k + 1 && lists_digest(#[trigger] texts[i], digest) {
                    let i = choose|i: int|
                        0 <= i < k + 1 && lists_digest(#[trigger] texts[i], digest);
                    assert(lists_digest(texts[i], digest));
                }
            }
        }
        k = k + 1;
    }
    assert(excluded@.dom() =~= before.union(listed_digests(texts)));
    skipped
}

/// Whether a line is neither blank nor a digest.
pub open spec fn is_invalid_listing(line: Seq<char>) -> bool {
    text::trimmed(line).len() > 0 && !digest::is_digest_text(text::trimmed(line))
}

/// Whether an item has a valid digest that is not excluded.
pub open spec fn lacks_content(item: StoredView, excluded: Set<nat>) -> bool {
    item.digest matches Some(digest) && !excluded.contains(digest)
}

/// Returns `true` when the item has a valid digest that is absent from `excluded`.
pub fn is_missing(item: &StoredItem, excluded: &DigestTable<()>) -> (missing: bool)
    ensures
        missing == lacks_content(item@, excluded@.dom()),
{
    match &item.digest {
        Some(digest) => !excluded.contains_key(digest),
        None => false,
    }
}

/// The order in which items are listed.
#[derive(Clone, Copy, Debug, PartialEq, Eq, Structural)]
pub enum SortOrder {
    /// Ascending (oldest first).
    Asc,
    /// Descending (newest first).
    Desc,
}

/// Whether one item has to stand in front of another.
pub open spec fn precedes(a: StoredView, b: StoredView, order: SortOrder) -> bool {
    match order {
        SortOrder::Asc => a.timestamp_secs < b.timestamp_secs,
        SortOrder::Desc => a.timestamp_secs > b.timestamp_secs,
    }
}

/// Whether items stand in order.
pub open spec fn is_ordered(items: Seq<StoredView>, order: SortOrder) -> bool {
    forall|i: int, j: int|
        0 <= i < j < items.len() ==> !precedes(#[trigger] items[j], #[trigger] items[i], order)
}

/// The items that are missing, in the order in which they stand.
pub open spec fn missing_views(items: Seq<StoredView>, n: nat, excluded: Set<nat>) -> Seq<StoredView> {
    listing::places(n, |i: int| lacks_content(items[i], excluded)).map_values(|i: int| items[i])
}

/// Whether one item has to stand in front of another.
fn comes_first(a: &StoredItem, b: &StoredItem, order: SortOrder) -> (first: bool)
    ensures
        first == precedes(a@, b@, order),
{
    match order {
        SortOrder::Asc => a.timestamp_secs < b.timestamp_secs,
        SortOrder::Desc => a.timestamp_secs > b.timestamp_secs,
    }
}

/// Puts an item in its place, behind those that need not stand behind it.
fn insert_item(sorted: &mut Vec<StoredItem>, item: StoredItem, order: SortOrder)
    requires
        is_ordered(stored_views(old(sorted)@), order),
    ensures
        is_ordered(stored_views(final(sorted)@), order),
        stored_views(final(sorted)@).to_multiset() == stored_views(
            old(sorted)@,
        ).to_multiset().insert(item@),
{
    let ghost before = sorted@;
    let ghost views = stored_views(before);
    let ghost new = item@;
    let mut place: usize = sorted.len();
    while place > 0 && comes_first(&item, &sorted[place - 1], order)
        invariant
            place <= sorted@.len(),
            sorted@ == before,
            views == stored_views(before),
            new == item@,
            is_ordered(views, order),
            forall|j: int| place <= j < views.len() ==> precedes(new, #[trigger] views[j], order),
        decreases place,
    {
        assert(views[place - 1] == sorted@[place - 1]@);
        place = place - 1;
    }
    if place > 0 {
        assert(views[place - 1] == sorted@[place - 1]@);
    }
    sorted.insert(place, item);
    proof {
        let after = stored_views(sorted@);
        assert(after =~= views.insert(place as int, new));
        assert forall|i: int, j: int| 0 <= i < j < after.len() implies !precedes(
            #[trigger] after[j],
            #[trigger] after[i],
            order,
        ) by {
            if j < place {
                assert(!precedes(views[j], views[i], order));
            } else if j == place {
                if i < place - 1 {
                    assert(!precedes(views[place - 1], views[i], order));
                }
            } else if i < place {
                assert(!precedes(views[j - 1], views[i], order));
            } else if i > place {
                assert(!precedes(views[j - 1], views[i - 1], order));
            }
        }
        vstd::seq_lib::to_multiset_insert(views, place as int, new);
    }
}

/// The items whose digest is valid and not excluded: in the order in which they stand, or sorted by
/// capture timestamp.
pub fn missing_items(
    items: Vec<StoredItem>,
    excluded: &DigestTable<()>,
    sort: Option<SortOrder>,
) -> (missing: Vec<StoredItem>)
    ensures
        ({
            let expected = missing_views(
                stored_views(items@),
                items@.len(),
                excluded@.dom(),
            );
            match sort {
                None => stored_views(missing@) == expected,
                Some(order) => {
                    &&& is_ordered(stored_views(missing@), order)
                    &&& stored_views(missing@).to_multiset() == expected.to_multiset()
                },
            }
        }),
{
    let ghost all = items@;
    let ghost views = stored_views(all);
    let ghost holds = |i: int| lacks_content(views[i], excluded@.dom());
    let ghost at = |i: int| views[i];
    let mut missing: Vec<StoredItem> = Vec::new();
    assert(stored_views(missing@) =~= missing_views(views, 0, excluded@.dom()));
    for item in iter: items
        invariant
            iter.seq() == all,
            views == stored_views(all),
            holds == (|i: int| lacks_content(views[i], excluded@.dom())),
            at == (|i: int| views[i]),
            match sort {
                None => stored_views(missing@) == listing::places(
                    iter.index() as nat,
                    holds,
                ).map_values(at),
                Some(order) => {
                    &&& is_ordered(stored_views(missing@), order)
                    &&& stored_views(missing@).to_multiset() == listing::places(
                        iter.index() as nat,
                        holds,
                    ).map_values(at).to_multiset()
                },
            },
    {
        let ghost k = iter.index() as int;
        let ghost before = stored_views(missing@);
        let ghost places = listing::places(k as nat, holds);
        let ghost view = item@;
        proof {
            assert(item == all[k]);
            assert(views[k] == view);
            assert(holds(k) == lacks_content(view, excluded@.dom()));
        }
        if is_missing(&item, excluded) {
            proof {
                let longer = listing::places((k + 1) as nat, holds);
                assert(longer.map_values(at) =~= places.map_values(at).push(view));
                vstd::seq_lib::to_multiset_build(places.map_values(at), view);
            }
            match sort {
                None => {
                    missing.push(item);
                    assert(stored_views(missing@) =~= before.push(view));
                },
                Some(order) => {
                    insert_item(&mut missing, item, order);
                },
            }
        }
    }
    missing
}

/// The fields of an item's row: digest, timestamp (Unix seconds), SURT, original URL.
pub open spec fn item_row(item: StoredView) -> Seq<Seq<char>> {
    seq![item.digest_str, integer::signed_text(item.timestamp_secs), item.surt, item.original]
}

/// Writes an item as a row of comma-separated values: digest, timestamp (Unix seconds), SURT, original
/// URL.
pub fn write_item(item: &StoredItem, output: &mut String)
    ensures
        final(output)@ == old(output)@ + tabular::csv_line(item_row(item@)),
{
    let mut secs: Vec<char> = Vec::new();
    push_signed(&mut secs, item.timestamp_secs);
    let mut row: Vec<String> = Vec::new();
    row.push(item.digest_str.clone());
    row.push(string_of(&secs));
    row.push(item.surt.clone());
    row.push(item.original.clone());
    proof {
        assert(secs@ =~= integer::signed_text(item@.timestamp_secs));
        assert(lines::string_views(row@) =~= item_row(item@));
    }
    append(output, row_line(&row).as_str());
}

/// Whether a capture record can be recorded as metadata: its digest is valid and its URL short enough.
pub open spec fn is_recordable(item: Item) -> bool {
    item.digest is Valid && vstd::utf8::encode_utf8(item.original@).len() <= u16::MAX
}

/// Whether a capture is that of a record.
pub open spec fn is_capture_of(capture: Capture, item: Item) -> bool {
    &&& item.digest matches Digest::Valid(digest) && capture.digest@ == digest@
    &&& capture.timestamp@ == item.timestamp@
    &&& capture.original@ == item.original@
}

/// Whether a record can be recorded under a digest.
pub open spec fn is_record_of(item: Item, digest: nat) -> bool {
    is_recordable(item) && (item.digest matches Digest::Valid(valid) && valid@ == digest)
}

/// Whether a record of a digest can be recorded.
pub open spec fn has_recordable(items: Seq<Item>, digest: nat) -> bool {
    exists|i: int| 0 <= i < items.len() && is_record_of(#[trigger] items[i], digest)
}

/// The captures that records stand for. Records without a valid digest, and those whose URL is too long
/// to be stored, are left out.
pub fn recordable_captures(items: &Vec<Item>) -> (captures: Vec<Capture>)
    ensures
        ({
            let places = listing::places(items@.len(), |i: int| is_recordable(items@[i]));
            &&& captures@.len() == places.len()
            &&& forall|k: int|
                0 <= k < captures@.len() ==> is_capture_of(
                    #[trigger] captures@[k],
                    items@[places[k]],
                )
        }),
        captures@.len() <= items@.len(),
        metadata::has_short_urls(captures@),
{
    let ghost holds = |i: int| is_recordable(items@[i]);
    let mut captures: Vec<Capture> = Vec::new();
    let mut k: usize = 0;
    while k < items.len()
        invariant
            k <= items@.len(),
            holds == (|i: int| is_recordable(items@[i])),
            captures@.len() <= k,
            captures@.len() == listing::places(k as nat, holds).len(),
            forall|j: int|
                0 <= j < captures@.len() ==> is_capture_of(
                    #[trigger] captures@[j],
                    items@[listing::places(k as nat, holds)[j]],
                ),
            metadata::has_short_urls(captures@),
        decreases items@.len() - k,
    {
        let item = &items[k];
        let ghost earlier = captures@;
        let ghost places = listing::places(k as nat, holds);
        assert(holds(k as int) == is_recordable(items@[k as int]));
        if let Digest::Valid(digest) = &item.digest {
            if item.original.as_str().as_bytes().len() <= 65_535 {
                captures.push(
                    Capture {
                        digest: *digest,
                        timestamp: item.timestamp,
                        original: item.original.clone(),
                    },
                );
                proof {
                    let longer = listing::places((k + 1) as nat, holds);
                    assert(longer == places.push(k as int));
                    assert forall|j: int| 0 <= j < captures@.len() implies is_capture_of(
                        #[trigger] captures@[j],
                        items@[longer[j]],
                    ) by {
                        if j < earlier.len() {
                            assert(is_capture_of(earlier[j], items@[places[j]]));
                        }
                    }
                    assert forall|j: int| 0 <= j < captures@.len() implies metadata::url_bytes(
                        #[trigger] captures@[j],
                    ).len() <= u16::MAX by {
                        if j < earlier.len() {
                            assert(metadata::url_bytes(earlier[j]).len() <= u16::MAX);
                        }
                    }
                }
            }
        }
        k = k + 1;
    }
    captures
}

/// What was done with the records of one file.
#[derive(Clone, Copy, Debug, PartialEq, Eq, Structural)]
pub struct FillCounts {
    /// The captures that were recorded.
    pub inserted: usize,
    /// The records that were left out.
    pub invalid: usize,
}

/// Records the capture records of one file as metadata, in one batch: those without a valid digest
/// (routine in CDX data) and those whose URL is too long to be stored are left out.
pub fn fill_metadata(store: &mut MetadataDb, items: &Vec<Item>) -> (result: Result<
    FillCounts,
    captures::Error,
>)
    ensures
        ({
            let places = listing::places(items@.len(), |i: int| is_recordable(items@[i]));
            match result {
                Ok(counts) => {
                    &&& counts.inserted == places.len()
                    &&& counts.inserted + counts.invalid == items@.len()
                    &&& exists|batch: Seq<Capture>|
                        {
                            &&& batch.len() == places.len()
                            &&& forall|k: int|
                                0 <= k < batch.len() ==> is_capture_of(
                                    #[trigger] batch[k],
                                    items@[places[k]],
                                )
                            &&& #[trigger] metadata::is_recorded(final(store)@, old(store)@, batch)
                        }
                },
                Err(error) => {
                    &&& error is DecodeTruncatedEntry
                    &&& final(store)@ == old(store)@
                    &&& exists|digest: nat|
                        has_recordable(items@, digest) && !#[trigger] metadata::raw_is_some(
                            metadata::stored_for(old(store)@, digest),
                        )
                },
            }
        }),
{
    let batch = recordable_captures(items);
    let inserted: usize = batch.len();
    let result = store.insert_batch(&batch);
    match result {
        Ok(_) => Ok(FillCounts { inserted, invalid: items.len() - inserted }),
        Err(error) => {
            proof {
                let places = listing::places(items@.len(), |i: int| is_recordable(items@[i]));
                let holds = |i: int| is_recordable(items@[i]);
                listing::lemma_places(items@.len(), holds);
                let digest = choose|digest: nat|
                    metadata::has_digest(batch@, digest) && !#[trigger] metadata::raw_is_some(
                        metadata::stored_for(old(store)@, digest),
                    );
                let k = choose|k: int| 0 <= k < batch@.len() && (#[trigger] batch@[k]).digest@
                    == digest;
                assert(is_capture_of(batch@[k], items@[places[k]]));
                assert(holds(places[k]));
                assert(is_record_of(items@[places[k]], digest));
                assert(has_recordable(items@, digest));
            }
            Err(error)
        },
    }
}

/// What was done with the items of an index.
#[derive(Clone, Copy, Debug, PartialEq, Eq, Structural)]
pub struct ImportCounts {
    /// The captures that were recorded.
    pub inserted: usize,
    /// The items without a valid digest that were left out.
    pub skipped: usize,
}

/// A failure to import an item.
#[derive(Debug, PartialEq, Eq)]
pub enum ImportError {
    /// A stored timestamp is outside the representable range.
    Timestamp(timestamp::Error),
    /// The capture cannot be recorded.
    Metadata(captures::Error),
}

/// Whether stored values are those before with one item recorded.
pub open spec fn is_item_recorded(
    values: Map<nat, Seq<u8>>,
    before: Map<nat, Seq<u8>>,
    item: StoredView,
) -> bool {
    match item.digest {
        None => values == before,
        Some(digest) => {
            let url = vstd::utf8::encode_utf8(item.original);
            &&& timestamp::is_supported(item.timestamp_secs)
            &&& url.len() <= u16::MAX
            &&& values.dom() == before.dom().insert(digest)
            &&& metadata::is_updated(
                values[digest],
                metadata::stored_for(before, digest),
                seq![(item.timestamp_secs, url)],
            )
            &&& values.remove(digest) == before.remove(digest)
        },
    }
}

/// Whether the stored values went through these states, one item after the other.
pub open spec fn is_import(states: Seq<Map<nat, Seq<u8>>>, items: Seq<StoredView>) -> bool {
    &&& states.len() > 0
    &&& states.len() <= items.len() + 1
    &&& forall|i: int|
        0 <= i < states.len() - 1 ==> is_item_recorded(
            states[i + 1],
            #[trigger] states[i],
            items[i],
        )
}

/// Whether an item cannot be recorded over stored values.
pub open spec fn is_refused(item: StoredView, values: Map<nat, Seq<u8>>, error: ImportError) -> bool {
    let url = vstd::utf8::encode_utf8(item.original);
    item.digest matches Some(digest) && match error {
        ImportError::Timestamp(timestamp::Error::InvalidTimestampI64(secs)) => secs
            == item.timestamp_secs && !timestamp::is_supported(item.timestamp_secs),
        ImportError::Timestamp(_) => false,
        ImportError::Metadata(captures::Error::EncodeUrlTooLong(len)) => timestamp::is_supported(
            item.timestamp_secs,
        ) && url.len() > u16::MAX && len == url.len(),
        ImportError::Metadata(captures::Error::DecodeTruncatedEntry) => timestamp::is_supported(
            item.timestamp_secs,
        ) && url.len() <= u16::MAX && !metadata::raw_is_some(metadata::stored_for(values, digest)),
        ImportError::Metadata(_) => false,
    }
}

/// The number of the first `n` items that have a valid digest.
pub open spec fn valid_count(items: Seq<StoredView>, n: nat) -> nat {
    listing::places(n, |i: int| items[i].digest is Some).len()
}

/// Records every item that has a valid digest as a capture, one after the other. An item that cannot be
/// recorded stops the import.
pub fn import_metadata(store: &mut MetadataDb, items: &Vec<StoredItem>) -> (result: Result<
    ImportCounts,
    ImportError,
>)
    ensures
        ({
            let views = stored_views(items@);
            exists|states: Seq<Map<nat, Seq<u8>>>|
                {
                    &&& #[trigger] is_import(states, views)
                    &&& states[0] == old(store)@
                    &&& states.last() == final(store)@
                    &&& match result {
                        Ok(counts) => {
                            &&& states.len() == views.len() + 1
                            &&& counts.inserted == valid_count(views, views.len())
                            &&& counts.inserted + counts.skipped == views.len()
                        },
                        Err(error) => {
                            &&& states.len() <= views.len()
                            &&& is_refused(views[states.len() - 1], final(store)@, error)
                        },
                    }
                }
        }),
{
    let ghost views = stored_views(items@);
    let ghost holds = |i: int| views[i].digest is Some;
    let ghost mut states: Seq<Map<nat, Seq<u8>>> = seq![store@];
    let mut inserted: usize = 0;
    let mut skipped: usize = 0;
    let mut k: usize = 0;
    while k < items.len()
        invariant
            k <= items@.len(),
            views == stored_views(items@),
            holds == (|i: int| views[i].digest is Some),
            states.len() == k + 1,
            is_import(states, views),
            states[0] == old(store)@,
            states.last() == store@,
            inserted == listing::places(k as nat, holds).len(),
            inserted + skipped == k,
        decreases items@.len() - k,
    {
        let item = &items[k];
        let ghost earlier = states;
        let ghost before = store@;
        assert(views[k as int] == item@);
        assert(holds(k as int) == (item@.digest is Some));
        match item.digest {
            None => {
                skipped = skipped + 1;
            },
            Some(digest) => {
                let timestamp = match Timestamp::from_secs(item.timestamp_secs) {
                    Ok(timestamp) => timestamp,
                    Err(error) => {
                        assert(is_import(states, views));
                        return Err(ImportError::Timestamp(error));
                    },
                };
                match store.insert(digest, timestamp, item.original.as_str()) {
                    Ok(_) => {},
                    Err(error) => {
                        assert(is_import(states, views));
                        return Err(ImportError::Metadata(error));
                    },
                }
                inserted = inserted + 1;
            },
        }
        proof {
            states = states.push(store@);
            assert(is_item_recorded(store@, before, views[k as int]));
            assert forall|i: int| 0 <= i < states.len() - 1 implies is_item_recorded(
                states[i + 1],
                #[trigger] states[i],
                views[i],
            ) by {
                if i < k {
                    assert(is_item_recorded(earlier[i + 1], earlier[i], views[i]));
                }
            }
        }
        k = k + 1;
    }
    assert(is_import(states, views));
    Ok(ImportCounts { inserted, skipped })
}

/// What is missing is exactly the items with a digest that is not excluded, in their order, each as often as it
/// is listed.
pub proof fn law_missing_items_are_kept(items: Seq<StoredView>, excluded: Set<nat>)
    ensures
        missing_views(items, items.len(), excluded) == items.filter(
            |item: StoredView| item.digest is Some && !excluded.contains(item.digest.unwrap()),
        ),
{
    lemma_missing_views(items, items.len(), excluded);
    assert(items.take(items.len() as int) =~= items);
}

/// The missing items among the first.
proof fn lemma_missing_views(items: Seq<StoredView>, n: nat, excluded: Set<nat>)
    requires
        n <= items.len(),
    ensures
        missing_views(items, n, excluded) == items.take(n as int).filter(
            |item: StoredView| item.digest is Some && !excluded.contains(item.digest.unwrap()),
        ),
    decreases n,
{
    reveal(Seq::filter);
    if n > 0 {
        let before = (n - 1) as nat;
        lemma_missing_views(items, before, excluded);
        assert(items.take(n as int).drop_last() =~= items.take(before as int));
        let holds = |i: int| lacks_content(items[i], excluded);
        let item = |i: int| items[i];
        if holds(n - 1) {
            assert(listing::places(n, holds).map_values(item) =~= listing::places(
                before,
                holds,
            ).map_values(item).push(items[n - 1]));
        }
    } else {
        assert(missing_views(items, n, excluded) =~= items.take(0));
    }
}

/// Items are sorted by their timestamps: from the earliest on, or from the latest on.
pub proof fn law_items_are_sorted_by_time(items: Seq<StoredView>, order: SortOrder, i: int, j: int)
    requires
        0 <= i < j < items.len(),
        is_ordered(items, order),
    ensures
        order is Asc ==> items[i].timestamp_secs <= items[j].timestamp_secs,
        order is Desc ==> items[i].timestamp_secs >= items[j].timestamp_secs,
{
    assert(!precedes(items[j], items[i], order));
}

/// A listed line excludes the digest that it holds between white space. One that holds no digest is counted as
/// skipped unless it is blank.
pub proof fn law_listed_lines_exclude(all: Seq<Seq<char>>, digest: nat)
    ensures
        listed_digests(all).contains(digest) <==> exists|i: int|
            {
                &&& 0 <= i < all.len()
                &&& digest::is_digest_text(text::trimmed(#[trigger] all[i]))
                &&& digest::digest_value(text::trimmed(all[i])) == digest
            },
        forall|i: int|
            0 <= i < all.len() ==> (is_invalid_listing(#[trigger] all[i]) <==> text::trimmed(
                all[i],
            ).len() > 0 && !digest::is_digest_text(text::trimmed(all[i]))),
{
    if exists|i: int| 0 <= i < all.len() && lists_digest(#[trigger] all[i], digest) {
        let i = choose|i: int| 0 <= i < all.len() && lists_digest(#[trigger] all[i], digest);
        assert(digest::is_digest_text(text::trimmed(all[i])));
    }
    assert forall|i: int|
        {
            &&& 0 <= i < all.len()
            &&& digest::is_digest_text(text::trimmed(#[trigger] all[i]))
            &&& digest::digest_value(text::trimmed(all[i])) == digest
        } implies lists_digest(all[i], digest) by {}
}

/// An item is listed by its digest as it was given, its time in seconds, its SURT and its URL.
pub proof fn law_item_rows(item: StoredView)
    requires
        i64::MIN <= item.timestamp_secs <= i64::MAX,
    ensures
        item_row(item).len() == 4,
        item_row(item)[0] == item.digest_str,
        integer::integer_value(item_row(item)[1]) == Some(item.timestamp_secs),
        item_row(item)[2] == item.surt,
        item_row(item)[3] == item.original,
{
    integer::law_integer_reads_back(item.timestamp_secs);
}

/// An entry can be recorded exactly if its digest is valid and its URL takes no more than 65,535 bytes.
pub proof fn law_which_entries_are_recordable(item: Item)
    ensures
        is_recordable(item) <==> item.digest is Valid && vstd::utf8::encode_utf8(
            item.original@,
        ).len() < 0x1_0000,
{
}

/// The digests of snapshots are excluded by the lines that hold them, and lines that hold none are passed over.
pub proof fn law_snapshot_lines_exclude(all: Seq<Seq<char>>, digest: nat)
    ensures
        snapshot_digests(all).contains(digest) <==> exists|i: int|
            {
                &&& 0 <= i < all.len()
                &&& crate::exact::parse_line(#[trigger] all[i]) matches Some(view)
                &&& view.digest == digest
            },
{
    reveal(verify_lines::view_of);
    if snapshot_digests(all).contains(digest) {
        let i = choose|i: int| 0 <= i < all.len() && has_digest(#[trigger] all[i], digest);
        assert(crate::exact::parse_line(all[i]) is Some);
    }
    assert forall|i: int|
        {
            &&& 0 <= i < all.len()
            &&& crate::exact::parse_line(#[trigger] all[i]) matches Some(view)
            &&& view.digest == digest
        } implies has_digest(all[i], digest) by {}
}

/// An item is imported under its digest: the captures there are those before and its own, and nothing else
/// changes. One without a digest changes nothing.
pub proof fn law_items_are_imported(
    values: Map<nat, Seq<u8>>,
    before: Map<nat, Seq<u8>>,
    item: StoredView,
    other: nat,
)
    requires
        is_item_recorded(values, before, item),
        item.digest != Some(other),
    ensures
        item.digest is None ==> values == before,
        values.contains_key(other) == before.contains_key(other),
        values.contains_key(other) ==> values[other] == before[other],
        item.digest matches Some(digest) ==> {
            let entry = (item.timestamp_secs, vstd::utf8::encode_utf8(item.original));
            let stored = captures::raw_entries(metadata::stored_for(before, digest));
            let found = captures::raw_entries(values[digest]);
            &&& values.contains_key(digest)
            &&& stored is Some
            &&& found is Some
            &&& found.unwrap().to_set() == stored.unwrap().to_set().insert(entry)
            &&& captures::is_ascending(found.unwrap())
        },
{
    if let Some(digest) = item.digest {
        let entry = (item.timestamp_secs, vstd::utf8::encode_utf8(item.original));
        let stored = captures::raw_entries(metadata::stored_for(before, digest)).unwrap();
        let found = captures::raw_entries(values[digest]).unwrap();
        assert(seq![entry].to_set() =~= set![entry]) by {
            assert forall|x: (int, Seq<u8>)| #[trigger] seq![entry].contains(x) == (x == entry) by {
                assert(seq![entry][0] == entry);
            }
        }
        assert(stored.to_set().union(set![entry]) =~= stored.to_set().insert(entry));
        if values.contains_key(other) {
            assert(values.remove(digest)[other] == values[other]);
        }
        assert(values.dom().contains(other) == before.dom().contains(other));
        if before.contains_key(other) {
            assert(before.remove(digest)[other] == before[other]);
        }
    }
}

/// Importing stops at the first item with a digest whose time is not supported, whose URL is too long or whose
/// stored captures cannot be read, and says which.
pub proof fn law_refused_imports(item: StoredView, values: Map<nat, Seq<u8>>, error: ImportError)
    requires
        is_refused(item, values, error),
    ensures
        item.digest is Some,
        error is Timestamp <==> !timestamp::is_supported(item.timestamp_secs),
        error matches ImportError::Metadata(captures::Error::EncodeUrlTooLong(len)) ==> len
            == vstd::utf8::encode_utf8(item.original).len() && len > 0xffff,
        error matches ImportError::Metadata(captures::Error::DecodeTruncatedEntry)
            ==> captures::raw_entries(metadata::stored_for(values, item.digest.unwrap())) is None,
{
}

/// A stored item is seen by its fields.
pub proof fn law_stored_items_are_seen_whole(items: Seq<StoredItem>, i: int)
    requires
        0 <= i < items.len(),
    ensures
        ({
            let item = items[i];
            let view = stored_views(items)[i];
            &&& stored_views(items).len() == items.len()
            &&& view.surt == item.surt@
            &&& view.timestamp_secs == item.timestamp_secs
            &&& view.original == item.original@
            &&& view.digest_str == item.digest_str@
            &&& item.digest matches Some(digest) ==> view.digest == Some(digest@)
            &&& item.digest is None ==> view.digest is None
        }),
{
}

/// Listed digests are excluded beside those that were, and the lines that are neither blank nor digests are
/// counted.
pub proof fn law_listed_digests_are_excluded(
    excluded: &mut DigestTable<()>,
    all: &Vec<String>,
    skipped: usize,
    digest: nat,
)
    requires
        call_ensures(exclude_listed, (excluded, all), skipped),
    ensures
        final(excluded)@.contains_key(digest) <==> old(excluded)@.contains_key(digest)
            || listed_digests(lines::string_views(all@)).contains(digest),
        skipped == listing::places(
            all@.len(),
            |i: int| is_invalid_listing(lines::string_views(all@)[i]),
        ).len(),
{
    assert(final(excluded)@.dom().contains(digest) == final(excluded)@.contains_key(digest));
    assert(old(excluded)@.dom().contains(digest) == old(excluded)@.contains_key(digest));
}

/// The digests of snapshots are excluded beside those that were.
pub proof fn law_snapshots_are_excluded(
    excluded: &mut DigestTable<()>,
    all: &Vec<String>,
    skipped: usize,
    digest: nat,
)
    requires
        call_ensures(exclude_snapshots, (excluded, all), skipped),
    ensures
        final(excluded)@.contains_key(digest) <==> old(excluded)@.contains_key(digest)
            || snapshot_digests(lines::string_views(all@)).contains(digest),
{
    assert(final(excluded)@.dom().contains(digest) == final(excluded)@.contains_key(digest));
    assert(old(excluded)@.dom().contains(digest) == old(excluded)@.contains_key(digest));
}

} // verus!
