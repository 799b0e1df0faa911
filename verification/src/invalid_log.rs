//! A log of invalid digests and withheld URLs.
//!
//! Tracks two types of issues encountered when working with the Wayback Machine: captures whose
//! content does not have the digest that the CDX index declares, and URLs that are withheld from the
//! archive.
use vstd::prelude::*;

use crate::digest;
use crate::digest::{Digest, Sha1Digest};
use crate::digest_table::DigestTable;
use crate::item::ItemInfo;
use crate::listing;
use crate::text::{borrow_str, own_cow, same_str};
use crate::timestamp;

verus! {

/// A Wayback Machine download with a digest mismatch: the item information (URL and expected digest)
/// along with the actual digest computed from the downloaded content.
#[derive(Debug, PartialEq, Eq)]
pub struct Entry<'a> {
    /// The Wayback Machine item information, including URL and expected digest.
    pub item_info: ItemInfo<'a>,
    /// The actual SHA-1 digest computed from the downloaded content.
    pub actual_digest: Sha1Digest,
}

/// What identifies a digest mismatch.
#[verifier::ext_equal]
pub struct EntryView {
    /// The URL.
    pub url: Seq<char>,
    /// The capture timestamp.
    pub timestamp: int,
    /// The expected digest, as it is written.
    pub expected: Seq<char>,
    /// The actual digest.
    pub actual: nat,
}

impl<'a> View for Entry<'a> {
    type V = EntryView;

    open spec fn view(&self) -> EntryView {
        EntryView {
            url: self.item_info.url_parts.url@,
            timestamp: self.item_info.url_parts.timestamp@,
            expected: self.item_info.expected_digest.text(),
            actual: self.actual_digest@,
        }
    }
}

impl<'a> Entry<'a> {
    /// Creates a new entry with the given item information and actual digest.
    pub fn new(item_info: ItemInfo<'a>, actual_digest: Sha1Digest) -> (entry: Self)
        ensures
            entry.item_info == item_info,
            entry.actual_digest == actual_digest,
    {
        Entry { item_info, actual_digest }
    }

    /// The same entry, holding copies of its texts.
    pub fn to_static(&self) -> (copy: Entry<'static>)
        ensures
            copy@ == self@,
    {
        let expected_digest = match &self.item_info.expected_digest {
            Digest::Valid(digest) => Digest::Valid(*digest),
            Digest::Invalid(text) => Digest::Invalid(own_cow(text)),
        };
        Entry {
            item_info: ItemInfo::new(self.item_info.url_parts.to_static(), expected_digest),
            actual_digest: self.actual_digest,
        }
    }

    /// Whether two entries identify the same mismatch.
    pub fn is_same(&self, other: &Entry<'_>) -> (same: bool)
        ensures
            same == (self@ == other@),
    {
        let expected = self.item_info.expected_digest.to_string();
        let other_expected = other.item_info.expected_digest.to_string();
        proof {
            digest::lemma_digest_unique(self.actual_digest, other.actual_digest);
            timestamp::lemma_timestamp_unique(
                self.item_info.url_parts.timestamp,
                other.item_info.url_parts.timestamp,
            );
        }
        let same = self.actual_digest == other.actual_digest && self.item_info.url_parts.timestamp
            == other.item_info.url_parts.timestamp && same_str(
            borrow_str(&self.item_info.url_parts.url),
            borrow_str(&other.item_info.url_parts.url),
        ) && same_str(expected.as_str(), other_expected.as_str());
        assert(same ==> self@ =~= other@);
        same
    }
}

/// A complete record of a digest mismatch: an observed [`Entry`] together with when it was observed,
/// in seconds since the start of 1970.
#[derive(Debug, PartialEq, Eq)]
pub struct InvalidDigestRecord<'a> {
    /// When the invalidity was observed.
    pub observed: i64,
    /// The observed entry (archived item plus the actual digest).
    pub entry: Entry<'a>,
}

/// A complete record of a withheld URL: a URL together with when its withheld status was observed, in
/// seconds since the start of 1970.
#[derive(Debug, PartialEq, Eq)]
pub struct WithheldRecord {
    /// When the withheld status was observed.
    pub observed: i64,
    /// The withheld URL.
    pub url: String,
}

/// The full contents of a log.
#[derive(Debug, PartialEq, Eq)]
pub struct Export {
    /// Every digest mismatch, ordered by observation time.
    pub invalid_digests: Vec<InvalidDigestRecord<'static>>,
    /// Every withheld URL, ordered by observation time.
    pub withheld_urls: Vec<WithheldRecord>,
}

/// What a log holds: when each digest mismatch was observed, and which URL was withheld when.
#[verifier::ext_equal]
pub struct LogView {
    /// When each digest mismatch was observed.
    pub invalid: Map<EntryView, int>,
    /// The withheld URLs with the times at which that was observed.
    pub withheld: Set<(Seq<char>, int)>,
}

/// Observations of digest mismatches, as numbers and texts.
pub open spec fn invalid_views(records: Seq<InvalidDigestRecord<'static>>) -> Seq<(EntryView, int)> {
    records.map_values(
        |record: InvalidDigestRecord<'static>| (record.entry@, record.observed as int),
    )
}

/// Observations of withheld URLs, as numbers and texts.
pub open spec fn withheld_views(records: Seq<WithheldRecord>) -> Seq<(Seq<char>, int)> {
    records.map_values(|record: WithheldRecord| (record.url@, record.observed as int))
}

/// The mismatches by when they were observed.
pub open spec fn invalid_map(rows: Seq<(EntryView, int)>) -> Map<EntryView, int>
    decreases rows.len(),
{
    if rows.len() == 0 {
        Map::empty()
    } else {
        invalid_map(rows.drop_last()).insert(rows.last().0, rows.last().1)
    }
}

/// Whether no mismatch stands in two rows.
pub open spec fn are_distinct(rows: Seq<(EntryView, int)>) -> bool {
    forall|i: int, j: int|
        0 <= i < j < rows.len() ==> (#[trigger] rows[i]).0 != (#[trigger] rows[j]).0
}

/// Rows without repetition are found in the map.
proof fn lemma_invalid_map(rows: Seq<(EntryView, int)>)
    requires
        are_distinct(rows),
    ensures
        forall|i: int|
            0 <= i < rows.len() ==> #[trigger] invalid_map(rows).contains_key(rows[i].0)
                && invalid_map(rows)[rows[i].0] == rows[i].1,
        forall|entry: EntryView| #[trigger]
            invalid_map(rows).contains_key(entry) ==> exists|i: int|
                0 <= i < rows.len() && (#[trigger] rows[i]).0 == entry,
    decreases rows.len(),
{
    if rows.len() > 0 {
        let front = rows.drop_last();
        let last = rows.len() - 1;
        assert(are_distinct(front)) by {
            assert forall|i: int, j: int| 0 <= i < j < front.len() implies (#[trigger] front[i]).0
                != (#[trigger] front[j]).0 by {
                assert(rows[i].0 != rows[j].0);
            }
        }
        lemma_invalid_map(front);
        assert forall|i: int| 0 <= i < rows.len() implies #[trigger] invalid_map(rows).contains_key(
            rows[i].0,
        ) && invalid_map(rows)[rows[i].0] == rows[i].1 by {
            if i < last {
                assert(front[i] == rows[i]);
                assert(invalid_map(front).contains_key(front[i].0));
                assert(rows[i].0 != rows[last].0);
            }
        }
        assert forall|entry: EntryView| #[trigger] invalid_map(rows).contains_key(
            entry,
        ) implies exists|i: int| 0 <= i < rows.len() && (#[trigger] rows[i]).0 == entry by {
            if entry == rows[last].0 {
                assert(rows[last].0 == entry);
            } else {
                assert(invalid_map(front).contains_key(entry));
                let i = choose|i: int| 0 <= i < front.len() && (#[trigger] front[i]).0 == entry;
                assert(rows[i].0 == entry);
            }
        }
    }
}

/// Rows without repetition make the map that they are the entries of.
proof fn lemma_is_map(rows: Seq<(EntryView, int)>, map: Map<EntryView, int>)
    requires
        are_distinct(rows),
        forall|i: int|
            0 <= i < rows.len() ==> #[trigger] map.contains_key(rows[i].0) && map[rows[i].0]
                == rows[i].1,
        forall|entry: EntryView| #[trigger]
            map.contains_key(entry) ==> exists|i: int|
                0 <= i < rows.len() && (#[trigger] rows[i]).0 == entry,
    ensures
        invalid_map(rows) == map,
{
    lemma_invalid_map(rows);
    assert forall|entry: EntryView| #[trigger] map.contains_key(entry) implies invalid_map(
        rows,
    ).contains_key(entry) && invalid_map(rows)[entry] == map[entry] by {
        let i = choose|i: int| 0 <= i < rows.len() && (#[trigger] rows[i]).0 == entry;
        assert(invalid_map(rows).contains_key(rows[i].0));
        assert(map.contains_key(rows[i].0));
    }
    assert forall|entry: EntryView| #[trigger] invalid_map(rows).contains_key(
        entry,
    ) implies map.contains_key(entry) by {
        let i = choose|i: int| 0 <= i < rows.len() && (#[trigger] rows[i]).0 == entry;
        assert(map.contains_key(rows[i].0));
    }
    assert(invalid_map(rows) =~= map);
}

/// A log of digest mismatches and withheld URLs. Each mismatch is held once, and each URL once for
/// each time at which it was observed.
#[derive(Debug)]
pub struct Database {
    invalid: Vec<InvalidDigestRecord<'static>>,
    withheld: Vec<WithheldRecord>,
}

impl View for Database {
    type V = LogView;

    closed spec fn view(&self) -> LogView {
        LogView {
            invalid: invalid_map(invalid_views(self.invalid@)),
            withheld: withheld_views(self.withheld@).to_set(),
        }
    }
}

impl LogView {
    /// The log with a mismatch that is new to it.
    pub open spec fn with_invalid(self, entry: EntryView, observed: int) -> LogView {
        if self.invalid.contains_key(entry) {
            self
        } else {
            LogView { invalid: self.invalid.insert(entry, observed), ..self }
        }
    }

    /// The log with a mismatch, or with the earlier observation of one that it holds.
    pub open spec fn with_earliest(self, entry: EntryView, observed: int) -> LogView {
        if self.invalid.contains_key(entry) && self.invalid[entry] <= observed {
            self
        } else {
            LogView { invalid: self.invalid.insert(entry, observed), ..self }
        }
    }

    /// The log with a withheld URL.
    pub open spec fn with_withheld(self, url: Seq<char>, observed: int) -> LogView {
        LogView { withheld: self.withheld.insert((url, observed)), ..self }
    }

    /// The log with mismatches that are new to it.
    pub open spec fn with_all_invalid(self, rows: Seq<(EntryView, int)>) -> LogView
        decreases rows.len(),
    {
        if rows.len() == 0 {
            self
        } else {
            self.with_all_invalid(rows.drop_last()).with_invalid(rows.last().0, rows.last().1)
        }
    }

    /// The log with another log: mismatches of either, each with its earlier observation, and the
    /// withheld URLs of both.
    pub open spec fn merged(self, other: LogView) -> LogView {
        LogView {
            invalid: Map::new(
                |entry: EntryView|
                    self.invalid.contains_key(entry) || other.invalid.contains_key(entry),
                |entry: EntryView|
                    if !other.invalid.contains_key(entry) || (self.invalid.contains_key(entry)
                        && self.invalid[entry] <= other.invalid[entry]) {
                        self.invalid[entry]
                    } else {
                        other.invalid[entry]
                    },
            ),
            withheld: self.withheld.union(other.withheld),
        }
    }
}

/// Merging a log with itself changes nothing.
pub proof fn law_merge_with_self(log: LogView)
    ensures
        log.merged(log) == log,
{
    assert(log.merged(log) =~= log);
}

/// Of two logs, either can be merged into the other.
pub proof fn law_merge_commutes(a: LogView, b: LogView)
    ensures
        a.merged(b) == b.merged(a),
{
    assert(a.merged(b) =~= b.merged(a));
}

/// Logs can be merged in any grouping.
pub proof fn law_merge_associates(a: LogView, b: LogView, c: LogView)
    ensures
        a.merged(b).merged(c) == a.merged(b.merged(c)),
{
    assert(a.merged(b).merged(c) =~= a.merged(b.merged(c)));
}

/// Whether rows list the mismatches of a log that were observed at or after a time, sorted by when
/// they were observed.
pub open spec fn lists_invalid(
    rows: Seq<(EntryView, int)>,
    invalid: Map<EntryView, int>,
    from: Option<int>,
) -> bool {
    &&& are_distinct(rows)
    &&& listing::is_by_time(rows)
    &&& forall|i: int|
        0 <= i < rows.len() ==> invalid.contains_key((#[trigger] rows[i]).0) && invalid[rows[i].0]
            == rows[i].1 && listing::is_from(rows[i].1, from)
    &&& forall|entry: EntryView| #[trigger]
        invalid.contains_key(entry) && listing::is_from(invalid[entry], from) ==> exists|i: int|
            0 <= i < rows.len() && (#[trigger] rows[i]).0 == entry
}

/// Whether rows list the withheld URLs of a log that were observed at or after a time, sorted by when
/// they were observed, each once.
pub open spec fn lists_withheld(
    rows: Seq<(Seq<char>, int)>,
    withheld: Set<(Seq<char>, int)>,
    from: Option<int>,
) -> bool {
    &&& rows.no_duplicates()
    &&& listing::is_by_time(rows)
    &&& forall|row: (Seq<char>, int)| #[trigger]
        rows.contains(row) <==> withheld.contains(row) && listing::is_from(row.1, from)
}

/// A time as a number.
pub open spec fn time_view(from: Option<i64>) -> Option<int> {
    match from {
        Some(from) => Some(from as int),
        None => None,
    }
}

/// Whether a time is at or after another one, if there is one.
fn is_at_or_after(observed: i64, from: Option<i64>) -> (after: bool)
    ensures
        after == listing::is_from(observed as int, time_view(from)),
{
    match from {
        Some(from) => observed >= from,
        None => true,
    }
}

/// A log with no observations.
pub open spec fn empty_log() -> LogView {
    LogView { invalid: Map::empty(), withheld: Set::empty() }
}

impl Database {
    #[verifier::type_invariant]
    spec fn is_well_formed(self) -> bool {
        &&& are_distinct(invalid_views(self.invalid@))
        &&& withheld_views(self.withheld@).no_duplicates()
    }

    /// An empty log.
    pub fn in_memory() -> (database: Database)
        ensures
            database@ == empty_log(),
    {
        let invalid: Vec<InvalidDigestRecord<'static>> = Vec::new();
        let withheld: Vec<WithheldRecord> = Vec::new();
        proof {
            assert(invalid_views(invalid@) =~= Seq::empty());
            assert(withheld_views(withheld@) =~= Seq::empty());
            let none: Seq<(Seq<char>, int)> = Seq::empty();
            assert(none.to_set() =~= Set::empty());
        }
        Database { invalid, withheld }
    }

    /// The place of a mismatch.
    fn find_invalid(&self, entry: &Entry<'_>) -> (place: Option<usize>)
        ensures
            match place {
                Some(place) => {
                    &&& place < self.invalid@.len()
                    &&& self.invalid@[place as int].entry@ == entry@
                    &&& self@.invalid.contains_key(entry@)
                    &&& self@.invalid[entry@] == self.invalid@[place as int].observed
                },
                None => {
                    &&& !self@.invalid.contains_key(entry@)
                    &&& forall|i: int|
                        0 <= i < self.invalid@.len() ==> (#[trigger] self.invalid@[i]).entry@
                            != entry@
                },
            },
    {
        let ghost rows = invalid_views(self.invalid@);
        proof {
            use_type_invariant(self);
            lemma_invalid_map(rows);
        }
        let mut i: usize = 0;
        while i < self.invalid.len()
            invariant
                i <= self.invalid@.len(),
                rows == invalid_views(self.invalid@),
                self@.invalid == invalid_map(rows),
                forall|k: int|
                    0 <= k < rows.len() ==> #[trigger] invalid_map(rows).contains_key(rows[k].0)
                        && invalid_map(rows)[rows[k].0] == rows[k].1,
                forall|k: int|
                    0 <= k < i ==> (#[trigger] self.invalid@[k]).entry@ != entry@,
            decreases self.invalid@.len() - i,
        {
            if self.invalid[i].entry.is_same(entry) {
                assert(invalid_map(rows).contains_key(rows[i as int].0));
                return Some(i);
            }
            i = i + 1;
        }
        proof {
            if self@.invalid.contains_key(entry@) {
                let k = choose|k: int| 0 <= k < rows.len() && (#[trigger] rows[k]).0 == entry@;
                assert(self.invalid@[k].entry@ == entry@);
            }
        }
        None
    }

    /// Appends a mismatch that is new to the log.
    fn push_invalid(&mut self, entry: &Entry<'_>, observed: i64)
        requires
            !old(self)@.invalid.contains_key(entry@),
        ensures
            final(self)@ == (LogView {
                invalid: old(self)@.invalid.insert(entry@, observed as int),
                ..old(self)@
            }),
    {
        let ghost rows = invalid_views(self.invalid@);
        proof {
            use_type_invariant(&*self);
            lemma_invalid_map(rows);
        }
        let record = InvalidDigestRecord { observed, entry: entry.to_static() };
        let ghost row = (entry@, observed as int);
        let ghost before = self.invalid@;
        let mut invalid: Vec<InvalidDigestRecord<'static>> = Vec::new();
        let mut withheld: Vec<WithheldRecord> = Vec::new();
        std::mem::swap(&mut invalid, &mut self.invalid);
        std::mem::swap(&mut withheld, &mut self.withheld);
        invalid.push(record);
        proof {
            let next = invalid_views(invalid@);
            assert(next =~= rows.push(row));
            assert(next.drop_last() =~= rows);
            assert forall|i: int, j: int| 0 <= i < j < next.len() implies (#[trigger] next[i]).0 != (
            #[trigger] next[j]).0 by {
                if j < rows.len() {
                    assert(rows[i].0 != rows[j].0);
                } else {
                    assert(invalid_map(rows).contains_key(rows[i].0));
                }
            }
        }
        *self = Database { invalid, withheld };
    }

    /// Records a digest mismatch observed at a time.
    ///
    /// Returns `true` if it is new and `false` if the same URL, capture timestamp, expected digest,
    /// and actual digest are already recorded. A duplicate keeps its original observation time.
    pub fn insert_invalid_digest(&mut self, entry: &Entry<'_>, observed: i64) -> (inserted: bool)
        ensures
            inserted == !old(self)@.invalid.contains_key(entry@),
            final(self)@ == old(self)@.with_invalid(entry@, observed as int),
    {
        match self.find_invalid(entry) {
            Some(_) => false,
            None => {
                self.push_invalid(entry, observed);
                true
            },
        }
    }

    /// Records a digest mismatch, or the earlier observation of one that is recorded.
    fn merge_invalid_digest(&mut self, entry: &Entry<'_>, observed: i64)
        ensures
            final(self)@ == old(self)@.with_earliest(entry@, observed as int),
    {
        match self.find_invalid(entry) {
            Some(place) => {
                if observed < self.invalid[place].observed {
                    let ghost rows = invalid_views(self.invalid@);
                    let ghost expected = self@.invalid.insert(entry@, observed as int);
                    proof {
                        use_type_invariant(&*self);
                        lemma_invalid_map(rows);
                    }
                    let record = InvalidDigestRecord { observed, entry: entry.to_static() };
                    let ghost row = (entry@, observed as int);
                    let mut invalid: Vec<InvalidDigestRecord<'static>> = Vec::new();
                    let mut withheld: Vec<WithheldRecord> = Vec::new();
                    std::mem::swap(&mut invalid, &mut self.invalid);
                    std::mem::swap(&mut withheld, &mut self.withheld);
                    invalid.set(place, record);
                    proof {
                        let next = invalid_views(invalid@);
                        assert(next =~= rows.update(place as int, row));
                        assert forall|i: int, j: int| 0 <= i < j < next.len() implies (
                        #[trigger] next[i]).0 != (#[trigger] next[j]).0 by {
                            assert(rows[i].0 != rows[j].0);
                        }
                        assert forall|i: int| 0 <= i < next.len() implies #[trigger] expected.contains_key(
                            next[i].0,
                        ) && expected[next[i].0] == next[i].1 by {
                            assert(invalid_map(rows).contains_key(rows[i].0));
                            if i < place {
                                assert(rows[i].0 != rows[place as int].0);
                            } else if i > place {
                                assert(rows[place as int].0 != rows[i].0);
                            }
                        }
                        assert forall|e: EntryView| #[trigger] expected.contains_key(
                            e,
                        ) implies exists|i: int|
                            0 <= i < next.len() && (#[trigger] next[i]).0 == e by {
                            assert(invalid_map(rows).contains_key(e));
                            let i = choose|i: int|
                                0 <= i < rows.len() && (#[trigger] rows[i]).0 == e;
                            assert(next[i].0 == e);
                        }
                        lemma_is_map(next, expected);
                    }
                    *self = Database { invalid, withheld };
                }
            },
            None => self.push_invalid(entry, observed),
        }
    }

    /// Records a withheld URL observed at a time.
    ///
    /// Returns `true` for a new pair of URL and time and `false` for a duplicate. Observing the same
    /// URL at a different time is new.
    pub fn insert_withheld(&mut self, url: &str, observed: i64) -> (inserted: bool)
        ensures
            inserted == !old(self)@.withheld.contains((url@, observed as int)),
            final(self)@ == old(self)@.with_withheld(url@, observed as int),
    {
        let ghost rows = withheld_views(self.withheld@);
        let ghost row = (url@, observed as int);
        proof {
            use_type_invariant(&*self);
        }
        let mut i: usize = 0;
        while i < self.withheld.len()
            invariant
                i <= self.withheld@.len(),
                *self == *old(self),
                rows == withheld_views(self.withheld@),
                row == (url@, observed as int),
                forall|k: int| 0 <= k < i ==> #[trigger] rows[k] != row,
            decreases self.withheld@.len() - i,
        {
            let record = &self.withheld[i];
            assert(rows[i as int] == (record.url@, record.observed as int));
            if record.observed == observed && same_str(record.url.as_str(), url) {
                proof {
                    assert(rows.to_set().contains(rows[i as int]));
                    assert(rows.to_set().insert(row) =~= rows.to_set());
                }
                return false;
            }
            i = i + 1;
        }
        let mut invalid: Vec<InvalidDigestRecord<'static>> = Vec::new();
        let mut withheld: Vec<WithheldRecord> = Vec::new();
        std::mem::swap(&mut invalid, &mut self.invalid);
        std::mem::swap(&mut withheld, &mut self.withheld);
        withheld.push(WithheldRecord { observed, url: url.to_owned() });
        proof {
            let next = withheld_views(withheld@);
            assert(next =~= rows.push(row));
            assert(!rows.contains(row));
            lemma_set_push(rows, row);
            assert(next.no_duplicates()) by {
                assert forall|i: int, j: int|
                    0 <= i < next.len() && 0 <= j < next.len() && i != j implies next[i]
                    != next[j] by {
                    if i < rows.len() && j < rows.len() {
                        assert(rows[i] != rows[j]);
                    }
                }
            }
        }
        *self = Database { invalid, withheld };
        true
    }

    /// Reads the digest mismatches observed at or after a time, or all of them, ordered by when they
    /// were observed.
    pub fn invalid_digests(&self, from: Option<i64>) -> (rows: Vec<InvalidDigestRecord<'static>>)
        ensures
            lists_invalid(invalid_views(rows@), self@.invalid, time_view(from)),
    {
        let ghost all = invalid_views(self.invalid@);
        proof {
            use_type_invariant(self);
            lemma_invalid_map(all);
        }
        let mut rows: Vec<InvalidDigestRecord<'static>> = Vec::new();
        let mut n: usize = 0;
        assert(invalid_views(rows@) =~= listing::selected(all.take(0), time_view(from)));
        while n < self.invalid.len()
            invariant
                n <= self.invalid@.len(),
                all == invalid_views(self.invalid@),
                invalid_views(rows@) == listing::selected(all.take(n as int), time_view(from)),
            decreases self.invalid@.len() - n,
        {
            let record = &self.invalid[n];
            proof {
                assert(all[n as int] == (record.entry@, record.observed as int));
                assert(all.take(n + 1).drop_last() =~= all.take(n as int));
                assert(all.take(n + 1).last() == all[n as int]);
            }
            if is_at_or_after(record.observed, from) {
                insert_invalid_row(&mut rows, record);
            }
            n = n + 1;
        }
        proof {
            assert(all.take(n as int) =~= all);
            lemma_lists_invalid(all, time_view(from));
        }
        rows
    }

    /// Reads the withheld URLs observed at or after a time, or all of them, ordered by when they were
    /// observed.
    pub fn withheld_urls(&self, from: Option<i64>) -> (rows: Vec<WithheldRecord>)
        ensures
            lists_withheld(withheld_views(rows@), self@.withheld, time_view(from)),
    {
        let ghost all = withheld_views(self.withheld@);
        proof {
            use_type_invariant(self);
        }
        let mut rows: Vec<WithheldRecord> = Vec::new();
        let mut n: usize = 0;
        assert(withheld_views(rows@) =~= listing::selected(all.take(0), time_view(from)));
        while n < self.withheld.len()
            invariant
                n <= self.withheld@.len(),
                all == withheld_views(self.withheld@),
                withheld_views(rows@) == listing::selected(all.take(n as int), time_view(from)),
            decreases self.withheld@.len() - n,
        {
            let record = &self.withheld[n];
            proof {
                assert(all[n as int] == (record.url@, record.observed as int));
                assert(all.take(n + 1).drop_last() =~= all.take(n as int));
                assert(all.take(n + 1).last() == all[n as int]);
            }
            if is_at_or_after(record.observed, from) {
                insert_withheld_row(&mut rows, record);
            }
            n = n + 1;
        }
        proof {
            assert(all.take(n as int) =~= all);
            listing::lemma_selected(all, time_view(from));
        }
        rows
    }

    /// Merges the observations of another log into this one.
    ///
    /// A mismatch that both logs hold keeps the earlier of its two observation times. Every
    /// observation of a withheld URL that is new is added.
    pub fn merge(&mut self, other: &Database)
        ensures
            final(self)@ == old(self)@.merged(other@),
    {
        let ghost before = self@;
        let rows = other.invalid_digests(None);
        let urls = other.withheld_urls(None);
        let ghost views = invalid_views(rows@);
        let ghost url_views = withheld_views(urls@);
        let mut i: usize = 0;
        while i < rows.len()
            invariant
                i <= rows@.len(),
                views == invalid_views(rows@),
                lists_invalid(views, other@.invalid, None),
                self@.withheld == before.withheld,
                forall|entry: EntryView| #[trigger]
                    self@.invalid.contains_key(entry) <==> before.invalid.contains_key(entry) || (
                    exists|k: int| 0 <= k < i && (#[trigger] views[k]).0 == entry),
                forall|k: int|
                    0 <= k < i ==> self@.invalid[(#[trigger] views[k]).0] == (
                    if before.invalid.contains_key(views[k].0) && before.invalid[views[k].0]
                        <= views[k].1 {
                        before.invalid[views[k].0]
                    } else {
                        views[k].1
                    }),
                forall|entry: EntryView|
                    #![trigger self@.invalid[entry]]
                    (forall|k: int| 0 <= k < i ==> (#[trigger] views[k]).0 != entry)
                        ==> self@.invalid[entry] == before.invalid[entry],
            decreases rows@.len() - i,
        {
            let record = &rows[i];
            let ghost now = self@;
            proof {
                assert(views[i as int] == (record.entry@, record.observed as int));
                assert forall|k: int| 0 <= k < i implies (#[trigger] views[k]).0
                    != views[i as int].0 by {}
            }
            self.merge_invalid_digest(&record.entry, record.observed);
            proof {
                let key = views[i as int].0;
                assert(self@.invalid.contains_key(key));
                assert(self@.invalid[key] == if before.invalid.contains_key(key)
                    && before.invalid[key] <= views[i as int].1 {
                    before.invalid[key]
                } else {
                    views[i as int].1
                });
                assert forall|entry: EntryView| #[trigger] self@.invalid.contains_key(entry)
                    <==> before.invalid.contains_key(entry) || (exists|k: int|
                    0 <= k < i + 1 && (#[trigger] views[k]).0 == entry) by {
                    if self@.invalid.contains_key(entry) && entry != key {
                        assert(now.invalid.contains_key(entry));
                    }
                    if exists|k: int| 0 <= k < i + 1 && (#[trigger] views[k]).0 == entry {
                        let k = choose|k: int| 0 <= k < i + 1 && (#[trigger] views[k]).0 == entry;
                        if k < i {
                            assert(now.invalid.contains_key(entry));
                        }
                    }
                    if before.invalid.contains_key(entry) {
                        assert(now.invalid.contains_key(entry));
                    }
                }
            }
            i = i + 1;
        }
        let ghost after_invalid = self@;
        let mut j: usize = 0;
        assert(url_views.take(0).to_set() =~= Set::empty());
        assert(before.withheld.union(Set::empty()) =~= before.withheld);
        while j < urls.len()
            invariant
                j <= urls@.len(),
                url_views == withheld_views(urls@),
                self@.invalid == after_invalid.invalid,
                self@.withheld == before.withheld.union(url_views.take(j as int).to_set()),
            decreases urls@.len() - j,
        {
            let record = &urls[j];
            proof {
                let row = (record.url@, record.observed as int);
                assert(url_views[j as int] == row);
                assert(url_views.take(j + 1) =~= url_views.take(j as int).push(row));
                lemma_set_push(url_views.take(j as int), row);
                assert(before.withheld.union(url_views.take(j as int).to_set()).insert(row)
                    =~= before.withheld.union(url_views.take(j + 1).to_set()));
            }
            self.insert_withheld(record.url.as_str(), record.observed);
            j = j + 1;
        }
        proof {
            assert(url_views.take(j as int) =~= url_views);
            let expected = before.merged(other@);
            assert forall|row: (Seq<char>, int)| #[trigger] url_views.to_set().contains(row)
                <==> other@.withheld.contains(row) by {
                assert(url_views.contains(row) <==> other@.withheld.contains(row)
                    && listing::is_from(row.1, None));
            }
            assert(self@.withheld =~= expected.withheld);
            assert forall|entry: EntryView| #[trigger] self@.invalid.contains_key(entry)
                <==> expected.invalid.contains_key(entry) by {
                if other@.invalid.contains_key(entry) {
                    assert(listing::is_from(other@.invalid[entry], None));
                    let k = choose|k: int| 0 <= k < views.len() && (#[trigger] views[k]).0 == entry;
                    assert(views[k].0 == entry);
                }
                if exists|k: int| 0 <= k < views.len() && (#[trigger] views[k]).0 == entry {
                    let k = choose|k: int| 0 <= k < views.len() && (#[trigger] views[k]).0 == entry;
                    assert(other@.invalid.contains_key(views[k].0));
                }
            }
            assert forall|entry: EntryView| #[trigger] self@.invalid.contains_key(
                entry,
            ) implies self@.invalid[entry] == expected.invalid[entry] by {
                if other@.invalid.contains_key(entry) {
                    assert(listing::is_from(other@.invalid[entry], None));
                    let k = choose|k: int| 0 <= k < views.len() && (#[trigger] views[k]).0 == entry;
                    assert(views[k].1 == other@.invalid[entry]);
                } else {
                    assert forall|k: int| 0 <= k < views.len() implies (#[trigger] views[k]).0
                        != entry by {
                        assert(other@.invalid.contains_key(views[k].0));
                    }
                }
            }
            assert(self@.invalid =~= expected.invalid);
            assert(self@ =~= expected);
        }
    }

    /// Reads every observation, each kind ordered by observation time.
    pub fn export(&self) -> (export: Export)
        ensures
            lists_invalid(invalid_views(export.invalid_digests@), self@.invalid, None),
            lists_withheld(withheld_views(export.withheld_urls@), self@.withheld, None),
    {
        Export {
            invalid_digests: self.invalid_digests(None),
            withheld_urls: self.withheld_urls(None),
        }
    }

    /// Records every observation of an export.
    ///
    /// Duplicates are ignored: unlike a merge, an import leaves the observation times of mismatches
    /// that are recorded unchanged.
    pub fn import(&mut self, export: &Export)
        ensures
            final(self)@ == old(self)@.imported(
                invalid_views(export.invalid_digests@),
                withheld_views(export.withheld_urls@),
            ),
    {
        let ghost before = self@;
        let ghost rows = invalid_views(export.invalid_digests@);
        let ghost urls = withheld_views(export.withheld_urls@);
        let mut i: usize = 0;
        assert(rows.take(0) =~= Seq::empty());
        while i < export.invalid_digests.len()
            invariant
                i <= export.invalid_digests@.len(),
                rows == invalid_views(export.invalid_digests@),
                self@ == before.with_all_invalid(rows.take(i as int)),
            decreases export.invalid_digests@.len() - i,
        {
            let record = &export.invalid_digests[i];
            proof {
                assert(rows[i as int] == (record.entry@, record.observed as int));
                assert(rows.take(i + 1).drop_last() =~= rows.take(i as int));
                assert(rows.take(i + 1).last() == rows[i as int]);
            }
            self.insert_invalid_digest(&record.entry, record.observed);
            i = i + 1;
        }
        let ghost middle = self@;
        let mut j: usize = 0;
        assert(rows.take(i as int) =~= rows);
        assert(urls.take(0).to_set() =~= Set::empty());
        assert(middle.withheld.union(Set::empty()) =~= middle.withheld);
        while j < export.withheld_urls.len()
            invariant
                j <= export.withheld_urls@.len(),
                urls == withheld_views(export.withheld_urls@),
                self@.invalid == middle.invalid,
                self@.withheld == middle.withheld.union(urls.take(j as int).to_set()),
            decreases export.withheld_urls@.len() - j,
        {
            let record = &export.withheld_urls[j];
            proof {
                let row = (record.url@, record.observed as int);
                assert(urls[j as int] == row);
                assert(urls.take(j + 1) =~= urls.take(j as int).push(row));
                lemma_set_push(urls.take(j as int), row);
                assert(middle.withheld.union(urls.take(j as int).to_set()).insert(row)
                    =~= middle.withheld.union(urls.take(j + 1).to_set()));
            }
            self.insert_withheld(record.url.as_str(), record.observed);
            j = j + 1;
        }
        assert(urls.take(j as int) =~= urls);
        assert(self@ =~= before.imported(rows, urls));
    }
}

impl LogView {
    /// The log with the observations of an export.
    pub open spec fn imported(
        self,
        rows: Seq<(EntryView, int)>,
        urls: Seq<(Seq<char>, int)>,
    ) -> LogView {
        let with_rows = self.with_all_invalid(rows);
        LogView { withheld: with_rows.withheld.union(urls.to_set()), ..with_rows }
    }
}

/// Distinct mismatches that are all new make the map of their rows.
proof fn lemma_all_new(rows: Seq<(EntryView, int)>)
    requires
        are_distinct(rows),
    ensures
        empty_log().with_all_invalid(rows).invalid == invalid_map(rows),
        empty_log().with_all_invalid(rows).withheld == empty_log().withheld,
    decreases rows.len(),
{
    if rows.len() > 0 {
        let front = rows.drop_last();
        assert(are_distinct(front)) by {
            assert forall|i: int, j: int| 0 <= i < j < front.len() implies (#[trigger] front[i]).0
                != (#[trigger] front[j]).0 by {
                assert(rows[i].0 != rows[j].0);
            }
        }
        lemma_all_new(front);
        lemma_invalid_map(front);
        if invalid_map(front).contains_key(rows.last().0) {
            let i = choose|i: int| 0 <= i < front.len() && (#[trigger] front[i]).0 == rows.last().0;
            assert(rows[i].0 != rows[rows.len() - 1].0);
        }
    }
}

/// Importing an export into an empty log reproduces the log.
pub proof fn law_export_imports_back(
    log: LogView,
    rows: Seq<(EntryView, int)>,
    urls: Seq<(Seq<char>, int)>,
)
    requires
        lists_invalid(rows, log.invalid, None),
        lists_withheld(urls, log.withheld, None),
    ensures
        empty_log().imported(rows, urls) == log,
{
    lemma_all_new(rows);
    assert forall|entry: EntryView| #[trigger] log.invalid.contains_key(entry) implies exists|
        i: int,
    | 0 <= i < rows.len() && (#[trigger] rows[i]).0 == entry by {
        assert(listing::is_from(log.invalid[entry], None));
    }
    assert forall|i: int| 0 <= i < rows.len() implies #[trigger] log.invalid.contains_key(rows[i].0)
        && log.invalid[rows[i].0] == rows[i].1 by {}
    lemma_is_map(rows, log.invalid);
    assert forall|row: (Seq<char>, int)| #[trigger] urls.to_set().contains(row)
        <==> log.withheld.contains(row) by {
        assert(urls.contains(row) <==> log.withheld.contains(row) && listing::is_from(row.1, None));
    }
    assert(empty_log().withheld.union(urls.to_set()) =~= log.withheld);
    assert(empty_log().imported(rows, urls) =~= log);
}

/// The selected rows of a log list its mismatches.
proof fn lemma_lists_invalid(all: Seq<(EntryView, int)>, from: Option<int>)
    requires
        are_distinct(all),
    ensures
        lists_invalid(listing::selected(all, from), invalid_map(all), from),
{
    let rows = listing::selected(all, from);
    lemma_invalid_map(all);
    assert(all.no_duplicates()) by {
        assert forall|i: int, j: int|
            0 <= i < all.len() && 0 <= j < all.len() && i != j implies all[i] != all[j] by {
            if i < j {
                assert(all[i].0 != all[j].0);
            } else {
                assert(all[j].0 != all[i].0);
            }
        }
    }
    listing::lemma_selected(all, from);
    assert forall|i: int, j: int| 0 <= i < j < rows.len() implies (#[trigger] rows[i]).0 != (
    #[trigger] rows[j]).0 by {
        assert(rows.contains(rows[i]) && rows.contains(rows[j]));
        let a = choose|a: int| 0 <= a < all.len() && all[a] == rows[i];
        let b = choose|b: int| 0 <= b < all.len() && all[b] == rows[j];
        assert(rows[i] != rows[j]);
        if a < b {
            assert(all[a].0 != all[b].0);
        } else {
            assert(all[b].0 != all[a].0);
        }
    }
    assert forall|i: int| 0 <= i < rows.len() implies invalid_map(all).contains_key(
        (#[trigger] rows[i]).0,
    ) && invalid_map(all)[rows[i].0] == rows[i].1 && listing::is_from(rows[i].1, from) by {
        assert(rows.contains(rows[i]));
        let a = choose|a: int| 0 <= a < all.len() && all[a] == rows[i];
        assert(invalid_map(all).contains_key(all[a].0));
    }
    assert forall|entry: EntryView| #[trigger] invalid_map(all).contains_key(entry)
        && listing::is_from(invalid_map(all)[entry], from) implies exists|i: int|
        0 <= i < rows.len() && (#[trigger] rows[i]).0 == entry by {
        let a = choose|a: int| 0 <= a < all.len() && (#[trigger] all[a]).0 == entry;
        assert(invalid_map(all).contains_key(all[a].0));
        assert(all.contains(all[a]));
        assert(rows.contains(all[a]));
        let i = choose|i: int| 0 <= i < rows.len() && rows[i] == all[a];
        assert(rows[i].0 == entry);
    }
}

/// Puts a row behind those that are not later.
fn insert_invalid_row(
    rows: &mut Vec<InvalidDigestRecord<'static>>,
    record: &InvalidDigestRecord<'static>,
)
    ensures
        invalid_views(final(rows)@) == listing::insert_by_time(
            invalid_views(old(rows)@),
            (record.entry@, record.observed as int),
        ),
{
    let ghost before = invalid_views(rows@);
    let ghost row = (record.entry@, record.observed as int);
    let mut place: usize = rows.len();
    while place > 0 && rows[place - 1].observed > record.observed
        invariant
            place <= rows@.len(),
            rows@ == old(rows)@,
            before == invalid_views(rows@),
            row == (record.entry@, record.observed as int),
            forall|i: int| place <= i < rows@.len() ==> row.1 < (#[trigger] before[i]).1,
        decreases place,
    {
        assert(before[place - 1].1 == rows@[place - 1].observed);
        place = place - 1;
    }
    proof {
        if place > 0 {
            assert(before[place - 1].1 == rows@[place - 1].observed);
        }
        listing::lemma_insert_place(before, row, place as int);
    }
    rows.insert(
        place,
        InvalidDigestRecord { observed: record.observed, entry: record.entry.to_static() },
    );
    assert(invalid_views(rows@) =~= before.insert(place as int, row));
}

/// Puts a row behind those that are not later.
fn insert_withheld_row(rows: &mut Vec<WithheldRecord>, record: &WithheldRecord)
    ensures
        withheld_views(final(rows)@) == listing::insert_by_time(
            withheld_views(old(rows)@),
            (record.url@, record.observed as int),
        ),
{
    let ghost before = withheld_views(rows@);
    let ghost row = (record.url@, record.observed as int);
    let mut place: usize = rows.len();
    while place > 0 && rows[place - 1].observed > record.observed
        invariant
            place <= rows@.len(),
            rows@ == old(rows)@,
            before == withheld_views(rows@),
            row == (record.url@, record.observed as int),
            forall|i: int| place <= i < rows@.len() ==> row.1 < (#[trigger] before[i]).1,
        decreases place,
    {
        assert(before[place - 1].1 == rows@[place - 1].observed);
        place = place - 1;
    }
    proof {
        if place > 0 {
            assert(before[place - 1].1 == rows@[place - 1].observed);
        }
        listing::lemma_insert_place(before, row, place as int);
    }
    rows.insert(place, WithheldRecord { observed: record.observed, url: record.url.clone() });
    assert(withheld_views(rows@) =~= before.insert(place as int, row));
}

/// The digest that the CDX index declared for each content digest. Of two mismatches with one content
/// digest, the one that was observed later counts.
pub open spec fn expected_of(rows: Seq<(EntryView, int)>) -> Map<nat, Seq<char>>
    decreases rows.len(),
{
    if rows.len() == 0 {
        Map::empty()
    } else {
        expected_of(rows.drop_last()).insert(rows.last().0.actual, rows.last().0.expected)
    }
}

/// Declared digests as they are written.
pub open spec fn expected_views(expected: Map<nat, Digest<'static>>) -> Map<nat, Seq<char>> {
    expected.map_values(|digest: Digest<'static>| digest.text())
}

/// Maps each content digest of a log to the digest that the CDX index declared for it.
pub fn expected_digests(rows: &Vec<InvalidDigestRecord<'static>>) -> (expected: DigestTable<
    Digest<'static>,
>)
    ensures
        expected_views(expected@) == expected_of(invalid_views(rows@)),
{
    let ghost views = invalid_views(rows@);
    let mut expected: DigestTable<Digest<'static>> = DigestTable::new();
    let mut i: usize = 0;
    assert(views.take(0) =~= Seq::empty());
    assert(expected_views(expected@) =~= Map::empty());
    while i < rows.len()
        invariant
            i <= rows@.len(),
            views == invalid_views(rows@),
            expected_views(expected@) == expected_of(views.take(i as int)),
        decreases rows@.len() - i,
    {
        let entry = &rows[i].entry;
        proof {
            assert(views[i as int] == (entry@, rows@[i as int].observed as int));
            assert(views.take(i + 1).drop_last() =~= views.take(i as int));
            assert(views.take(i + 1).last() == views[i as int]);
        }
        let ghost before = expected@;
        let digest = entry.item_info.expected_digest.clone();
        let ghost added = digest;
        expected.insert(entry.actual_digest, digest);
        assert(expected_views(expected@) =~= expected_views(before).insert(
            entry.actual_digest@,
            added.text(),
        ));
        i = i + 1;
    }
    assert(views.take(i as int) =~= views);
    expected
}

/// The set of a list with one row more.
proof fn lemma_set_push(rows: Seq<(Seq<char>, int)>, row: (Seq<char>, int))
    ensures
        rows.push(row).to_set() == rows.to_set().insert(row),
{
    assert forall|x: (Seq<char>, int)| #[trigger] rows.push(row).to_set().contains(x)
        <==> rows.to_set().insert(row).contains(x) by {
        if rows.push(row).contains(x) {
            let i = choose|i: int| 0 <= i < rows.push(row).len() && rows.push(row)[i] == x;
            if i < rows.len() {
                assert(rows[i] == x);
            }
        }
        if rows.contains(x) {
            let i = choose|i: int| 0 <= i < rows.len() && rows[i] == x;
            assert(rows.push(row)[i] == x);
        }
        assert(rows.push(row)[rows.len() as int] == row);
    }
    assert(rows.push(row).to_set() =~= rows.to_set().insert(row));
}

/// What was observed first stays: an entry that is inserted again keeps its time, one that is merged keeps the
/// earlier of both, and no other entry changes.
pub proof fn law_observations_are_kept(log: LogView, entry: EntryView, observed: int, other: EntryView)
    requires
        other != entry,
    ensures
        ({
            let inserted = log.with_invalid(entry, observed);
            let earliest = log.with_earliest(entry, observed);
            &&& inserted.invalid.contains_key(entry)
            &&& log.invalid.contains_key(entry) ==> inserted.invalid[entry] == log.invalid[entry]
            &&& !log.invalid.contains_key(entry) ==> inserted.invalid[entry] == observed
            &&& inserted.invalid.contains_key(other) == log.invalid.contains_key(other)
            &&& inserted.invalid[other] == log.invalid[other]
            &&& inserted.withheld == log.withheld
            &&& earliest.invalid.contains_key(entry)
            &&& earliest.invalid[entry] <= observed
            &&& log.invalid.contains_key(entry) ==> earliest.invalid[entry] <= log.invalid[entry] && (
            earliest.invalid[entry] == observed || earliest.invalid[entry] == log.invalid[entry])
            &&& !log.invalid.contains_key(entry) ==> earliest.invalid[entry] == observed
            &&& earliest.invalid.contains_key(other) == log.invalid.contains_key(other)
            &&& earliest.invalid[other] == log.invalid[other]
            &&& earliest.withheld == log.withheld
        }),
{
}

/// A withheld URL is recorded with each time at which it was observed, beside everything that was recorded.
pub proof fn law_withheld_urls_are_kept(log: LogView, url: Seq<char>, observed: int, row: (Seq<char>, int))
    ensures
        log.with_withheld(url, observed).withheld.contains(row) <==> log.withheld.contains(row) || row
            == (url, observed),
        log.with_withheld(url, observed).invalid == log.invalid,
{
}

/// A merged log has the entries of both, each with the earlier of the times that they have, and the withheld
/// URLs of both.
pub proof fn law_merge_keeps_the_earliest(
    a: LogView,
    b: LogView,
    entry: EntryView,
    row: (Seq<char>, int),
)
    ensures
        ({
            let both = a.merged(b);
            &&& both.invalid.contains_key(entry) <==> a.invalid.contains_key(entry)
                || b.invalid.contains_key(entry)
            &&& both.invalid.contains_key(entry) ==> {
                &&& a.invalid.contains_key(entry) ==> both.invalid[entry] <= a.invalid[entry]
                &&& b.invalid.contains_key(entry) ==> both.invalid[entry] <= b.invalid[entry]
                &&& {
                    ||| a.invalid.contains_key(entry) && both.invalid[entry] == a.invalid[entry]
                    ||| b.invalid.contains_key(entry) && both.invalid[entry] == b.invalid[entry]
                }
            }
            &&& both.withheld.contains(row) <==> a.withheld.contains(row) || b.withheld.contains(row)
        }),
{
}

/// Importing adds what is not there: an entry of the log keeps its time, and a new one has that of its first
/// row.
pub proof fn law_import_keeps_the_log(log: LogView, rows: Seq<(EntryView, int)>, entry: EntryView)
    ensures
        ({
            let after = log.with_all_invalid(rows);
            &&& after.withheld == log.withheld
            &&& log.invalid.contains_key(entry) ==> after.invalid.contains_key(entry)
                && after.invalid[entry] == log.invalid[entry]
            &&& !log.invalid.contains_key(entry) ==> (after.invalid.contains_key(entry) <==> exists|
                i: int,
            |
                0 <= i < rows.len() && (#[trigger] rows[i]).0 == entry)
            &&& !log.invalid.contains_key(entry) && after.invalid.contains_key(entry) ==> exists|i: int|
                {
                    &&& 0 <= i < rows.len()
                    &&& #[trigger] rows[i] == (entry, after.invalid[entry])
                    &&& forall|k: int| 0 <= k < i ==> (#[trigger] rows[k]).0 != entry
                }
        }),
    decreases rows.len(),
{
    if rows.len() > 0 {
        let front = rows.drop_last();
        law_import_keeps_the_log(log, front, entry);
        let before = log.with_all_invalid(front);
        let after = log.with_all_invalid(rows);
        assert(forall|k: int| 0 <= k < front.len() ==> #[trigger] rows[k] == front[k]);
        if !log.invalid.contains_key(entry) {
            if before.invalid.contains_key(entry) {
                let i = choose|i: int|
                    {
                        &&& 0 <= i < front.len()
                        &&& #[trigger] front[i] == (entry, before.invalid[entry])
                        &&& forall|k: int| 0 <= k < i ==> (#[trigger] front[k]).0 != entry
                    };
                assert(rows[i] == (entry, after.invalid[entry]));
                assert forall|k: int| 0 <= k < i implies (#[trigger] rows[k]).0 != entry by {
                    assert(front[k].0 != entry);
                }
            } else {
                assert forall|k: int| 0 <= k < front.len() implies (#[trigger] rows[k]).0 != entry by {
                    assert(front[k].0 != entry);
                }
                if rows.last().0 == entry {
                    assert(rows[rows.len() - 1] == (entry, after.invalid[entry]));
                }
            }
        }
    }
}

/// The expected digest of a digest is that of the last row whose content had it.
pub proof fn law_last_expected_digest_counts(rows: Seq<(EntryView, int)>, actual: nat)
    ensures
        expected_of(rows).contains_key(actual) <==> exists|i: int|
            0 <= i < rows.len() && (#[trigger] rows[i]).0.actual == actual,
        expected_of(rows).contains_key(actual) ==> exists|i: int|
            {
                &&& 0 <= i < rows.len()
                &&& (#[trigger] rows[i]).0.actual == actual
                &&& expected_of(rows)[actual] == rows[i].0.expected
                &&& forall|k: int| i < k < rows.len() ==> (#[trigger] rows[k]).0.actual != actual
            },
    decreases rows.len(),
{
    if rows.len() > 0 {
        let front = rows.drop_last();
        law_last_expected_digest_counts(front, actual);
        assert(forall|k: int| 0 <= k < front.len() ==> #[trigger] rows[k] == front[k]);
        if rows.last().0.actual == actual {
            assert(rows[rows.len() - 1].0.actual == actual);
        } else if expected_of(front).contains_key(actual) {
            let i = choose|i: int|
                {
                    &&& 0 <= i < front.len()
                    &&& (#[trigger] front[i]).0.actual == actual
                    &&& expected_of(front)[actual] == front[i].0.expected
                    &&& forall|k: int| i < k < front.len() ==> (#[trigger] front[k]).0.actual != actual
                };
            assert(rows[i].0.actual == actual);
        }
    }
}

/// A listing from a time on has what was observed at that time or later, and one from no time has everything.
pub proof fn law_listing_from(observed: int, from: int)
    ensures
        listing::is_from(observed, Some(from)) <==> observed >= from,
        listing::is_from(observed, None),
{
}

/// An entry is seen by where and when it was captured, the digest that was expected and that of its content.
pub proof fn law_entries_are_seen_whole(entry: Entry<'_>)
    ensures
        entry@.url == entry.item_info.url_parts.url@,
        entry@.timestamp == entry.item_info.url_parts.timestamp@,
        entry@.expected == entry.item_info.expected_digest.text(),
        entry@.actual == entry.actual_digest@,
{
}

/// A listing has exactly the entries that were observed from the given time on, each once with its time, in the
/// order of their times.
pub proof fn law_listings_are_complete(
    rows: Seq<(EntryView, int)>,
    invalid: Map<EntryView, int>,
    from: Option<int>,
    entry: EntryView,
    observed: int,
)
    requires
        lists_invalid(rows, invalid, from),
    ensures
        rows.contains((entry, observed)) <==> invalid.contains_key(entry) && invalid[entry] == observed && (
        from is None || observed >= from.unwrap()),
        forall|i: int, j: int|
            0 <= i < j < rows.len() ==> (#[trigger] rows[i]).1 <= (#[trigger] rows[j]).1 && rows[i].0
                != rows[j].0,
{
    if rows.contains((entry, observed)) {
        let i = choose|i: int| 0 <= i < rows.len() && rows[i] == (entry, observed);
        assert(invalid[rows[i].0] == rows[i].1);
    }
    if invalid.contains_key(entry) && invalid[entry] == observed && (from is None || observed
        >= from.unwrap()) {
        assert(listing::is_from(invalid[entry], from));
        let i = choose|i: int| 0 <= i < rows.len() && (#[trigger] rows[i]).0 == entry;
        assert(rows[i] == (entry, observed));
    }
}

/// A listing has exactly the withheld URLs that were observed from the given time on, in the order of their
/// times.
pub proof fn law_withheld_listings_are_complete(
    rows: Seq<(Seq<char>, int)>,
    withheld: Set<(Seq<char>, int)>,
    from: Option<int>,
    row: (Seq<char>, int),
)
    requires
        lists_withheld(rows, withheld, from),
    ensures
        rows.contains(row) <==> withheld.contains(row) && (from is None || row.1 >= from.unwrap()),
        forall|i: int, j: int|
            0 <= i < j < rows.len() ==> (#[trigger] rows[i]).1 <= (#[trigger] rows[j]).1,
{
}

/// Importing adds the withheld URLs to those of the log.
pub proof fn law_imported_urls_are_added(
    log: LogView,
    rows: Seq<(EntryView, int)>,
    urls: Seq<(Seq<char>, int)>,
    row: (Seq<char>, int),
)
    ensures
        log.imported(rows, urls).withheld.contains(row) <==> log.withheld.contains(row)
            || urls.contains(row),
        log.imported(rows, urls).invalid == log.with_all_invalid(rows).invalid,
{
    law_import_keeps_the_log(
        log,
        rows,
        EntryView { url: Seq::empty(), timestamp: 0, expected: Seq::empty(), actual: 0 },
    );
}

/// An entry is inserted exactly if the log does not have it, and then with the time at which it was observed.
pub proof fn law_new_entries_are_inserted(
    log: &mut Database,
    entry: &Entry<'_>,
    observed: i64,
    inserted: bool,
)
    requires
        call_ensures(Database::insert_invalid_digest, (log, entry, observed), inserted),
    ensures
        inserted <==> !old(log)@.invalid.contains_key(entry@),
        final(log)@.invalid.contains_key(entry@),
        final(log)@.invalid[entry@] == if inserted {
            observed as int
        } else {
            old(log)@.invalid[entry@]
        },
        final(log)@.withheld == old(log)@.withheld,
{
}

/// A withheld URL is inserted exactly if the log does not have it with the same time.
pub proof fn law_new_withheld_urls_are_inserted(
    log: &mut Database,
    url: &str,
    observed: i64,
    inserted: bool,
)
    requires
        call_ensures(Database::insert_withheld, (log, url, observed), inserted),
    ensures
        inserted <==> !old(log)@.withheld.contains((url@, observed as int)),
        final(log)@.withheld == old(log)@.withheld.insert((url@, observed as int)),
        final(log)@.invalid == old(log)@.invalid,
{
}

} // verus!
