//! The captures of one digest, as they are stored.
//!
//! A stored value is a sequence of entries, each the capture time in seconds since the start of 1970
//! (eight bytes, most significant first), the length of the URL (two bytes, least significant first)
//! and the URL. The entries are sorted by time and then URL, without duplicates.
use std::borrow::Cow;

use vstd::prelude::*;

use crate::digest;
use crate::item::UrlParts;
use crate::numeral;
use crate::timestamp;
use crate::timestamp::Timestamp;
use crate::validation::utf8_text;

verus! {

/// Bytes preceding the URL in an encoded entry: an 8-byte timestamp plus a 2-byte URL length.
pub const ENTRY_HEADER_LEN: usize = 10;

/// Why captures cannot be stored or read.
#[derive(Clone, Copy, Debug, PartialEq, Eq, Structural)]
pub enum Error {
    /// A stored URL was not valid UTF-8.
    Utf8,
    /// The URL, of this many bytes, cannot be written with a two-byte length.
    EncodeUrlTooLong(usize),
    /// A stored value ended part-way through an entry, either within its 10-byte header or within
    /// the URL its header announced.
    DecodeTruncatedEntry,
    /// A stored capture time lies outside the years of a timestamp.
    DecodeInvalidCaptureSecs(i64),
}

/// A time as an unsigned number, by two's complement.
pub open spec fn unsigned(secs: int) -> nat {
    if secs < 0 {
        (secs + 0x1_0000_0000_0000_0000) as nat
    } else {
        secs as nat
    }
}

/// A time from an unsigned number, by two's complement.
pub open spec fn signed(n: nat) -> int {
    if n >= 0x8000_0000_0000_0000 {
        n - 0x1_0000_0000_0000_0000
    } else {
        n as int
    }
}

/// The bytes of a number, most significant first.
pub open spec fn big_endian(n: nat, len: nat) -> Seq<u8> {
    numeral::digits(n, 256, len).map_values(|d: nat| d as u8)
}

/// A length as two bytes, least significant first.
pub open spec fn short_bytes(n: nat) -> Seq<u8> {
    seq![(n % 256) as u8, (n / 256) as u8]
}

/// The bytes of one entry.
pub open spec fn entry_bytes(secs: int, url_len: nat, url: Seq<u8>) -> Seq<u8> {
    big_endian(unsigned(secs), 8) + short_bytes(url_len) + url
}

/// The first entry of a stored value and how many bytes it takes, or `None` if it is cut off.
pub open spec fn first_entry(bytes: Seq<u8>) -> Option<(int, Seq<u8>)> {
    if bytes.len() < ENTRY_HEADER_LEN {
        None
    } else {
        let secs = signed(numeral::value(digest::byte_digits(bytes.take(8)), 256));
        let len = bytes[8] + bytes[9] * 256;
        if ENTRY_HEADER_LEN + len <= bytes.len() {
            Some((secs, bytes.subrange(10, 10 + len)))
        } else {
            None
        }
    }
}

/// The entries of a stored value, or `None` if one of them is cut off.
pub open spec fn raw_entries(bytes: Seq<u8>) -> Option<Seq<(int, Seq<u8>)>>
    decreases bytes.len(),
{
    if bytes.len() == 0 {
        Some(Seq::empty())
    } else {
        match first_entry(bytes) {
            None => None,
            Some((secs, url)) => match raw_entries(bytes.skip(10 + url.len() as int)) {
                Some(rest) => Some(seq![(secs, url)] + rest),
                None => None,
            },
        }
    }
}

/// The bytes of entries.
pub open spec fn encoded(entries: Seq<(int, Seq<u8>)>) -> Seq<u8>
    decreases entries.len(),
{
    if entries.len() == 0 {
        Seq::empty()
    } else {
        entry_bytes(entries[0].0, entries[0].1.len(), entries[0].1) + encoded(entries.drop_first())
    }
}

/// Whether an entry can be written: its time fits in eight bytes, and the length of its URL in two.
pub open spec fn is_encodable(entry: (int, Seq<u8>)) -> bool {
    i64::MIN <= entry.0 <= i64::MAX && entry.1.len() <= u16::MAX
}

/// A byte order in which a prefix comes first.
pub open spec fn bytes_less(a: Seq<u8>, b: Seq<u8>) -> bool
    decreases a.len(),
{
    if b.len() == 0 {
        false
    } else if a.len() == 0 {
        true
    } else if a[0] != b[0] {
        a[0] < b[0]
    } else {
        bytes_less(a.drop_first(), b.drop_first())
    }
}

/// Whether an entry comes before another: by time, and then by URL.
pub open spec fn entry_less(a: (int, Seq<u8>), b: (int, Seq<u8>)) -> bool {
    a.0 < b.0 || (a.0 == b.0 && bytes_less(a.1, b.1))
}

/// Whether entries are sorted without duplicates.
pub open spec fn is_ascending(entries: Seq<(int, Seq<u8>)>) -> bool {
    forall|i: int, j: int|
        0 <= i < j < entries.len() ==> entry_less(#[trigger] entries[i], #[trigger] entries[j])
}

/// The order of bytes is total.
proof fn lemma_bytes_total(a: Seq<u8>, b: Seq<u8>)
    ensures
        bytes_less(a, b) || bytes_less(b, a) || a == b,
        !(bytes_less(a, b) && bytes_less(b, a)),
        a == b ==> !bytes_less(a, b),
    decreases a.len(),
{
    if a.len() == 0 || b.len() == 0 {
        if a.len() == 0 && b.len() == 0 {
            assert(a =~= b);
        }
    } else if a[0] == b[0] {
        lemma_bytes_total(a.drop_first(), b.drop_first());
        if a.drop_first() == b.drop_first() {
            assert(a =~= seq![a[0]] + a.drop_first());
            assert(b =~= seq![b[0]] + b.drop_first());
        }
    }
}

/// The order of bytes is transitive.
proof fn lemma_bytes_transitive(a: Seq<u8>, b: Seq<u8>, c: Seq<u8>)
    requires
        bytes_less(a, b),
        bytes_less(b, c),
    ensures
        bytes_less(a, c),
    decreases a.len(),
{
    if a.len() > 0 && b.len() > 0 && c.len() > 0 && a[0] == b[0] && b[0] == c[0] {
        lemma_bytes_transitive(a.drop_first(), b.drop_first(), c.drop_first());
    }
}

/// The order of entries is total.
proof fn lemma_entry_total(a: (int, Seq<u8>), b: (int, Seq<u8>))
    ensures
        entry_less(a, b) || entry_less(b, a) || a == b,
        !(entry_less(a, b) && entry_less(b, a)),
        a == b ==> !entry_less(a, b),
{
    lemma_bytes_total(a.1, b.1);
}

/// The order of entries is transitive.
proof fn lemma_entry_transitive(a: (int, Seq<u8>), b: (int, Seq<u8>), c: (int, Seq<u8>))
    requires
        entry_less(a, b),
        entry_less(b, c),
    ensures
        entry_less(a, c),
{
    if a.0 == b.0 && b.0 == c.0 {
        lemma_bytes_transitive(a.1, b.1, c.1);
    }
}

/// Whether one byte sequence comes before another.
fn comes_before(a: &[u8], b: &[u8]) -> (before: bool)
    ensures
        before == bytes_less(a@, b@),
{
    let mut k: usize = 0;
    assert(a@.skip(0) =~= a@);
    assert(b@.skip(0) =~= b@);
    while k < a.len() && k < b.len() && a[k] == b[k]
        invariant
            k <= a@.len(),
            k <= b@.len(),
            bytes_less(a@, b@) == bytes_less(a@.skip(k as int), b@.skip(k as int)),
        decreases a@.len() - k,
    {
        proof {
            assert(a@.skip(k as int).drop_first() =~= a@.skip(k + 1));
            assert(b@.skip(k as int).drop_first() =~= b@.skip(k + 1));
        }
        k = k + 1;
    }
    k < b.len() && (k == a.len() || a[k] < b[k])
}

/// Whether two byte sequences are the same.
fn same_bytes(a: &[u8], b: &[u8]) -> (same: bool)
    ensures
        same == (a@ == b@),
{
    if a.len() != b.len() {
        return false;
    }
    let mut i: usize = 0;
    while i < a.len()
        invariant
            i <= a@.len(),
            a@.len() == b@.len(),
            forall|k: int| 0 <= k < i ==> a@[k] == b@[k],
        decreases a@.len() - i,
    {
        if a[i] != b[i] {
            return false;
        }
        i = i + 1;
    }
    assert(a@ =~= b@);
    true
}

/// Appends the bytes of a number, most significant first.
fn push_big_endian(out: &mut Vec<u8>, n: u64, len: usize)
    ensures
        final(out)@ == old(out)@ + big_endian(n as nat, len as nat),
    decreases len,
{
    if len == 0 {
        assert(big_endian(n as nat, 0) =~= Seq::empty());
        assert(old(out)@ + big_endian(n as nat, 0) =~= old(out)@);
    } else {
        push_big_endian(out, n / 256, len - 1);
        let byte: u8 = (n % 256) as u8;
        out.push(byte);
        proof {
            assert(big_endian(n as nat, len as nat) =~= big_endian(
                (n / 256) as nat,
                (len - 1) as nat,
            ).push(byte));
            assert(out@ =~= old(out)@ + big_endian(n as nat, len as nat));
        }
    }
}

/// A time as an unsigned number, by two's complement.
fn to_unsigned(secs: i64) -> (n: u64)
    ensures
        n == unsigned(secs as int),
{
    if secs < 0 {
        (secs as i128 + 0x1_0000_0000_0000_0000) as u64
    } else {
        secs as u64
    }
}

/// A time from an unsigned number, by two's complement.
fn to_signed(n: u64) -> (secs: i64)
    ensures
        secs == signed(n as nat),
{
    if n >= 0x8000_0000_0000_0000 {
        (n as i128 - 0x1_0000_0000_0000_0000) as i64
    } else {
        n as i64
    }
}

/// Appends bytes to a vector.
fn push_bytes(out: &mut Vec<u8>, tail: &[u8])
    ensures
        final(out)@ == old(out)@ + tail@,
{
    let mut i: usize = 0;
    assert(out@ =~= old(out)@ + tail@.take(0));
    while i < tail.len()
        invariant
            i <= tail@.len(),
            out@ == old(out)@ + tail@.take(i as int),
        decreases tail@.len() - i,
    {
        out.push(tail[i]);
        assert(tail@.take(i + 1) =~= tail@.take(i as int).push(tail@[i as int]));
        assert(out@ =~= old(out)@ + tail@.take(i + 1));
        i = i + 1;
    }
    assert(tail@.take(i as int) =~= tail@);
}

/// Appends one encoded entry to `buffer`.
///
/// Layout: `big-endian i64 Unix seconds || little-endian u16 URL length || URL bytes`.
pub fn encode_entry(buffer: &mut Vec<u8>, timestamp_secs: i64, url_len: u16, url: &[u8])
    ensures
        final(buffer)@ == old(buffer)@ + entry_bytes(
            timestamp_secs as int,
            url_len as nat,
            url@,
        ),
{
    push_big_endian(buffer, to_unsigned(timestamp_secs), 8);
    buffer.push((url_len % 256) as u8);
    buffer.push((url_len / 256) as u8);
    push_bytes(buffer, url);
    assert(buffer@ =~= old(buffer)@ + entry_bytes(timestamp_secs as int, url_len as nat, url@));
}

/// The number that eight bytes stand for, most significant first.
fn read_big_endian(bytes: &[u8], from: usize) -> (n: u64)
    requires
        from + 8 <= bytes@.len(),
    ensures
        n == numeral::value(digest::byte_digits(bytes@.subrange(from as int, from + 8)), 256),
{
    let ghost all = digest::byte_digits(bytes@.subrange(from as int, from + 8));
    let mut n: u64 = 0;
    let mut i: usize = 0;
    assert(numeral::value(all.take(0), 256) == 0);
    while i < 8
        invariant
            i <= 8,
            from + 8 <= bytes.len(),
            all == digest::byte_digits(bytes@.subrange(from as int, from + 8)),
            all.len() == 8,
            n == numeral::value(all.take(i as int), 256),
        decreases 8 - i,
    {
        let byte: u8 = bytes[from + i];
        proof {
            let front = all.take(i as int);
            let next = all.take(i + 1);
            assert(all[i as int] == byte as nat);
            assert(next =~= front.push(byte as nat));
            numeral::lemma_value_push(front, byte as nat, 256);
            assert(numeral::all_below(next, 256));
            numeral::lemma_digits_of_value(next, 256);
            numeral::lemma_power_monotonic(256, (i + 1) as nat, 8);
            assert(numeral::power(256, 8) == 0x1_0000_0000_0000_0000) by {
                reveal_with_fuel(numeral::power, 9);
            }
        }
        n = n * 256 + byte as u64;
        i = i + 1;
    }
    assert(all.take(8) =~= all);
    n
}

/// Entries as numbers and bytes.
pub open spec fn entry_views(entries: Seq<(i64, Vec<u8>)>) -> Seq<(int, Seq<u8>)> {
    entries.map_values(|entry: (i64, Vec<u8>)| (entry.0 as int, entry.1@))
}

/// The entry that starts at a place of a stored value.
fn read_entry(bytes: &[u8], from: usize) -> (entry: Option<(i64, Vec<u8>)>)
    requires
        from <= bytes@.len(),
    ensures
        match entry {
            Some((secs, url)) => {
                &&& first_entry(bytes@.skip(from as int)) == Some((secs as int, url@))
                &&& from + 10 + url@.len() <= bytes@.len()
                &&& url@.len() <= u16::MAX
            },
            None => first_entry(bytes@.skip(from as int)) is None,
        },
{
    let ghost rest = bytes@.skip(from as int);
    if bytes.len() - from < ENTRY_HEADER_LEN {
        return None;
    }
    let secs: i64 = to_signed(read_big_endian(bytes, from));
    let len: usize = bytes[from + 8] as usize + bytes[from + 9] as usize * 256;
    proof {
        assert(rest.take(8) =~= bytes@.subrange(from as int, from + 8));
        assert(rest[8] == bytes@[from + 8]);
        assert(rest[9] == bytes@[from + 9]);
    }
    if len > bytes.len() - from - ENTRY_HEADER_LEN {
        return None;
    }
    let start: usize = from + ENTRY_HEADER_LEN;
    let url = vstd::slice::slice_to_vec(vstd::slice::slice_subrange(bytes, start, start + len));
    assert(url@ =~= rest.subrange(10, 10 + len));
    Some((secs, url))
}

/// The entries of a stored value.
pub fn read_entries(bytes: &[u8]) -> (result: Result<Vec<(i64, Vec<u8>)>, Error>)
    ensures
        match result {
            Ok(entries) => {
                &&& raw_entries(bytes@) == Some(entry_views(entries@))
                &&& forall|i: int|
                    0 <= i < entries@.len() ==> (#[trigger] entries@[i]).1@.len() <= u16::MAX
            },
            Err(error) => raw_entries(bytes@) is None && error is DecodeTruncatedEntry,
        },
{
    let mut entries: Vec<(i64, Vec<u8>)> = Vec::new();
    let mut at: usize = 0;
    assert(bytes@.skip(0) =~= bytes@);
    proof {
        if let Some(rest) = raw_entries(bytes@) {
            assert(entry_views(entries@) + rest =~= rest);
        }
    }
    while at < bytes.len()
        invariant
            at <= bytes@.len(),
            raw_entries(bytes@) == match raw_entries(bytes@.skip(at as int)) {
                Some(rest) => Some(entry_views(entries@) + rest),
                None => None,
            },
            forall|i: int|
                0 <= i < entries@.len() ==> (#[trigger] entries@[i]).1@.len() <= u16::MAX,
        decreases bytes@.len() - at,
    {
        let ghost rest = bytes@.skip(at as int);
        let ghost before = entries@;
        match read_entry(bytes, at) {
            Some((secs, url)) => {
                let len: usize = url.len();
                let ghost view = (secs as int, url@);
                entries.push((secs, url));
                proof {
                    let next = at + 10 + len;
                    assert(rest.skip(10 + len as int) =~= bytes@.skip(next));
                    assert(entry_views(entries@) =~= entry_views(before).push(view));
                    if let Some(tail) = raw_entries(bytes@.skip(next)) {
                        assert(entry_views(entries@) + tail =~= entry_views(before) + (seq![view]
                            + tail));
                    }
                }
                at = at + ENTRY_HEADER_LEN + len;
            },
            None => return Err(Error::DecodeTruncatedEntry),
        }
    }
    proof {
        assert(bytes@.skip(at as int) =~= Seq::empty());
        assert(entry_views(entries@) + Seq::<(int, Seq<u8>)>::empty() =~= entry_views(entries@));
    }
    Ok(entries)
}

/// A written entry at the start of bytes reads back.
proof fn lemma_entry_reads(entry: (int, Seq<u8>), rest: Seq<u8>)
    requires
        is_encodable(entry),
    ensures
        first_entry(entry_bytes(entry.0, entry.1.len(), entry.1) + rest) == Some(entry),
        (entry_bytes(entry.0, entry.1.len(), entry.1) + rest).skip(10 + entry.1.len() as int) == rest,
        entry_bytes(entry.0, entry.1.len(), entry.1).len() == 10 + entry.1.len(),
{
    let n = unsigned(entry.0);
    let bytes = entry_bytes(entry.0, entry.1.len(), entry.1) + rest;
    let places = numeral::digits(n, 256, 8);
    numeral::lemma_digits_len(n, 256, 8);
    assert(numeral::power(256, 8) == 0x1_0000_0000_0000_0000) by {
        reveal_with_fuel(numeral::power, 9);
    }
    numeral::lemma_value_of_digits(n, 256, 8);
    assert(digest::byte_digits(bytes.take(8)) =~= places) by {
        assert forall|i: int| 0 <= i < 8 implies digest::byte_digits(bytes.take(8))[i]
            == places[i] by {
            assert(places[i] < 256);
            assert(bytes.take(8)[i] == places[i] as u8);
        }
    }
    let len = entry.1.len();
    assert(bytes[8] == (len % 256) as u8);
    assert(bytes[9] == (len / 256) as u8);
    assert(bytes.subrange(10, 10 + len as int) =~= entry.1);
    assert(bytes.skip(10 + len as int) =~= rest);
}

/// Entries that are written and then read are the same.
pub proof fn law_entries_read_back(entries: Seq<(int, Seq<u8>)>)
    requires
        forall|i: int| 0 <= i < entries.len() ==> is_encodable(#[trigger] entries[i]),
    ensures
        raw_entries(encoded(entries)) == Some(entries),
    decreases entries.len(),
{
    if entries.len() > 0 {
        let rest = entries.drop_first();
        assert(is_encodable(entries[0]));
        assert forall|i: int| 0 <= i < rest.len() implies is_encodable(#[trigger] rest[i]) by {
            assert(is_encodable(entries[i + 1]));
        }
        law_entries_read_back(rest);
        lemma_entry_reads(entries[0], encoded(rest));
        assert(entry_bytes(entries[0].0, entries[0].1.len(), entries[0].1).len() > 0);
        assert(seq![entries[0]] + rest =~= entries);
    }
}

/// Two sorted lists with the same entries are the same.
proof fn lemma_ascending_unique(a: Seq<(int, Seq<u8>)>, b: Seq<(int, Seq<u8>)>)
    requires
        is_ascending(a),
        is_ascending(b),
        a.to_set() == b.to_set(),
    ensures
        a == b,
    decreases a.len(),
{
    if a.len() == 0 {
        if b.len() > 0 {
            assert(b.to_set().contains(b[0]));
            assert(a.contains(b[0]));
        }
        assert(a =~= b);
    } else if b.len() == 0 {
        assert(a.to_set().contains(a[0]));
        assert(b.contains(a[0]));
    } else {
        let la = a.last();
        let lb = b.last();
        assert(a.to_set().contains(la) && b.to_set().contains(lb));
        assert(b.contains(la) && a.contains(lb));
        let i = choose|i: int| 0 <= i < b.len() && b[i] == la;
        let j = choose|j: int| 0 <= j < a.len() && a[j] == lb;
        if la != lb {
            assert(entry_less(la, lb));
            assert(entry_less(lb, la));
            lemma_entry_total(la, lb);
        }
        let fa = a.drop_last();
        let fb = b.drop_last();
        assert(is_ascending(fa)) by {
            assert forall|i: int, j: int| 0 <= i < j < fa.len() implies entry_less(
                #[trigger] fa[i],
                #[trigger] fa[j],
            ) by {
                assert(entry_less(a[i], a[j]));
            }
        }
        assert(is_ascending(fb)) by {
            assert forall|i: int, j: int| 0 <= i < j < fb.len() implies entry_less(
                #[trigger] fb[i],
                #[trigger] fb[j],
            ) by {
                assert(entry_less(b[i], b[j]));
            }
        }
        lemma_front_set(a);
        lemma_front_set(b);
        lemma_ascending_unique(fa, fb);
        assert(a =~= fa.push(la));
        assert(b =~= fb.push(lb));
    }
}

/// The entries before the last of a sorted list are all but the last.
proof fn lemma_front_set(a: Seq<(int, Seq<u8>)>)
    requires
        is_ascending(a),
        a.len() > 0,
    ensures
        a.drop_last().to_set() == a.to_set().remove(a.last()),
{
    let front = a.drop_last();
    assert forall|e: (int, Seq<u8>)| #[trigger] front.to_set().contains(e) <==> a.to_set().remove(
        a.last(),
    ).contains(e) by {
        if front.contains(e) {
            let i = choose|i: int| 0 <= i < front.len() && front[i] == e;
            assert(a[i] == e);
            assert(entry_less(a[i], a[a.len() - 1]));
            lemma_entry_total(a[i], a[a.len() - 1]);
        }
        if a.contains(e) && e != a.last() {
            let i = choose|i: int| 0 <= i < a.len() && a[i] == e;
            assert(front[i] == e);
        }
    }
    assert(front.to_set() =~= a.to_set().remove(a.last()));
}

/// What entries merge to: the sorted list of the entries in both lists, without duplicates.
pub open spec fn is_merged(
    merged: Seq<(int, Seq<u8>)>,
    existing: Seq<(int, Seq<u8>)>,
    additions: Seq<(int, Seq<u8>)>,
) -> bool {
    &&& is_ascending(merged)
    &&& merged.to_set() == existing.to_set().union(additions.to_set())
}

/// There is one list that entries merge to.
pub proof fn law_merge_is_unique(
    a: Seq<(int, Seq<u8>)>,
    b: Seq<(int, Seq<u8>)>,
    existing: Seq<(int, Seq<u8>)>,
    additions: Seq<(int, Seq<u8>)>,
)
    requires
        is_merged(a, existing, additions),
        is_merged(b, existing, additions),
    ensures
        a == b,
{
    lemma_ascending_unique(a, b);
}

/// Merging entries again changes nothing.
pub proof fn law_merge_is_idempotent(
    merged: Seq<(int, Seq<u8>)>,
    existing: Seq<(int, Seq<u8>)>,
    additions: Seq<(int, Seq<u8>)>,
)
    requires
        is_merged(merged, existing, additions),
    ensures
        is_merged(merged, merged, additions),
{
    assert(merged.to_set().union(additions.to_set()) =~= merged.to_set());
}

/// Puts an entry into a sorted list, unless it is there.
fn insert_entry(entries: &mut Vec<(i64, Vec<u8>)>, secs: i64, url: Vec<u8>)
    requires
        is_ascending(entry_views(old(entries)@)),
    ensures
        is_ascending(entry_views(final(entries)@)),
        entry_views(final(entries)@).to_set() == entry_views(old(entries)@).to_set().insert(
            (secs as int, url@),
        ),
{
    let ghost all = entry_views(entries@);
    let ghost entry = (secs as int, url@);
    let mut place: usize = 0;
    let mut found: bool = false;
    while place < entries.len() && !found && (entries[place].0 < secs || (entries[place].0 == secs
        && comes_before(&entries[place].1, &url)))
        invariant
            place <= entries@.len(),
            entries@ == old(entries)@,
            all == entry_views(entries@),
            entry == (secs as int, url@),
            !found,
            forall|i: int| 0 <= i < place ==> entry_less(#[trigger] all[i], entry),
        decreases entries@.len() - place,
    {
        assert(all[place as int] == (entries@[place as int].0 as int, entries@[place as int].1@));
        place = place + 1;
    }
    if place < entries.len() && entries[place].0 == secs && same_bytes(&entries[place].1, &url) {
        found = true;
    }
    if found {
        proof {
            assert(all[place as int] == entry);
            assert(all.to_set().contains(entry));
            assert(all.to_set().insert(entry) =~= all.to_set());
        }
        return;
    }
    proof {
        if place < entries@.len() {
            assert(all[place as int] == (entries@[place as int].0 as int, entries@[place as int].1@));
            lemma_entry_total(all[place as int], entry);
        }
        assert forall|i: int| place <= i < all.len() implies entry_less(entry, #[trigger] all[i]) by {
            if i > place {
                assert(entry_less(all[place as int], all[i]));
                lemma_entry_transitive(entry, all[place as int], all[i]);
            }
        }
    }
    entries.insert(place, (secs, url));
    proof {
        let now = entry_views(entries@);
        assert(now =~= all.insert(place as int, entry));
        assert forall|i: int, j: int| 0 <= i < j < now.len() implies entry_less(
            #[trigger] now[i],
            #[trigger] now[j],
        ) by {
            let i2 = if i > place {
                i - 1
            } else {
                i
            };
            let j2 = if j > place {
                j - 1
            } else {
                j
            };
            if i == place {
                assert(entry_less(entry, all[j2]));
            } else if j == place {
                assert(entry_less(all[i2], entry));
            } else {
                assert(entry_less(all[i2], all[j2]));
            }
        }
        assert forall|e: (int, Seq<u8>)| #[trigger] now.to_set().contains(e) <==> all.to_set().insert(
            entry,
        ).contains(e) by {
            if now.contains(e) {
                let i = choose|i: int| 0 <= i < now.len() && now[i] == e;
                if i < place {
                    assert(all[i] == e);
                } else if i > place {
                    assert(all[i - 1] == e);
                }
            }
            if all.contains(e) {
                let i = choose|i: int| 0 <= i < all.len() && all[i] == e;
                if i < place {
                    assert(now[i] == e);
                } else {
                    assert(now[i + 1] == e);
                }
            }
            assert(now[place as int] == entry);
        }
        assert(now.to_set() =~= all.to_set().insert(entry));
    }
}

/// Puts entries into a sorted list.
fn insert_all(entries: &mut Vec<(i64, Vec<u8>)>, additions: &Vec<(i64, Vec<u8>)>)
    requires
        is_ascending(entry_views(old(entries)@)),
    ensures
        is_ascending(entry_views(final(entries)@)),
        entry_views(final(entries)@).to_set() == entry_views(old(entries)@).to_set().union(
            entry_views(additions@).to_set(),
        ),
{
    let ghost start = entry_views(entries@).to_set();
    let ghost added = entry_views(additions@);
    let mut i: usize = 0;
    assert(added.take(0).to_set() =~= Set::empty());
    assert(start.union(Set::empty()) =~= start);
    while i < additions.len()
        invariant
            i <= additions@.len(),
            added == entry_views(additions@),
            is_ascending(entry_views(entries@)),
            entry_views(entries@).to_set() == start.union(added.take(i as int).to_set()),
        decreases additions@.len() - i,
    {
        let (secs, url) = &additions[i];
        let copy: Vec<u8> = vstd::slice::slice_to_vec(url.as_slice());
        proof {
            let entry = (*secs as int, url@);
            assert(added[i as int] == entry);
            assert(added.take(i + 1) =~= added.take(i as int).push(entry));
            lemma_push_set(added.take(i as int), entry);
            assert(start.union(added.take(i as int).to_set()).insert(entry) =~= start.union(
                added.take(i + 1).to_set(),
            ));
        }
        insert_entry(entries, *secs, copy);
        i = i + 1;
    }
    assert(added.take(i as int) =~= added);
}

/// The set of a list with one entry more.
proof fn lemma_push_set(s: Seq<(int, Seq<u8>)>, e: (int, Seq<u8>))
    ensures
        s.push(e).to_set() == s.to_set().insert(e),
{
    assert forall|x: (int, Seq<u8>)| #[trigger] s.push(e).to_set().contains(x)
        <==> s.to_set().insert(e).contains(x) by {
        if s.push(e).contains(x) {
            let i = choose|i: int| 0 <= i < s.push(e).len() && s.push(e)[i] == x;
            if i < s.len() {
                assert(s[i] == x);
            }
        }
        if s.contains(x) {
            let i = choose|i: int| 0 <= i < s.len() && s[i] == x;
            assert(s.push(e)[i] == x);
        }
        assert(s.push(e)[s.len() as int] == e);
    }
    assert(s.push(e).to_set() =~= s.to_set().insert(e));
}

/// Entries written behind others.
proof fn lemma_encoded_push(entries: Seq<(int, Seq<u8>)>, e: (int, Seq<u8>))
    ensures
        encoded(entries.push(e)) == encoded(entries) + entry_bytes(e.0, e.1.len(), e.1),
    decreases entries.len(),
{
    if entries.len() == 0 {
        let none: Seq<(int, Seq<u8>)> = Seq::empty();
        assert(entries.push(e).drop_first() =~= none);
        assert(entries.push(e)[0] == e);
        assert(encoded(none) =~= Seq::empty());
        assert(entries =~= none);
        assert(encoded(entries.push(e)) =~= encoded(entries) + entry_bytes(e.0, e.1.len(), e.1));
    } else {
        assert(entries.push(e).drop_first() =~= entries.drop_first().push(e));
        lemma_encoded_push(entries.drop_first(), e);
        assert(encoded(entries.push(e)) =~= encoded(entries) + entry_bytes(e.0, e.1.len(), e.1));
    }
}

/// The length of the first URL that is too long to be written.
pub open spec fn first_too_long(entries: Seq<(int, Seq<u8>)>) -> Option<nat>
    decreases entries.len(),
{
    if entries.len() == 0 {
        None
    } else if entries[0].1.len() > u16::MAX {
        Some(entries[0].1.len())
    } else {
        first_too_long(entries.drop_first())
    }
}

proof fn lemma_first_too_long(entries: Seq<(int, Seq<u8>)>, i: int)
    requires
        0 <= i <= entries.len(),
        forall|k: int| 0 <= k < i ==> (#[trigger] entries[k]).1.len() <= u16::MAX,
    ensures
        first_too_long(entries) == first_too_long(entries.skip(i)),
    decreases i,
{
    if i > 0 {
        assert(entries[0].1.len() <= u16::MAX);
        assert forall|k: int| 0 <= k < i - 1 implies (#[trigger] entries.drop_first()[k]).1.len()
            <= u16::MAX by {
            assert(entries[k + 1].1.len() <= u16::MAX);
        }
        lemma_first_too_long(entries.drop_first(), i - 1);
        assert(entries.drop_first().skip(i - 1) =~= entries.skip(i));
    } else {
        assert(entries.skip(0) =~= entries);
    }
}

/// Folds the entries already encoded in `existing` together with `additions` into one sorted,
/// deduplicated encoded value.
///
/// `existing` is empty when the digest has no stored captures yet.
pub fn merge_entries(existing: &[u8], additions: &Vec<(i64, Vec<u8>)>) -> (result: Result<
    Vec<u8>,
    Error,
>)
    ensures
        match result {
            Ok(bytes) => {
                &&& raw_entries(existing@) is Some
                &&& raw_entries(bytes@) matches Some(merged) && is_merged(
                    merged,
                    raw_entries(existing@).unwrap(),
                    entry_views(additions@),
                ) && bytes@ == encoded(merged)
            },
            Err(Error::DecodeTruncatedEntry) => raw_entries(existing@) is None,
            Err(Error::EncodeUrlTooLong(len)) => {
                &&& raw_entries(existing@) is Some
                &&& exists|merged: Seq<(int, Seq<u8>)>| #[trigger]
                    is_merged(
                        merged,
                        raw_entries(existing@).unwrap(),
                        entry_views(additions@),
                    ) && first_too_long(merged) == Some(len as nat)
            },
            Err(_) => false,
        },
{
    let stored = match read_entries(existing) {
        Ok(stored) => stored,
        Err(error) => return Err(error),
    };
    let mut entries: Vec<(i64, Vec<u8>)> = Vec::new();
    assert(entry_views(entries@) =~= Seq::empty());
    insert_all(&mut entries, &stored);
    insert_all(&mut entries, additions);
    let ghost merged = entry_views(entries@);
    proof {
        let none: Seq<(int, Seq<u8>)> = Seq::empty();
        assert(none.to_set() =~= Set::empty());
        assert(merged.to_set() =~= entry_views(stored@).to_set().union(
            entry_views(additions@).to_set(),
        ));
        assert(is_merged(merged, raw_entries(existing@).unwrap(), entry_views(additions@)));
    }
    let mut bytes: Vec<u8> = Vec::new();
    let mut i: usize = 0;
    assert(merged.take(0) =~= Seq::empty());
    assert(bytes@ =~= encoded(merged.take(0)));
    while i < entries.len()
        invariant
            i <= entries@.len(),
            merged == entry_views(entries@),
            raw_entries(existing@) is Some,
            is_merged(merged, raw_entries(existing@).unwrap(), entry_views(additions@)),
            forall|k: int| 0 <= k < i ==> (#[trigger] merged[k]).1.len() <= u16::MAX,
            bytes@ == encoded(merged.take(i as int)),
        decreases entries@.len() - i,
    {
        let (secs, url) = &entries[i];
        assert(merged[i as int] == (*secs as int, url@));
        if url.len() > u16::MAX as usize {
            proof {
                lemma_first_too_long(merged, i as int);
                assert(merged.skip(i as int)[0] == merged[i as int]);
            }
            return Err(Error::EncodeUrlTooLong(url.len()));
        }
        encode_entry(&mut bytes, *secs, url.len() as u16, url);
        proof {
            assert(merged.take(i + 1) =~= merged.take(i as int).push(merged[i as int]));
            lemma_encoded_push(merged.take(i as int), merged[i as int]);
        }
        i = i + 1;
    }
    proof {
        assert(merged.take(i as int) =~= merged);
        assert forall|k: int| 0 <= k < merged.len() implies is_encodable(#[trigger] merged[k]) by {
            assert(merged[k].1.len() <= u16::MAX);
        }
        law_entries_read_back(merged);
    }
    Ok(bytes)
}

/// A capture, as text and number.
pub open spec fn capture_view(capture: UrlParts<'_>) -> (Seq<char>, int) {
    (capture.url@, capture.timestamp@)
}

/// Captures, as texts and numbers.
pub open spec fn capture_views(captures: Seq<UrlParts<'static>>) -> Seq<(Seq<char>, int)> {
    captures.map_values(|capture: UrlParts<'static>| capture_view(capture))
}

/// Why an entry is not a capture, if it is none.
pub open spec fn entry_problem(entry: (int, Seq<u8>)) -> Option<Error> {
    if !timestamp::is_supported(entry.0) {
        Some(Error::DecodeInvalidCaptureSecs(entry.0 as i64))
    } else if !vstd::utf8::valid_utf8(entry.1) {
        Some(Error::Utf8)
    } else {
        None
    }
}

/// The captures of a stored value, or what is wrong with its first entry that is no capture.
pub open spec fn decoded(bytes: Seq<u8>) -> Result<Seq<(Seq<char>, int)>, Error>
    decreases bytes.len(),
{
    if bytes.len() == 0 {
        Ok(Seq::empty())
    } else {
        match first_entry(bytes) {
            None => Err(Error::DecodeTruncatedEntry),
            Some((secs, url)) => match entry_problem((secs, url)) {
                Some(problem) => Err(problem),
                None => match decoded(bytes.skip(10 + url.len() as int)) {
                    Ok(rest) => Ok(seq![(vstd::utf8::decode_utf8(url), secs)] + rest),
                    Err(problem) => Err(problem),
                },
            },
        }
    }
}

/// The capture that an entry stands for.
pub open spec fn capture_of(entry: (int, Seq<u8>)) -> (Seq<char>, int) {
    (vstd::utf8::decode_utf8(entry.1), entry.0)
}

/// A stored value can be decoded exactly if it is a sequence of whole entries that all are captures.
pub proof fn lemma_decoded_entries(bytes: Seq<u8>)
    ensures
        match decoded(bytes) {
            Ok(found) => {
                &&& raw_entries(bytes) matches Some(entries)
                &&& found == entries.map_values(|entry: (int, Seq<u8>)| capture_of(entry))
                &&& forall|i: int|
                    0 <= i < entries.len() ==> entry_problem(#[trigger] entries[i]) is None
            },
            Err(_) => raw_entries(bytes) matches Some(entries) ==> exists|i: int|
                0 <= i < entries.len() && entry_problem(#[trigger] entries[i]) is Some,
        },
    decreases bytes.len(),
{
    if bytes.len() == 0 {
        let none: Seq<(int, Seq<u8>)> = Seq::empty();
        assert(none.map_values(|entry: (int, Seq<u8>)| capture_of(entry)) =~= Seq::empty());
    } else if let Some((secs, url)) = first_entry(bytes) {
        let rest = bytes.skip(10 + url.len() as int);
        lemma_decoded_entries(rest);
        if let Some(tail) = raw_entries(rest) {
            let entries = seq![(secs, url)] + tail;
            assert(entries[0] == (secs, url));
            assert(entries.map_values(|entry: (int, Seq<u8>)| capture_of(entry)) =~= seq![
                capture_of((secs, url)),
            ] + tail.map_values(|entry: (int, Seq<u8>)| capture_of(entry)));
            assert forall|i: int| 0 < i < entries.len() implies #[trigger] entries[i] == tail[i
                - 1] by {}
            if decoded(rest) is Err {
                let i = choose|i: int|
                    0 <= i < tail.len() && entry_problem(#[trigger] tail[i]) is Some;
                assert(entries[i + 1] == tail[i]);
            }
        }
    }
}

/// Decodes a stored value into captures.
pub fn decode_captures(raw: &[u8]) -> (result: Result<Vec<UrlParts<'static>>, Error>)
    ensures
        decoded(raw@) == match result {
            Ok(captures) => Ok::<Seq<(Seq<char>, int)>, Error>(capture_views(captures@)),
            Err(error) => Err(error),
        },
{
    let mut captures: Vec<UrlParts<'static>> = Vec::new();
    let mut at: usize = 0;
    assert(raw@.skip(0) =~= raw@);
    proof {
        if let Ok(rest) = decoded(raw@) {
            assert(capture_views(captures@) + rest =~= rest);
        }
    }
    while at < raw.len()
        invariant
            at <= raw@.len(),
            decoded(raw@) == match decoded(raw@.skip(at as int)) {
                Ok(rest) => Ok::<Seq<(Seq<char>, int)>, Error>(capture_views(captures@) + rest),
                Err(problem) => Err(problem),
            },
        decreases raw@.len() - at,
    {
        let ghost rest = raw@.skip(at as int);
        let ghost before = captures@;
        let (secs, url): (i64, Vec<u8>) = match read_entry(raw, at) {
            Some(entry) => entry,
            None => return Err(Error::DecodeTruncatedEntry),
        };
        let timestamp = match Timestamp::from_secs(secs) {
            Ok(timestamp) => timestamp,
            Err(_) => return Err(Error::DecodeInvalidCaptureSecs(secs)),
        };
        let text = match utf8_text(url.as_slice()) {
            Some(text) => text,
            None => return Err(Error::Utf8),
        };
        let len: usize = url.len();
        let ghost view = (text@, secs as int);
        captures.push(UrlParts::new(Cow::Owned(text), timestamp));
        proof {
            vstd::utf8::encode_utf8_decode_utf8(view.0);
            vstd::utf8::encode_utf8_valid_utf8(view.0);
            let next = at + 10 + len;
            assert(rest.skip(10 + len as int) =~= raw@.skip(next));
            assert(capture_views(captures@) =~= capture_views(before).push(view));
            if let Ok(tail) = decoded(raw@.skip(next)) {
                assert(capture_views(captures@) + tail =~= capture_views(before) + (seq![view]
                    + tail));
            }
        }
        at = at + ENTRY_HEADER_LEN + len;
    }
    proof {
        assert(raw@.skip(at as int) =~= Seq::empty());
        assert(capture_views(captures@) + Seq::<(Seq<char>, int)>::empty() =~= capture_views(
            captures@,
        ));
    }
    Ok(captures)
}

/// An entry is laid out in ten bytes and the URL: the seconds in eight bytes, the most significant first and
/// negative ones as two's complement, and the length of the URL in two, the least significant first.
pub proof fn law_entry_layout(secs: int, url_len: nat, url: Seq<u8>)
    requires
        i64::MIN <= secs <= i64::MAX,
        url_len <= u16::MAX,
    ensures
        ({
            let bytes = entry_bytes(secs, url_len, url);
            let number = numeral::value(digest::byte_digits(bytes.take(8)), 256);
            &&& bytes.len() == 10 + url.len()
            &&& number == secs || number == secs + 0x1_0000_0000_0000_0000
            &&& number < 0x1_0000_0000_0000_0000
            &&& bytes[8] + 256 * bytes[9] == url_len
            &&& bytes.skip(10) == url
        }),
{
    let n = unsigned(secs);
    let places = numeral::digits(n, 256, 8);
    numeral::lemma_digits_len(n, 256, 8);
    assert(numeral::power(256, 8) == 0x1_0000_0000_0000_0000) by {
        reveal_with_fuel(numeral::power, 9);
    }
    numeral::lemma_value_of_digits(n, 256, 8);
    let bytes = entry_bytes(secs, url_len, url);
    assert(bytes.take(8) =~= big_endian(n, 8));
    assert(digest::byte_digits(bytes.take(8)) =~= places) by {
        assert forall|i: int| 0 <= i < 8 implies digest::byte_digits(bytes.take(8))[i] == places[i] by {
            assert(places[i] < 256);
        }
    }
    assert(bytes.skip(10) =~= url);
}

/// Bytes are in order by the first that differs, and a text comes before what it is the start of.
pub proof fn law_bytes_are_ordered(a: Seq<u8>, b: Seq<u8>)
    ensures
        bytes_less(a, b) <==> exists|k: int|
            {
                &&& 0 <= k <= a.len()
                &&& k < b.len()
                &&& #[trigger] a.take(k) == b.take(k)
                &&& k == a.len() || a[k] < b[k]
            },
    decreases a.len(),
{
    if b.len() > 0 && a.len() > 0 {
        let a_rest = a.drop_first();
        let b_rest = b.drop_first();
        law_bytes_are_ordered(a_rest, b_rest);
        if a[0] == b[0] {
            if bytes_less(a, b) {
                let k = choose|k: int|
                    {
                        &&& 0 <= k <= a_rest.len()
                        &&& k < b_rest.len()
                        &&& #[trigger] a_rest.take(k) == b_rest.take(k)
                        &&& k == a_rest.len() || a_rest[k] < b_rest[k]
                    };
                assert(a.take(k + 1) =~= seq![a[0]] + a_rest.take(k));
                assert(b.take(k + 1) =~= seq![b[0]] + b_rest.take(k));
                assert(a.take(k + 1) == b.take(k + 1));
            }
            if exists|k: int|
                {
                    &&& 0 <= k <= a.len()
                    &&& k < b.len()
                    &&& #[trigger] a.take(k) == b.take(k)
                    &&& k == a.len() || a[k] < b[k]
                } {
                let k = choose|k: int|
                    {
                        &&& 0 <= k <= a.len()
                        &&& k < b.len()
                        &&& #[trigger] a.take(k) == b.take(k)
                        &&& k == a.len() || a[k] < b[k]
                    };
                assert(k > 0);
                assert(a_rest.take(k - 1) =~= a.take(k).drop_first());
                assert(b_rest.take(k - 1) =~= b.take(k).drop_first());
                assert(a_rest.take(k - 1) == b_rest.take(k - 1));
            }
        } else {
            if a[0] < b[0] {
                assert(a.take(0) =~= b.take(0));
            }
            assert forall|k: int|
                {
                    &&& 0 <= k <= a.len()
                    &&& k < b.len()
                    &&& #[trigger] a.take(k) == b.take(k)
                    &&& k == a.len() || a[k] < b[k]
                } implies a[0] < b[0] by {
                if k > 0 {
                    assert(a.take(k)[0] == a[0] && b.take(k)[0] == b[0]);
                }
            }
        }
    } else if b.len() > 0 {
        assert(a.take(0) =~= b.take(0));
    }
}

/// Captures come in the order of their times, and those of the same time in the order of their URLs.
pub proof fn law_entries_are_ordered_by_time(a: (int, Seq<u8>), b: (int, Seq<u8>))
    ensures
        a.0 < b.0 ==> entry_less(a, b),
        a.0 > b.0 ==> !entry_less(a, b),
        a.0 == b.0 ==> (entry_less(a, b) <==> bytes_less(a.1, b.1)),
{
}

/// Stored entries decode to captures with their times and the texts of their URLs. The first whose time is not
/// supported, or else whose URL is not UTF-8, is reported in their place.
pub proof fn law_first_bad_entry_is_reported(entries: Seq<(int, Seq<u8>)>)
    requires
        forall|i: int| 0 <= i < entries.len() ==> is_encodable(#[trigger] entries[i]),
    ensures
        match decoded(encoded(entries)) {
            Ok(found) => {
                &&& found.len() == entries.len()
                &&& forall|i: int|
                    0 <= i < entries.len() ==> {
                        &&& timestamp::is_supported((#[trigger] entries[i]).0)
                        &&& vstd::utf8::encode_utf8(found[i].0) == entries[i].1
                        &&& found[i].1 == entries[i].0
                    }
            },
            Err(error) => exists|i: int|
                {
                    &&& 0 <= i < entries.len()
                    &&& forall|k: int|
                        0 <= k < i ==> timestamp::is_supported((#[trigger] entries[k]).0)
                            && vstd::utf8::valid_utf8(entries[k].1)
                    &&& if timestamp::is_supported((#[trigger] entries[i]).0) {
                        !vstd::utf8::valid_utf8(entries[i].1) && error is Utf8
                    } else {
                        error == Error::DecodeInvalidCaptureSecs(entries[i].0 as i64)
                    }
                },
        },
    decreases entries.len(),
{
    if entries.len() > 0 {
        let rest = entries.drop_first();
        let bytes = encoded(entries);
        law_entries_read_back(entries);
        let (secs, url) = entries[0];
        assert(is_encodable(entries[0]));
        assert(first_entry(bytes) is Some);
        assert(first_entry(bytes).unwrap() == entries[0]) by {
            assert(raw_entries(bytes).unwrap()[0] == entries[0]);
        }
        let head = entry_bytes(secs, url.len(), url);
        law_entry_layout(secs, url.len(), url);
        assert(bytes.skip(10 + url.len() as int) =~= encoded(rest));
        assert forall|i: int| 0 <= i < rest.len() implies is_encodable(#[trigger] rest[i]) by {
            assert(is_encodable(entries[i + 1]));
        }
        law_first_bad_entry_is_reported(rest);
        if entry_problem(entries[0]) is None {
            match decoded(encoded(rest)) {
                Ok(found) => {
                    let all = decoded(bytes)->Ok_0;
                    assert forall|i: int| 0 <= i < entries.len() implies {
                        &&& timestamp::is_supported((#[trigger] entries[i]).0)
                        &&& vstd::utf8::encode_utf8(all[i].0) == entries[i].1
                        &&& all[i].1 == entries[i].0
                    } by {
                        if i == 0 {
                            vstd::utf8::decode_utf8_encode_utf8(url);
                        } else {
                            assert(rest[i - 1] == entries[i]);
                            assert(all[i] == found[i - 1]);
                        }
                    }
                },
                Err(error) => {
                    let i = choose|i: int|
                        {
                            &&& 0 <= i < rest.len()
                            &&& forall|k: int|
                                0 <= k < i ==> timestamp::is_supported((#[trigger] rest[k]).0)
                                    && vstd::utf8::valid_utf8(rest[k].1)
                            &&& if timestamp::is_supported((#[trigger] rest[i]).0) {
                                !vstd::utf8::valid_utf8(rest[i].1) && error is Utf8
                            } else {
                                error == Error::DecodeInvalidCaptureSecs(rest[i].0 as i64)
                            }
                        };
                    assert(entries[i + 1] == rest[i]);
                    assert forall|k: int| 0 <= k < i + 1 implies timestamp::is_supported(
                        (#[trigger] entries[k]).0,
                    ) && vstd::utf8::valid_utf8(entries[k].1) by {
                        if k > 0 {
                            assert(rest[k - 1] == entries[k]);
                        }
                    }
                },
            }
        } else {
            assert(entries[0] == (secs, url));
        }
    }
}

/// The first entry whose URL takes more than 65,535 bytes is the one whose length is reported.
pub proof fn law_first_long_url_is_reported(entries: Seq<(int, Seq<u8>)>)
    ensures
        match first_too_long(entries) {
            Some(len) => exists|i: int|
                {
                    &&& 0 <= i < entries.len()
                    &&& (#[trigger] entries[i]).1.len() == len
                    &&& len >= 0x1_0000
                    &&& forall|k: int| 0 <= k < i ==> (#[trigger] entries[k]).1.len() < 0x1_0000
                },
            None => forall|k: int| 0 <= k < entries.len() ==> (#[trigger] entries[k]).1.len() < 0x1_0000,
        },
    decreases entries.len(),
{
    if entries.len() > 0 && entries[0].1.len() < 0x1_0000 {
        let rest = entries.drop_first();
        law_first_long_url_is_reported(rest);
        assert forall|k: int| 0 < k < entries.len() implies #[trigger] entries[k] == rest[k - 1] by {}
        if let Some(len) = first_too_long(rest) {
            let i = choose|i: int|
                {
                    &&& 0 <= i < rest.len()
                    &&& (#[trigger] rest[i]).1.len() == len
                    &&& len >= 0x1_0000
                    &&& forall|k: int| 0 <= k < i ==> (#[trigger] rest[k]).1.len() < 0x1_0000
                };
            assert(entries[i + 1].1.len() == len);
        }
    } else if entries.len() > 0 {
        assert(entries[0].1.len() >= 0x1_0000);
    }
}

} // verus!
