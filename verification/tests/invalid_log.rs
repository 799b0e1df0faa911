use std::borrow::Cow;

use archivindex_wbm::digest::{Digest, Sha1Digest};
use archivindex_wbm::download::{
    after_page, check_cached, check_reply, is_cacheable, read_queue, CacheStep, FailedDownload,
    NextPage, Record,
};
use archivindex_wbm::invalid_log::{expected_digests, Database, Entry};
use archivindex_wbm::item::{ItemInfo, UrlParts};
use archivindex_wbm::timestamp::Timestamp;

fn timestamp(text: &str) -> Timestamp {
    Timestamp::parse_str(text).unwrap()
}

fn digest(text: &str) -> Sha1Digest {
    Sha1Digest::parse_str(text).unwrap()
}

fn entry(url: &'static str, time: &str, expected: Digest<'static>, actual: &str) -> Entry<'static> {
    Entry::new(
        ItemInfo::new(UrlParts::new(Cow::Borrowed(url), timestamp(time)), expected),
        digest(actual),
    )
}

fn example_entry_01() -> Entry<'static> {
    entry(
        "https://twitter.com/grok/status/1957246187121336480",
        "20250818010029",
        Digest::parse_str("ZPAHZNJM55YENSONKC7DXEHZ5XCLGPGU"),
        "3GLCSCLXQ4NPRKRPEZCI55PGUG472WGE",
    )
}

fn example_entry_02() -> Entry<'static> {
    entry(
        "https://twitter.com/example/status/9999999999",
        "20250101120000",
        Digest::parse_str("AAAAAAAAAAAAAAAAAAAAAAAAAAAAAAA2"),
        "BBBBBBBBBBBBBBBBBBBBBBBBBBBBBBB3",
    )
}

fn now() -> i64 {
    chrono::Utc::now().timestamp()
}

#[test]
fn test_insert_invalid_digest() {
    let mut database = Database::in_memory();

    let timestamp_01 = now();
    let timestamp_02 = timestamp_01 + 10;

    assert!(database.insert_invalid_digest(&example_entry_01(), timestamp_01));
    assert!(!database.insert_invalid_digest(&example_entry_01(), timestamp_02));
}

#[test]
fn test_insert_withheld() {
    let mut database = Database::in_memory();

    let url = "https://twitter.com/example/status/1234567890";
    let timestamp_01 = now();
    let timestamp_02 = timestamp_01 + 10;

    // First observation is inserted.
    assert!(database.insert_withheld(url, timestamp_01));
    // The same URL re-observed at a different time is a new row.
    assert!(database.insert_withheld(url, timestamp_02));
    // The same `(URL, timestamp)` pair is deduplicated.
    assert!(!database.insert_withheld(url, timestamp_01));
}

#[test]
fn test_invalid_digests_iterator() {
    let mut database = Database::in_memory();

    let base_time = now();
    let timestamp_01 = base_time;
    let timestamp_02 = base_time + 10;
    let timestamp_03 = base_time + 20;

    // Insert three entries at different times.
    database.insert_invalid_digest(&example_entry_01(), timestamp_01);
    database.insert_invalid_digest(&example_entry_02(), timestamp_02);
    // A different observation time does not make the same invalid-digest entry distinct.
    database.insert_invalid_digest(&example_entry_01(), timestamp_03);

    // Test iterating over all entries.
    let all_entries = database.invalid_digests(None);

    // Only two unique entries (`entry_01` is inserted twice but is deduplicated).
    assert_eq!(all_entries.len(), 2);

    // Verify entries are ordered by timestamp.
    assert!(all_entries[0].observed <= all_entries[1].observed);

    // Test iterating from a specific timestamp.
    let filtered_entries = database.invalid_digests(Some(base_time + 5));

    assert_eq!(filtered_entries.len(), 1);
    assert_eq!(filtered_entries[0].entry, example_entry_02());
}

#[test]
fn test_invalid_digests_empty() {
    let database = Database::in_memory();

    let entries = database.invalid_digests(None);

    assert_eq!(entries.len(), 0);
}

#[test]
fn test_withheld_urls_iterator() {
    let mut database = Database::in_memory();

    let base_time = now();
    let timestamp_01 = base_time;
    let timestamp_02 = base_time + 10;
    let timestamp_03 = base_time + 20;

    let url_01 = "https://twitter.com/example1/status/1111111111";
    let url_02 = "https://twitter.com/example2/status/2222222222";

    // Insert withheld URLs at different times.
    database.insert_withheld(url_01, timestamp_01);
    database.insert_withheld(url_02, timestamp_02);
    // The same URL re-observed at a different time is recorded as its own row.
    database.insert_withheld(url_01, timestamp_03);

    // Test iterating over all entries.
    let all_entries = database.withheld_urls(None);

    assert_eq!(all_entries.len(), 3);
    assert_eq!(all_entries[0].url, url_01);
    assert_eq!(all_entries[1].url, url_02);
    assert_eq!(all_entries[2].url, url_01);

    // Verify entries are ordered by timestamp.
    assert!(all_entries[0].observed <= all_entries[1].observed);
    assert!(all_entries[1].observed <= all_entries[2].observed);

    // Test iterating from a specific timestamp (excludes the first observation).
    let filtered_entries = database.withheld_urls(Some(base_time + 5));

    assert_eq!(filtered_entries.len(), 2);
    assert_eq!(filtered_entries[0].url, url_02);
    assert_eq!(filtered_entries[1].url, url_01);
}

#[test]
fn test_withheld_urls_empty() {
    let database = Database::in_memory();

    let entries = database.withheld_urls(None);

    assert_eq!(entries.len(), 0);
}

#[test]
fn test_merge_from() {
    let mut db1 = Database::in_memory();
    let mut db2 = Database::in_memory();

    let base_time = now();
    let older_time = base_time - 100;
    let newer_time = base_time + 100;

    // Add entry to `db1` with base_time.
    db1.insert_invalid_digest(&example_entry_01(), base_time);

    // Add same entry to `db2` with older_time (should win when merged).
    db2.insert_invalid_digest(&example_entry_01(), older_time);
    db2.insert_invalid_digest(&example_entry_02(), newer_time);

    let url1 = "https://twitter.com/test1/status/111";
    db1.insert_withheld(url1, base_time);

    // The same withheld URL in `db2` at a different time is a distinct observation, so merging
    // adds it alongside `db1`'s rather than replacing it.
    db2.insert_withheld(url1, older_time);

    // Add different withheld URL to `db2`.
    let url2 = "https://twitter.com/test2/status/222";
    db2.insert_withheld(url2, newer_time);

    db1.merge(&db2);

    let invalid_digests = db1.invalid_digests(None);

    assert_eq!(invalid_digests.len(), 2);

    // First entry should have the older timestamp from `db2`.
    let entry_01_result =
        invalid_digests.iter().find(|record| record.entry == example_entry_01());
    assert!(entry_01_result.is_some());
    assert_eq!(entry_01_result.unwrap().observed, older_time);

    // Second entry should be present.
    let entry_02_result =
        invalid_digests.iter().find(|record| record.entry == example_entry_02());
    assert!(entry_02_result.is_some());

    let withheld_urls = db1.withheld_urls(None);
    assert_eq!(withheld_urls.len(), 3);

    // Both observations of the first URL are present; results are ordered by observation time,
    // so `db2`'s older one comes first.
    let url1_timestamps = withheld_urls
        .iter()
        .filter(|record| record.url == url1)
        .map(|record| record.observed)
        .collect::<Vec<_>>();
    assert_eq!(url1_timestamps, vec![older_time, base_time]);

    // Second URL should be present.
    let url2_result = withheld_urls.iter().find(|record| record.url == url2);
    assert!(url2_result.is_some());
}

#[test]
fn test_merge_from_keeps_older() {
    let mut db1 = Database::in_memory();
    let mut db2 = Database::in_memory();

    let base_time = now();
    let older_time = base_time - 100;
    let newer_time = base_time + 100;

    // Add entry to `db1` with older_time.
    db1.insert_invalid_digest(&example_entry_01(), older_time);

    // Add same entry to `db2` with newer_time (should not win when merged).
    db2.insert_invalid_digest(&example_entry_01(), newer_time);

    db1.merge(&db2);

    // Check that `db1` kept the older timestamp.
    let invalid_digests = db1.invalid_digests(None);

    assert_eq!(invalid_digests.len(), 1);
    assert_eq!(invalid_digests[0].observed, older_time);
}

#[test]
fn export_import_round_trip() {
    let mut source = Database::in_memory();
    let base = now();

    source.insert_invalid_digest(&example_entry_01(), base);
    source.insert_invalid_digest(&example_entry_02(), base + 5);
    let url = "https://twitter.com/example/status/42";
    source.insert_withheld(url, base);
    // Same URL observed at a different time: a distinct withheld row.
    source.insert_withheld(url, base + 10);

    let export = source.export();
    assert_eq!(export.invalid_digests.len(), 2);
    assert_eq!(export.withheld_urls.len(), 2);

    // Importing into a fresh database reproduces it exactly.
    let mut target = Database::in_memory();
    target.import(&export);
    assert_eq!(target.export(), export);
}

#[test]
fn test_merge_with_self_is_a_no_op() {
    let mut database = Database::in_memory();
    database.insert_invalid_digest(&example_entry_01(), now());
    let mut same = Database::in_memory();
    same.import(&database.export());

    database.merge(&same);

    assert_eq!(database.invalid_digests(None).len(), 1);
    assert_eq!(database.export(), same.export());
}

#[test]
fn test_invalid_expected_digest_round_trips() {
    let mut database = Database::in_memory();

    // An expected digest that is not valid Base32.
    let entry = entry(
        "https://twitter.com/example/status/1",
        "20250101120000",
        Digest::Invalid("not-a-digest".into()),
        "3GLCSCLXQ4NPRKRPEZCI55PGUG472WGE",
    );

    database.insert_invalid_digest(&entry, now());

    let read = database.invalid_digests(None);
    assert_eq!(read.len(), 1);
    assert_eq!(read[0].entry, entry);
}

#[test]
fn test_import_keeps_existing_timestamps_unlike_merge() {
    let older = now();
    let newer = older + 100;

    let mut source = Database::in_memory();
    source.insert_invalid_digest(&example_entry_01(), older);
    let export = source.export();

    // `import` ignores the conflicting row, keeping the newer existing timestamp.
    let mut imported = Database::in_memory();
    imported.insert_invalid_digest(&example_entry_01(), newer);
    imported.import(&export);
    assert_eq!(imported.invalid_digests(None)[0].observed, newer);

    // `merge` keeps the earliest observation timestamp.
    let mut merged = Database::in_memory();
    merged.insert_invalid_digest(&example_entry_01(), newer);
    merged.merge(&source);
    assert_eq!(merged.invalid_digests(None)[0].observed, older);
}

#[test]
fn test_from_timestamp_boundary_is_inclusive() {
    let mut database = Database::in_memory();
    let timestamp = now();

    database.insert_invalid_digest(&example_entry_01(), timestamp);

    assert_eq!(database.invalid_digests(Some(timestamp)).len(), 1);
    assert_eq!(database.invalid_digests(Some(timestamp + 1)).len(), 0);
}

#[test]
fn merging_commutes_and_associates() {
    let entries = [example_entry_01(), example_entry_02()];
    let log = |rows: &[(usize, i64)]| {
        let mut log = Database::in_memory();
        for (place, observed) in rows {
            log.insert_invalid_digest(&entries[*place], *observed);
            log.insert_withheld("https://example.com/", *observed);
        }
        log
    };
    let merged = |logs: &[&Database]| {
        let mut target = Database::in_memory();
        for log in logs {
            target.merge(log);
        }
        target.export()
    };
    let (a, b, c) = (log(&[(0, 5)]), log(&[(0, 3), (1, 9)]), log(&[(1, 2)]));

    assert_eq!(merged(&[&a, &b]), merged(&[&b, &a]));
    assert_eq!(merged(&[&a, &b, &c]), merged(&[&c, &a, &b]));
}

#[test]
fn expected_digests_are_those_of_the_last_row() {
    let mut database = Database::in_memory();
    database.insert_invalid_digest(&example_entry_01(), 5);
    let found = expected_digests(&database.invalid_digests(None));

    assert_eq!(
        found.get(&digest("3GLCSCLXQ4NPRKRPEZCI55PGUG472WGE")),
        Some(&Digest::parse_str("ZPAHZNJM55YENSONKC7DXEHZ5XCLGPGU"))
    );
    assert_eq!(found.get(&digest("BBBBBBBBBBBBBBBBBBBBBBBBBBBBBBB3")), None);
}

#[test]
fn replies_are_checked_against_the_expected_digest() {
    let url = "https://example.com/";
    let time = timestamp("20200101000000");
    let actual = Sha1Digest::compute(b"body");

    let verified = check_reply(url, time, &Digest::Valid(actual), Ok(b"body"));
    assert!(verified.is_served);
    assert_eq!(verified.actual_digest, None);
    assert_eq!(verified.record, None);

    for expected in [Digest::Valid(Sha1Digest::compute(b"other")), Digest::parse_str("-")] {
        let mismatch = check_reply(url, time, &expected, Ok(b"body"));
        assert!(mismatch.is_served);
        assert_eq!(mismatch.actual_digest, Some(actual));
        let Some(Record::InvalidDigest(entry)) = mismatch.record else {
            panic!("a mismatch is recorded");
        };
        assert_eq!(entry.actual_digest, actual);
        assert_eq!(entry.item_info.expected_digest, expected);
        assert_eq!(entry.item_info.url_parts, UrlParts::new(Cow::Borrowed(url), time));
    }

    let withheld = check_reply(url, time, &Digest::Valid(actual), Err(FailedDownload::Forbidden));
    assert!(!withheld.is_served);
    assert_eq!(withheld.record, Some(Record::Withheld(url.to_string())));
    let missing = check_reply(url, time, &Digest::Valid(actual), Err(FailedDownload::NotFound));
    assert!(!missing.is_served);
    assert_eq!(missing.record, None);
}

#[test]
fn a_download_queue_is_read_from_rows() {
    let items = read_queue(
        "\"https://example.com/a,b\",20200101000000,ZPAHZNJM55YENSONKC7DXEHZ5XCLGPGU\n",
    )
    .expect("valid queue");
    assert_eq!(
        items,
        vec![ItemInfo::new(
            UrlParts::new(Cow::Borrowed("https://example.com/a,b"), timestamp("20200101000000")),
            Digest::parse_str("ZPAHZNJM55YENSONKC7DXEHZ5XCLGPGU"),
        )]
    );
    assert!(read_queue("a,b\n").is_err());
    assert!(read_queue("a,never,ZPAHZNJM55YENSONKC7DXEHZ5XCLGPGU\n").is_err());
    assert!(read_queue("a,20200101000000,digest\n").is_err());
    assert!(read_queue("a,20200101000000,ZPAHZNJM55YENSONKC7DXEHZ5XCLGPGU\nb\n").is_err());
}

#[test]
fn a_cache_serves_only_content_with_the_digest() {
    let expected = Sha1Digest::compute(b"body");

    assert_eq!(check_cached(expected, None), CacheStep::Fetch);
    assert_eq!(check_cached(expected, Some(b"body")), CacheStep::Serve);
    assert_eq!(check_cached(expected, Some(b"corrupted")), CacheStep::Replace);
    assert!(is_cacheable(expected, Some(b"body")));
    assert!(!is_cacheable(expected, Some(b"other")));
    assert!(!is_cacheable(expected, None));
}

#[test]
fn pages_are_followed_on_request() {
    let key = || Some("key".to_string());
    assert_eq!(after_page(key(), true), NextPage::Fetch("key".to_string()));
    assert_eq!(after_page(key(), false), NextPage::Report("key".to_string()));
    assert_eq!(after_page(None, true), NextPage::Stop);
}
