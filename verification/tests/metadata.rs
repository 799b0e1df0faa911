use std::borrow::Cow;

use archivindex_wbm::capture_index::{
    exclude_listed, exclude_snapshots, fill_metadata, import_metadata, is_missing, missing_items,
    write_item, FillCounts, ImportCounts, ImportError, SortOrder, StoredItem,
};
use archivindex_wbm::captures::{
    decode_captures, encode_entry, merge_entries, read_entries, Error, ENTRY_HEADER_LEN,
};
use archivindex_wbm::cdx::Item;
use archivindex_wbm::digest::{Digest, Sha1Digest};
use archivindex_wbm::digest_table::DigestTable;
use archivindex_wbm::item::UrlParts;
use archivindex_wbm::metadata::{Capture, MetadataDb};
use archivindex_wbm::timestamp::Timestamp;

fn timestamp(input: &str) -> Timestamp {
    Timestamp::parse_str(input).expect("valid test timestamp")
}

fn capture(url: &str, timestamp_input: &str) -> UrlParts<'static> {
    UrlParts::new(Cow::Owned(url.to_string()), timestamp(timestamp_input))
}

fn record(digest: Sha1Digest, timestamp_input: &str, url: &str) -> Capture {
    Capture { digest, timestamp: timestamp(timestamp_input), original: url.to_string() }
}

#[test]
fn insert_sorts_by_timestamp_and_collapses_duplicates() {
    let mut db = MetadataDb::new();
    let digest = Sha1Digest::from_bytes(&[1; 20]);

    db.insert(digest, timestamp("20210315000000"), "http://example.com/late").expect("insert");
    db.insert(digest, timestamp("20200101120000"), "http://example.com/early").expect("insert");
    db.insert(digest, timestamp("20210315000000"), "http://example.com/late").expect("insert");

    let results = db.multi_get(&vec![digest]).expect("multi_get");

    assert_eq!(
        results,
        vec![Some(vec![
            capture("http://example.com/early", "20200101120000"),
            capture("http://example.com/late", "20210315000000"),
        ])]
    );
}

#[test]
fn insert_batch_sorts_and_collapses_duplicates_across_batches() {
    let mut db = MetadataDb::new();
    let first = Sha1Digest::from_bytes(&[6; 20]);
    let second = Sha1Digest::from_bytes(&[7; 20]);

    db.insert_batch(&vec![
        record(first, "20210315000000", "http://example.com/late"),
        record(second, "20220601000000", "http://example.com/other"),
        record(first, "20200101120000", "http://example.com/early"),
    ])
    .expect("insert batch");
    // A duplicate arriving in a later batch must still be collapsed.
    db.insert_batch(&vec![record(first, "20210315000000", "http://example.com/late")])
        .expect("insert batch");

    let results = db.multi_get(&vec![first, second]).expect("multi_get");

    assert_eq!(
        results,
        vec![
            Some(vec![
                capture("http://example.com/early", "20200101120000"),
                capture("http://example.com/late", "20210315000000"),
            ]),
            Some(vec![capture("http://example.com/other", "20220601000000")]),
        ]
    );
}

#[test]
fn insert_batch_rejects_an_overlong_url_without_writing() {
    let mut db = MetadataDb::new();
    let digest = Sha1Digest::from_bytes(&[8; 20]);
    let url = "a".repeat(usize::from(u16::MAX) + 1);

    let result = db.insert_batch(&vec![
        record(digest, "20220601000000", "http://example.com/"),
        record(digest, "20220601000000", url.as_str()),
    ]);

    assert!(matches!(result, Err(Error::EncodeUrlTooLong(_))));
    // The batch is atomic, so the valid capture before the overlong one was not written.
    assert_eq!(db.multi_get(&vec![digest]).expect("multi_get"), vec![None]);
}

#[test]
fn multi_get_preserves_order_and_reports_missing_digests() {
    let mut db = MetadataDb::new();
    let present = Sha1Digest::from_bytes(&[2; 20]);
    let missing = Sha1Digest::from_bytes(&[3; 20]);

    db.insert(present, timestamp("20220601000000"), "http://example.com/").expect("insert");

    let results = db.multi_get(&vec![missing, present]).expect("multi_get");

    assert_eq!(results, vec![None, Some(vec![capture("http://example.com/", "20220601000000")])]);
}

#[test]
fn decode_captures_errors_on_truncated_entries() {
    // Fewer bytes than the 10-byte entry header.
    assert!(matches!(
        decode_captures(&[0; ENTRY_HEADER_LEN - 1]),
        Err(Error::DecodeTruncatedEntry)
    ));

    // A complete header that announces one more URL byte than remains.
    let mut raw = Vec::new();
    encode_entry(&mut raw, 1_600_000_000, 4, b"abc");
    assert!(matches!(decode_captures(&raw), Err(Error::DecodeTruncatedEntry)));

    // A valid entry followed by a truncated fragment still errors.
    let mut raw = Vec::new();
    encode_entry(&mut raw, 1_600_000_000, 3, b"abc");
    raw.push(0);
    assert!(matches!(decode_captures(&raw), Err(Error::DecodeTruncatedEntry)));
}

#[test]
fn decode_captures_says_which_value_is_corrupt() {
    let mut raw = Vec::new();
    encode_entry(&mut raw, 1_600_000_000, 1, b"\xff");
    assert!(matches!(decode_captures(&raw), Err(Error::Utf8)));

    let mut raw = Vec::new();
    encode_entry(&mut raw, i64::MAX, 1, b"a");
    assert!(matches!(decode_captures(&raw), Err(Error::DecodeInvalidCaptureSecs(i64::MAX))));
}

#[test]
fn merge_entries_folds_and_deduplicates_against_stored_bytes() {
    let mut existing = Vec::new();
    encode_entry(&mut existing, 1_600_000_000, 1, b"a");
    encode_entry(&mut existing, 1_700_000_000, 1, b"c");

    let merged = merge_entries(
        &existing,
        // One duplicate of a stored entry, one that sorts between them.
        &vec![(1_600_000_000, b"a".to_vec()), (1_650_000_000, b"b".to_vec())],
    )
    .expect("merge");

    assert_eq!(
        read_entries(&merged).expect("decode merged"),
        vec![
            (1_600_000_000, b"a".to_vec()),
            (1_650_000_000, b"b".to_vec()),
            (1_700_000_000, b"c".to_vec()),
        ]
    );
    // Merging the same entries again changes nothing.
    assert_eq!(
        merge_entries(&merged, &vec![(1_650_000_000, b"b".to_vec())]).expect("merge again"),
        merged
    );
}

#[test]
fn entries_have_a_fixed_layout() {
    let mut raw = Vec::new();
    encode_entry(&mut raw, -2, 2, b"xy");
    assert_eq!(raw, [0xff, 0xff, 0xff, 0xff, 0xff, 0xff, 0xff, 0xfe, 2, 0, b'x', b'y']);
    assert_eq!(read_entries(&raw).unwrap(), vec![(-2, b"xy".to_vec())]);
}

#[test]
fn insert_batch_reports_a_corrupt_stored_value() {
    let mut db = MetadataDb::new();
    let digest = Sha1Digest::from_bytes(&[9; 20]);

    // A value that is not a sequence of whole entries.
    db.load(digest, vec![0u8; 3]);

    assert!(matches!(
        db.insert(digest, timestamp("20220601000000"), "http://example.com/"),
        Err(Error::DecodeTruncatedEntry)
    ));
    assert_eq!(db.value(&digest), Some(&vec![0u8; 3]));
}

#[test]
fn iter_yields_all_captures_in_digest_then_timestamp_order() {
    let mut db = MetadataDb::new();
    let first = Sha1Digest::from_bytes(&[4; 20]);
    let second = Sha1Digest::from_bytes(&[5; 20]);

    db.insert(second, timestamp("20230101000000"), "http://example.com/b").expect("insert");
    db.insert(first, timestamp("20230201000000"), "http://example.com/a2").expect("insert");
    db.insert(first, timestamp("20230101000000"), "http://example.com/a1").expect("insert");

    let all = db
        .iter_all()
        .into_iter()
        .collect::<Result<Vec<_>, _>>()
        .expect("iterate all captures");

    assert_eq!(
        all,
        vec![
            (first, capture("http://example.com/a1", "20230101000000")),
            (first, capture("http://example.com/a2", "20230201000000")),
            (second, capture("http://example.com/b", "20230101000000")),
        ]
    );
}

fn item(digest: Digest<'static>, original: &str) -> Item {
    Item {
        key: "com,example)/".to_string(),
        timestamp: timestamp("20230101000000"),
        original: original.to_string(),
        mime_type: "text/html".to_string(),
        digest,
    }
}

#[test]
fn filling_leaves_out_what_cannot_be_recorded() {
    let mut db = MetadataDb::new();
    let digest = Sha1Digest::from_bytes(&[1; 20]);

    let counts = fill_metadata(
        &mut db,
        &vec![
            item(Digest::Valid(digest), "http://example.com/"),
            item(Digest::Invalid(Cow::Borrowed("-")), "http://example.com/"),
            item(Digest::Valid(digest), &"a".repeat(65_536)),
            item(Digest::Valid(digest), &"a".repeat(65_535)),
        ],
    );

    assert!(matches!(counts, Ok(FillCounts { inserted: 2, invalid: 2 })));
    assert_eq!(db.multi_get(&vec![digest]).unwrap()[0].as_ref().unwrap().len(), 2);

    db.load(digest, vec![1]);
    let failed = fill_metadata(&mut db, &vec![item(Digest::Valid(digest), "http://example.com/")]);
    assert!(matches!(failed, Err(Error::DecodeTruncatedEntry)));
}

fn stored(digest: Option<Sha1Digest>, secs: i64) -> StoredItem {
    StoredItem {
        surt: "com,example)/a,b".to_string(),
        timestamp_secs: secs,
        original: "http://example.com/a,b".to_string(),
        digest,
        digest_str: match digest {
            Some(digest) => digest.to_string(),
            None => "-".to_string(),
        },
    }
}

#[test]
fn importing_records_items_with_a_valid_digest() {
    let mut db = MetadataDb::new();
    let digest = Sha1Digest::from_bytes(&[1; 20]);

    let counts = import_metadata(
        &mut db,
        &vec![stored(Some(digest), 0), stored(None, 0), stored(Some(digest), 5)],
    );
    assert_eq!(counts, Ok(ImportCounts { inserted: 2, skipped: 1 }));
    assert_eq!(db.multi_get(&vec![digest]).unwrap()[0].as_ref().unwrap().len(), 2);

    let result = import_metadata(&mut db, &vec![stored(Some(digest), i64::MAX)]);
    assert!(matches!(result, Err(ImportError::Timestamp(_))));
    db.load(digest, vec![1]);
    let result = import_metadata(&mut db, &vec![stored(Some(digest), 0)]);
    assert_eq!(result, Err(ImportError::Metadata(Error::DecodeTruncatedEntry)));
}

#[test]
fn missing_items_are_listed_in_order() {
    let known = Sha1Digest::compute(b"{}");
    let listed = Sha1Digest::compute(b"listed");
    let other = Sha1Digest::compute(b"other");
    let mut excluded: DigestTable<()> = DigestTable::new();
    let line = format!("{{\"digest\":\"{}\",\"content\":{{}}}}", known.to_string());
    assert_eq!(exclude_snapshots(&mut excluded, &vec![line, "nothing".to_string()]), 1);
    let lines = vec![
        format!("\u{a0}{}\t", listed.to_string()),
        "  ".to_string(),
        listed.to_string().to_lowercase(),
    ];
    assert_eq!(exclude_listed(&mut excluded, &lines), 1);

    assert!(!is_missing(&stored(Some(known), 0), &excluded));
    assert!(!is_missing(&stored(Some(listed), 0), &excluded));
    assert!(!is_missing(&stored(None, 0), &excluded));
    assert!(is_missing(&stored(Some(other), 0), &excluded));

    let items = || {
        vec![
            stored(Some(other), 5),
            stored(Some(known), 6),
            stored(Some(other), -7),
            stored(Some(other), 9),
        ]
    };
    let times = |sort: Option<SortOrder>| {
        missing_items(items(), &excluded, sort)
            .iter()
            .map(|item| item.timestamp_secs)
            .collect::<Vec<_>>()
    };
    assert_eq!(times(None), vec![5, -7, 9]);
    assert_eq!(times(Some(SortOrder::Asc)), vec![-7, 5, 9]);
    assert_eq!(times(Some(SortOrder::Desc)), vec![9, 5, -7]);
}

#[test]
fn items_are_written_as_quoted_rows() {
    let mut output = String::new();
    write_item(&stored(None, -7), &mut output);

    assert_eq!(output, "-,-7,\"com,example)/a,b\",\"http://example.com/a,b\"\n");
}
