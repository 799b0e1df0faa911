use archivindex_wbm::compact::{
    compact_into, prefer_loop_error, wxj_partition, DataFile, Resolution, ResolutionWarnings,
    WxjPartition,
};
use archivindex_wbm::context::Context;
use archivindex_wbm::digest::{Digest, Sha1Digest};
use archivindex_wbm::digest_table::DigestTable;
use archivindex_wbm::format::{Format, FormatInfo};
use archivindex_wbm::migrate::migrate_snapshot_line;
use archivindex_wbm::reader::SnapshotReader;
use archivindex_wbm::timestamp::Timestamp;
use archivindex_wbm::validation::Decoded;
use archivindex_wbm::writer::{Error, SnapshotWriter};

fn newline() -> Context {
    Context::from_static(&['\n']).expect("valid closing whitespace")
}

fn data_file(contents: &[u8], partition: u64) -> DataFile {
    DataFile {
        path: format!("data/{}", Sha1Digest::compute(contents).to_string()),
        contents: Some(contents.to_vec()),
        resolution: None,
        partition,
        format: FormatInfo::plain(),
        decoded: Decoded::NoCodec,
        inferred_url: None,
    }
}

fn table(files: Vec<(Sha1Digest, DataFile)>) -> DigestTable<DataFile> {
    let mut table = DigestTable::new();
    for (digest, file) in files {
        table.insert(digest, file);
    }
    table
}

fn digests_of(text: &str) -> Vec<Sha1Digest> {
    let mut reader = SnapshotReader::new(text);
    let mut digests = Vec::new();
    while let Some(result) = reader.next() {
        digests.push(result.expect("a snapshot").digest);
    }
    digests
}

/// A data file whose contents do not hash to the digest it is named by is skipped with a digest
/// mismatch, while a correctly-named file alongside it is still written.
#[test]
fn skips_files_whose_contents_do_not_match_their_name() {
    // Valid: stored under the SHA-1 of its own bytes.
    let good = b"{\"id\":1}\n";
    let good_digest = Sha1Digest::compute(good);

    // Corrupt: an empty file stored under an unrelated digest.
    let wrong_name = Sha1Digest::compute(b"not the contents");
    assert_ne!(wrong_name, Sha1Digest::compute(b""));

    let mut writers = vec![SnapshotWriter::new(newline())];
    let (summary, error) = compact_into(
        table(vec![(good_digest, data_file(good, 0)), (wrong_name, data_file(b"", 0))]),
        &vec![0],
        &mut writers,
        false,
    );
    assert!(error.is_none());

    // Only the corrupt file is skipped (for a digest mismatch); the valid file is written.
    assert_eq!(summary.skipped.digest_mismatch.len(), 1);
    assert_eq!(summary.skipped_count, 1);
    assert_eq!(summary.unresolved_count, 1);

    let mut reader = SnapshotReader::new(&writers.remove(0).finish());
    let snapshot = reader.next().expect("a line").expect("a snapshot");
    assert_eq!(snapshot.digest, good_digest);
    assert!(reader.next().is_none());
}

#[test]
fn resolved_files_carry_their_capture() {
    let content = b"{\"id\":1}\n";
    let digest = Sha1Digest::compute(content);
    let timestamp = Timestamp::parse_str("20240101000000").unwrap();
    let mut resolved = data_file(content, 7);
    resolved.resolution = Some((
        Resolution {
            timestamp,
            url: "https://example.com/".to_string(),
            expected_digest: Some(Digest::parse_str("ZHYT52YPEOCHJD5FZINSDYXGQZI22WJ4")),
        },
        ResolutionWarnings { extra_valid: vec!["x".to_string()], extra_invalid: vec![] },
    ));
    let unresolved = data_file(b"[]\n", 7);
    let elsewhere = data_file(b"{}\n", 8);
    let mut unreadable = data_file(b"", 7);
    unreadable.contents = None;
    let mut gzip = data_file(b"compressed", 7);
    gzip.format.name = Format::Other("gzip".to_string());
    let undecodable = data_file(b"\xff", 7);

    let mut writers = vec![SnapshotWriter::new(newline())];
    let (summary, error) = compact_into(
        table(vec![
            (digest, resolved),
            (Sha1Digest::compute(b"[]\n"), unresolved),
            (Sha1Digest::compute(b"{}\n"), elsewhere),
            (Sha1Digest::compute(b"gone"), unreadable),
            (Sha1Digest::compute(b"compressed"), gzip),
            (Sha1Digest::compute(b"\xff"), undecodable),
        ]),
        &vec![7],
        &mut writers,
        true,
    );

    assert!(error.is_none());
    assert_eq!(summary.resolved_count, 1);
    assert_eq!(summary.unresolved, vec![Sha1Digest::compute(b"[]\n")]);
    assert_eq!(summary.warnings.len(), 1);
    assert_eq!(summary.skipped.no_partition.len(), 1);
    assert_eq!(summary.skipped.read_error.len(), 1);
    assert_eq!(summary.skipped.unsupported_format.len(), 1);
    assert_eq!(summary.skipped.undecodable.len(), 1);
    assert_eq!(summary.skipped_count, 4);

    let mut reader = SnapshotReader::new(&writers.remove(0).finish());
    let snapshot = reader.next().expect("a line").expect("a snapshot");
    assert_eq!(snapshot.timestamp, Some(timestamp));
    assert_eq!(snapshot.url.as_deref(), Some("https://example.com/"));
    assert_eq!(snapshot.expected_digest.as_deref(), Some("ZHYT52YPEOCHJD5FZINSDYXGQZI22WJ4"));
    // The unresolved file is counted, but not written.
    assert!(reader.next().is_none());
}

#[test]
fn partitions_are_sorted_by_digest() {
    let mut contents = (0..8).map(|id| format!("{{\"id\":{id}}}\n")).collect::<Vec<_>>();
    contents.sort_by_key(|content| Sha1Digest::compute(content.as_bytes()).to_bytes());
    let digests = contents
        .iter()
        .map(|content| Sha1Digest::compute(content.as_bytes()))
        .collect::<Vec<_>>();
    // The greater digests are given first, and every other file belongs to the second partition.
    let files = (0..8)
        .rev()
        .map(|k| (digests[k], data_file(contents[k].as_bytes(), k as u64 % 2)))
        .collect();

    let mut writers = vec![SnapshotWriter::new(newline()), SnapshotWriter::new(newline())];
    let (summary, error) = compact_into(table(files), &vec![0, 1], &mut writers, false);

    assert!(error.is_none());
    assert_eq!(summary.unresolved, digests);
    let odd = digests_of(&writers.remove(1).finish());
    let even = digests_of(&writers.remove(0).finish());
    assert_eq!(even, vec![digests[0], digests[2], digests[4], digests[6]]);
    assert_eq!(odd, vec![digests[1], digests[3], digests[5], digests[7]]);
}

#[test]
fn a_failure_keeps_what_was_written() {
    let mut contents = vec![b"{\"id\":1}\n", b"{\"id\":2}\n", b"{\"id\":3}\n"];
    contents.sort_by_key(|content| Sha1Digest::compute(*content).to_bytes());
    let digests =
        contents.iter().map(|content| Sha1Digest::compute(*content)).collect::<Vec<_>>();
    let mut unwritable = data_file(contents[1], 0);
    unwritable.resolution = Some((
        Resolution {
            timestamp: Timestamp::parse_str("20240101000000").unwrap(),
            // A quote would have to be escaped, and a line holds no escapes.
            url: "https://example.com/\"".to_string(),
            expected_digest: None,
        },
        ResolutionWarnings { extra_valid: vec![], extra_invalid: vec![] },
    ));

    let mut writers = vec![SnapshotWriter::new(newline())];
    let (summary, error) = compact_into(
        table(vec![
            (digests[2], data_file(contents[2], 0)),
            (digests[1], unwritable),
            (digests[0], data_file(contents[0], 0)),
        ]),
        &vec![0],
        &mut writers,
        false,
    );

    assert_eq!(error, Some(Error::Unwritable));
    assert_eq!(summary.unresolved, vec![digests[0]]);
    assert_eq!(summary.resolved_count, 1);
    assert_eq!(digests_of(&writers.remove(0).finish()), vec![digests[0]]);
}

#[test]
fn files_with_a_codec_are_held_as_their_text() {
    let archived = b"compressed";
    let digest = Sha1Digest::compute(archived);
    let mut decoded = data_file(archived, 0);
    decoded.format.name = Format::Other("gzip".to_string());
    decoded.decoded = Decoded::Text("{\"id\":1} \n".to_string());
    let mut failed = data_file(b"broken", 0);
    failed.format.name = Format::Other("gzip".to_string());
    failed.decoded = Decoded::Failed;

    let mut writers = vec![SnapshotWriter::new(newline())];
    let (summary, error) = compact_into(
        table(vec![(digest, decoded), (Sha1Digest::compute(b"broken"), failed)]),
        &vec![0],
        &mut writers,
        false,
    );

    assert!(error.is_none());
    assert_eq!(summary.unresolved, vec![digest]);
    assert_eq!(summary.skipped.undecodable.len(), 1);
    let context = newline();
    let mut reader = SnapshotReader::new(&writers.remove(0).finish());
    let snapshot = reader.next().expect("a line").expect("a snapshot");
    assert_eq!(snapshot.digest, digest);
    assert_eq!(snapshot.format.name, Format::Other("gzip".to_string()));
    assert_eq!(snapshot.format.closing_whitespace, Some(vec![' ', '\n']));
    assert_eq!(snapshot.content.as_str(), "{\"id\":1}");
    assert!(context.verify_with(&snapshot, Some(&archived.to_vec())).is_ok());
    assert_eq!(context.encode_with(&snapshot, Some(&archived.to_vec())), Ok(archived.to_vec()));
    assert!(context.encode_with(&snapshot, None).is_err());
    assert!(reader.next().is_none());
}

#[test]
fn tweets_are_partitioned_by_their_start() {
    assert_eq!(wxj_partition(b"{\"created_at\":1}"), WxjPartition::Flat);
    assert_eq!(wxj_partition(b"{\"data\":1}"), WxjPartition::Data);
    assert_eq!(wxj_partition(b"{\"dat"), WxjPartition::Other);
}

#[test]
fn the_error_of_the_loop_comes_first() {
    assert_eq!(prefer_loop_error(1, Some("loop"), Some("finish")), Err("loop"));
    assert_eq!(prefer_loop_error(1, None, Some("finish")), Err("finish"));
    assert_eq!(prefer_loop_error::<i32, &str>(1, None, None), Ok(1));
}

#[test]
fn migrate_preserves_byte_exact_content() {
    // Content with `\/` and `\uXXXX` escapes and a trailing-zero number, all of which a round-trip
    // through parsed JSON would rewrite, breaking the digest.
    let content = r#"{"url":"https:\/\/example.com\/x","name":"café","n":1.50}"#;
    let line = format!(
        r#"{{"digest":"ZHYT52YPEOCHJD5FZINSDYXGQZI22WJ4","closing_whitespace":"\r\r\n","content":{content}}}"#
    );

    let migrated = migrate_snapshot_line(&line).unwrap();

    assert!(
        migrated.contains(content),
        "content not preserved verbatim:\n  in:  {content}\n  out: {migrated}"
    );
    // The old top-level `closing_whitespace` moved into the new `format` object.
    assert!(
        migrated.contains(r#""format":{"closing_whitespace":"\r\r\n"}"#),
        "format object not built: {migrated}"
    );
}

#[test]
fn migrate_refuses_what_is_no_object() {
    assert!(migrate_snapshot_line("not json").is_err());
    assert!(migrate_snapshot_line("[1]").is_err());
}
