use archivindex_wbm::check::{check_lines, SourceLine};
use archivindex_wbm::context::Context;
use archivindex_wbm::digest::Sha1Digest;
use archivindex_wbm::exact::ExactSnapshot;
use archivindex_wbm::format::Format;
use archivindex_wbm::reader::{Error, SnapshotReader};
use archivindex_wbm::stream::{validate_lines, StreamValidation};
use archivindex_wbm::verify_lines::{
    incomplete_digests, verify_lines, LineError, VerificationCounts,
};
use archivindex_wbm::writer::SnapshotWriter;

fn newline() -> Context {
    Context::from_static(&['\n']).expect("valid closing whitespace")
}

fn read_all(input: &str) -> Vec<ExactSnapshot<'static>> {
    let mut reader = SnapshotReader::new(input);
    let mut snapshots = Vec::new();
    while let Some(result) = reader.next() {
        snapshots.push(result.expect("the line parses"));
    }
    snapshots
}

fn line_of(context: &Context, bytes: &[u8]) -> String {
    context
        .unprocessed_snapshot(&Format::Utf8, bytes)
        .expect("snapshot from bytes")
        .display(context, None)
        .to_string()
        .expect("a line")
}

fn source(text: &str) -> SourceLine {
    SourceLine { text: text.to_string(), inferred_url: None, encoded: None }
}

/// Lines are parsed one per snapshot, with both `LF` and `CRLF` terminators stripped and the final
/// line usable without one.
#[test]
fn read_reads_lines_with_either_terminator() {
    const DIGEST: &str = "AAAAAAAAAAAAAAAAAAAAAAAAAAAAAAA2";
    let input = format!(
        "{{\"digest\":\"{DIGEST}\",\"content\":{{\"id\":1}}}}\r\n\
         {{\"digest\":\"{DIGEST}\",\"content\":{{\"id\":2}}}}\n\
         {{\"digest\":\"{DIGEST}\",\"content\":{{\"id\":3}}}}"
    );

    let snapshots = read_all(&input);

    assert_eq!(snapshots.len(), 3);
    assert_eq!(snapshots[0].content.as_str(), r#"{"id":1}"#);
    assert_eq!(snapshots[2].content.as_str(), r#"{"id":3}"#);
}

/// A line that does not parse under the snapshot schema is surfaced as an error naming it.
#[test]
fn read_reports_invalid_lines() {
    let mut reader = SnapshotReader::with_source("not a snapshot\n", "bad.jsonl");

    let error = reader.next().expect("a line").expect_err("an invalid line");
    let Error::InvalidLine { context } = error else {
        panic!("expected an invalid line, found {error:?}");
    };
    assert_eq!(context.source, "bad.jsonl");
    assert_eq!(context.line, 1);
    assert_eq!(context.excerpt.as_deref(), Some("not a snapshot"));
    assert!(reader.next().is_none());
}

/// A blank line means the file is not one the writer produced, so it is reported as a read error
/// rather than silently skipped.
#[test]
fn rejects_blank_lines() {
    let mut reader = SnapshotReader::with_source("\n", "blank.jsonl");

    let error = reader.next().expect("a line").expect_err("a blank line");
    assert!(matches!(error, Error::Read { .. }));
    assert!(reader.next().is_none());
}

/// Writing a consecutive duplicate digest is skipped and reported as such.
#[test]
fn skips_consecutive_duplicates() {
    let mut writer = SnapshotWriter::new(newline());

    let snapshot = writer
        .context()
        .unprocessed_snapshot(&Format::Utf8, b"{\"id\":1}\n")
        .expect("snapshot from bytes");

    assert!(writer.write_snapshot(&snapshot, None).expect("first write"));
    assert!(!writer.write_snapshot(&snapshot, None).expect("duplicate write"));
    assert_eq!(writer.finish().lines().count(), 1);
}

/// What is written reads back as the written snapshot.
#[test]
fn written_snapshots_read_back() {
    let bytes = b"{\"id\":1}\n";
    let digest = Sha1Digest::compute(bytes);
    let mut writer = SnapshotWriter::new(newline());

    assert!(writer.write(digest, bytes).expect("write snapshot"));
    assert!(!writer.write(digest, bytes).expect("write duplicate"));
    let snapshots = read_all(&writer.finish());

    assert_eq!(snapshots.len(), 1);
    assert_eq!(snapshots[0].digest, digest);
    assert_eq!(snapshots[0].content.as_str(), r#"{"id":1}"#);
}

#[test]
fn output_is_taken_piece_by_piece() {
    let mut writer = SnapshotWriter::new(newline());
    writer.write(Sha1Digest::compute(b"{}\n"), b"{}\n").unwrap();
    let first = writer.take_output();
    assert_eq!(read_all(&first).len(), 1);
    assert_eq!(writer.take_output(), "");
    assert!(writer.write(Sha1Digest::compute(b"[]\n"), b"\xff").is_err());
}

/// Lines are checked from any in-memory source: a valid line verifies, an unparseable line is
/// recorded as a schema error, and the summary reflects both.
#[test]
fn check_lines_reports_schema_errors_from_memory() {
    let context = newline();
    let line = line_of(&context, b"{\"id\":1}\n");

    let summary = check_lines(&vec![source(&line), source("not a snapshot")], &context);

    assert_eq!(summary.line_count, 2);
    assert_eq!(summary.valid_digest_count, 1);
    assert_eq!(summary.schema_errors, vec![2]);
    assert!(!summary.is_successful());
}

#[test]
fn check_reports_problems() {
    let context = newline();

    // A digest mismatch, a schema error, an out-of-order pair, and a URL without a timestamp.
    let good = r#"{"id":"1"}"#;
    let good_digest = Sha1Digest::compute(format!("{good}\n").as_bytes());
    let wrong_digest = Sha1Digest::compute(b"something else");
    let (good_name, wrong_name) = (good_digest.to_string(), wrong_digest.to_string());

    let mut lines = vec![
        format!(r#"{{"digest":"{wrong_name}","content":{good}}}"#),
        "not a snapshot".to_string(),
        format!(
            r#"{{"digest":"{good_name}","url":"https://example.com/items/9","content":{good}}}"#
        ),
    ];
    // Repeat the first line at the end so the file is out of order.
    lines.push(lines[0].clone());
    let sources = lines
        .iter()
        .map(|line| SourceLine {
            text: line.clone(),
            inferred_url: Some("https://example.com/items/1".to_string()),
            encoded: None,
        })
        .collect::<Vec<_>>();

    let summary = check_lines(&sources, &context);
    assert!(!summary.is_successful());
    assert_eq!(summary.line_count, 4);
    assert_eq!(summary.schema_errors, vec![2]);
    // Lines 1 and 4 hash to `good_digest`, not the digest they declare.
    assert_eq!(summary.digest_mismatches.len(), 2);
    // Line 3 has an explicit URL but no timestamp (and the URL differs from the inferred one).
    assert_eq!(summary.url_without_timestamp, vec![good_digest]);
    assert!(summary.redundant_url.is_empty());
    // Line 4's digest sorts before line 3's or equals line 1's; either way it is a problem.
    assert_eq!(
        summary.out_of_order.len() + summary.duplicates.len(),
        1,
        "the repeated line is flagged"
    );
    // Metadata counts include only parsed snapshots; the schema-error line has no metadata.
    assert_eq!(summary.missing_timestamp_count, 3);
}

fn ordered_contents() -> (Sha1Digest, String, Sha1Digest, String) {
    let context = newline();
    let mut ordered = ["{\"id\":1}\n", "{\"id\":2}\n"];
    ordered.sort_by_key(|content| Sha1Digest::compute(content.as_bytes()));
    let [smaller, larger] = ordered;
    (
        Sha1Digest::compute(smaller.as_bytes()),
        line_of(&context, smaller.as_bytes()),
        Sha1Digest::compute(larger.as_bytes()),
        line_of(&context, larger.as_bytes()),
    )
}

/// A duplicate digest is reported as a duplicate, distinct from a digest that merely sorts before its
/// predecessor.
#[test]
fn validate_distinguishes_duplicates_from_out_of_order() {
    let (smaller_digest, smaller, larger_digest, larger) = ordered_contents();

    let validation = validate_lines(
        &vec![source(&larger), source(&larger), source(&smaller), source("not a snapshot")],
        &newline(),
    );

    assert_eq!(
        validation,
        StreamValidation {
            valid_count: 1,
            invalid_lines: vec![4],
            unexpected_digests: Vec::new(),
            unsupported_formats: Vec::new(),
            out_of_order: vec![smaller_digest],
            duplicates: vec![larger_digest],
        }
    );
    assert!(!validation.is_successful());
}

/// A clean sorted file validates successfully.
#[test]
fn validate_accepts_a_sorted_file() {
    let (_, smaller, _, larger) = ordered_contents();

    let validation = validate_lines(&vec![source(&smaller), source(&larger)], &newline());

    assert_eq!(validation.valid_count, 2);
    assert!(validation.is_successful());
}

#[test]
fn formats_are_checked_through_the_bytes_of_their_codec() {
    let context = newline();
    let archived = b"archived bytes";
    let digest = Sha1Digest::compute(archived).to_string();
    let text = format!(
        "{{\"digest\":\"{digest}\",\"format\":{{\"type\":\"gzip\"}},\"content\":{{}}}}"
    );
    let with = |encoded: Option<Vec<u8>>| SourceLine {
        text: text.clone(),
        inferred_url: None,
        encoded,
    };

    assert!(validate_lines(&vec![with(Some(archived.to_vec()))], &context).is_successful());
    let wrong = validate_lines(&vec![with(Some(b"other".to_vec()))], &context);
    assert_eq!(wrong.unexpected_digests.len(), 1);
    assert_eq!(wrong.unexpected_digests[0].actual, Sha1Digest::compute(b"other"));
    let missing = validate_lines(&vec![with(None)], &context);
    assert_eq!(missing.unsupported_formats, vec!["gzip".to_string()]);

    let mut counts = VerificationCounts::default();
    verify_lines(&vec![with(Some(archived.to_vec()))], &context, &mut counts).unwrap();
    verify_lines(&vec![with(Some(b"other".to_vec()))], &context, &mut counts).unwrap();
    verify_lines(&vec![with(None)], &context, &mut counts).unwrap();
    assert_eq!(counts, VerificationCounts { verified: 1, invalid: 2, out_of_order: 0 });
}

#[test]
fn verification_counts_every_problem() {
    let (smaller_digest, smaller, _, larger) = ordered_contents();
    let wrong = format!("{{\"digest\":\"{}\",\"content\":{{}}}}", smaller_digest.to_string());
    let mut counts = VerificationCounts::default();

    verify_lines(&vec![source(&smaller), source(&larger)], &newline(), &mut counts).unwrap();
    assert!(counts.is_successful());
    assert_eq!(counts.verified, 2);

    let disordered = vec![source(&larger), source(&smaller), source(&wrong)];
    verify_lines(&disordered, &newline(), &mut counts).unwrap();
    assert!(!counts.is_successful());
    assert_eq!(counts, VerificationCounts { verified: 4, invalid: 1, out_of_order: 2 });

    let result =
        verify_lines(&vec![source(&smaller), source("nothing")], &newline(), &mut counts);
    assert_eq!(result, Err(LineError { line: 2 }));
    assert_eq!(counts.verified, 5);
}

#[test]
fn snapshots_without_a_timestamp_are_incomplete() {
    let (digest, without, _, _) = ordered_contents();
    let with = without.replace(",\"content\"", ",\"timestamp\":\"20240101000000\",\"content\"");

    assert_eq!(incomplete_digests(&vec![with.clone(), without.clone(), with]), Ok(vec![digest]));
    assert_eq!(
        incomplete_digests(&vec![without, String::new()]),
        Err(LineError { line: 2 })
    );
}
