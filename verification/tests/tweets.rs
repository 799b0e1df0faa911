use std::borrow::Cow;

use archivindex_wbm::cdx::Item;
use archivindex_wbm::check::SourceLine;
use archivindex_wbm::cleanup::{check_surts, read_known, CleanCounts, InvalidKnownDigest, SurtCounts};
use archivindex_wbm::context::Context;
use archivindex_wbm::contexts::{context_of, resolve_context, wts, wxj, SnapshotFormat};
use archivindex_wbm::digest::{Digest, Sha1Digest};
use archivindex_wbm::paths::is_cdx_file;
use archivindex_wbm::reconcile::{
    collect_referenced_digests, read_referenced_cdx, reconcile, CdxEntry, Error, InvalidLineAt,
};
use archivindex_wbm::table::TextTable;
use archivindex_wbm::timestamp::Timestamp;
use archivindex_wbm::usage::{Usage, UsageScan};
use archivindex_wbm::wxj::{
    enhance, enhance_line, read_cdx, read_invalid_digests, read_url_paths, report_url,
    EnhanceError, Metadata,
};

const FIRST: &str = "AAAAAAAAAAAAAAAAAAAAAAAAAAAAAAA2";
const SECOND: &str = "ZHYT52YPEOCHJD5FZINSDYXGQZI22WJ4";

fn timestamp(text: &str) -> Timestamp {
    Timestamp::parse_str(text).unwrap()
}

fn digest(text: &str) -> Sha1Digest {
    Sha1Digest::parse_str(text).unwrap()
}

fn item(digest: &'static str, time: &str, original: &str) -> Item {
    Item {
        key: "com,twitter)/".to_string(),
        timestamp: timestamp(time),
        original: original.to_string(),
        mime_type: "application/json".to_string(),
        digest: Digest::parse_str(digest),
    }
}

fn line(digest: &str) -> String {
    format!("{{\"digest\":\"{digest}\",\"content\":{{}}}}")
}

#[test]
fn twitter_paths_are_resolved() {
    let time = timestamp("20240101000000");
    let inferable = Metadata::new(time, "https://twitter.com/a/status/1", Some("/a/status/1"));
    assert_eq!(inferable.url(), None);
    let other = Metadata::new(time, "https://twitter.com/b/status/1", Some("/a/status/1"));
    assert_eq!(other.url(), Some("https://twitter.com/b/status/1".to_string()));
    let foreign = Metadata::new(time, "https://example.com/", None);
    assert_eq!(foreign.url(), Some("https://example.com/".to_string()));
    let expected = foreign.with_expected_digest(digest(FIRST));
    assert_eq!(expected.expected_digest, Some(digest(FIRST)));
}

#[test]
fn absolute_urls_are_taken_as_they_are() {
    let time = timestamp("20240101000000");
    for url in [
        "http://twitter.com/a/status/1",
        "http://www.twitter.com/a/status/1",
        "HTTP://twitter.com/",
        "https:/twitter.com/a",
        "ftp://example.com/a",
        "svn+ssh://example.com/a",
        "mailto:a@example.com",
        "https://twitter.community:8080/a",
    ] {
        let metadata = Metadata::new(time, url, Some("/a/status/1"));
        assert_eq!(metadata.url_path.as_deref(), Some(url));
        assert_eq!(metadata.url().as_deref(), Some(url));
    }
    for path in ["/a/status/1", "/a:b", "", "?a=b:c", "1a:b", ":443/a", "/http://example.com/"] {
        let url = format!("https://twitter.com{path}");
        let metadata = Metadata::new(time, &url, None);
        assert_eq!(metadata.url_path.as_deref(), Some(path));
        assert_eq!(metadata.url(), Some(url));
    }
}

#[test]
fn tweets_are_enhanced_from_captures() {
    let paths = read_url_paths(&format!("{FIRST},https://twitter.com/a/status/1\n{SECOND},\n"))
        .expect("valid rows");
    assert!(read_url_paths("x,https://twitter.com/\n").is_err());
    assert!(read_url_paths(&format!("{FIRST},https://example.com/\n")).is_err());

    let mut entries: TextTable<Metadata> = TextTable::new();
    read_cdx(
        &mut entries,
        &paths,
        &vec![
            item(FIRST, "20240101000000", "https://twitter.com/a/status/1"),
            // A later record of the same digest does not replace the first.
            item(FIRST, "20230101000000", "https://twitter.com/a/status/2"),
            item("BBBBBBBBBBBBBBBBBBBBBBBBBBBBBBB3", "20240101000000", "https://twitter.com/"),
        ],
    );
    assert_eq!(entries.len(), 1);
    read_invalid_digests(
        &format!("https://example.com/,20220101000000,{FIRST},{SECOND}\n"),
        &paths,
        &mut entries,
    )
    .expect("valid rows");
    assert_eq!(entries.len(), 2);

    // The URL follows from the content, so only the timestamp is added.
    assert_eq!(
        enhance_line(&line(FIRST), &entries),
        Ok(format!("{{\"digest\":\"{FIRST}\",\"timestamp\":\"20240101000000\",\"content\":{{}}}}"))
    );
    assert_eq!(
        enhance_line(&line(SECOND), &entries),
        Ok(format!(
            "{{\"digest\":\"{SECOND}\",\"expected_digest\":\"{FIRST}\",\
             \"timestamp\":\"20220101000000\",\"url\":\"https://example.com/\",\"content\":{{}}}}"
        ))
    );
    let unknown = line("BBBBBBBBBBBBBBBBBBBBBBBBBBBBBBB3");
    assert_eq!(enhance_line(&unknown, &entries), Ok(unknown.clone()));
    assert_eq!(enhance_line("nothing", &entries), Err(EnhanceError::InvalidLine));
    let output = enhance(&vec![line(FIRST), unknown], &entries).expect("all lines are enhanced");
    assert_eq!(output.lines().count(), 2);
}

#[test]
fn urls_are_reported_where_there_is_none() {
    let with_time = line(FIRST).replace(",\"content\"", ",\"timestamp\":\"20240101000000\",\"content\"");

    assert_eq!(
        report_url(&line(FIRST), Some("https://twitter.com/a/status/1"), false),
        Ok(Some(format!("{FIRST},https://twitter.com/a/status/1")))
    );
    assert_eq!(report_url(&line(FIRST), None, false), Ok(Some(format!("{FIRST},"))));
    assert_eq!(report_url(&with_time, None, false), Ok(None));
    assert_eq!(report_url(&with_time, None, true), Ok(Some(format!("{FIRST},"))));
    let with_expected = line(FIRST)
        .replace(",\"content\"", &format!(",\"expected_digest\":\"{SECOND}\",\"content\""));
    assert_eq!(report_url(&with_expected, None, false), Ok(None));
    assert_eq!(report_url(&with_expected, None, true), Ok(Some(format!("{FIRST},"))));
    let with_url = line(FIRST)
        .replace(",\"content\"", ",\"url\":\"https://example.com/\",\"content\"");
    assert_eq!(report_url(&with_url, None, true), Ok(None));
    assert!(report_url("nothing", None, true).is_err());
}

#[test]
fn snapshots_are_reconciled_with_the_index() {
    let all = vec![line(FIRST), line(SECOND)];
    let wanted = collect_referenced_digests(&all).expect("all lines parse");
    assert_eq!(wanted.len(), 2);
    assert!(matches!(
        collect_referenced_digests(&vec![line(FIRST), "nothing".to_string()]),
        Err(InvalidLineAt(2))
    ));

    let mut entries: TextTable<CdxEntry> = TextTable::new();
    read_referenced_cdx(
        &mut entries,
        &wanted,
        &vec![
            item(FIRST, "20240101000000", "https://example.com/later"),
            // The earliest capture is kept.
            item(FIRST, "20200101000000", "https://example.com/earliest"),
            item("BBBBBBBBBBBBBBBBBBBBBBBBBBBBBBB3", "20240101000000", "https://example.com/"),
        ],
    );
    assert_eq!(entries.len(), 1);

    let sources = all
        .iter()
        .map(|text| SourceLine {
            text: text.clone(),
            inferred_url: Some("https://example.com/inferred".to_string()),
            encoded: None,
        })
        .collect::<Vec<_>>();
    let report =
        reconcile(&sources, &entries, &Context::empty(), true).expect("all lines reconcile");

    assert_eq!(report.missing_cdx.len(), 1);
    assert_eq!(report.missing_cdx[0][0], SECOND);
    assert_eq!(report.incorrect_inferred.len(), 1);
    assert_eq!(
        report.incorrect_inferred[0],
        [FIRST, "https://example.com/inferred", "https://example.com/earliest"]
    );
    assert!(report.unnecessary_url.is_empty());
    let corrected = report.corrected.expect("a corrected copy");
    assert!(corrected.contains("\"url\":\"https://example.com/earliest\""));

    let invalid =
        vec![SourceLine { text: "nothing".to_string(), inferred_url: None, encoded: None }];
    assert!(matches!(
        reconcile(&invalid, &entries, &Context::empty(), false),
        Err(Error::InvalidLine(1))
    ));
}

#[test]
fn files_covered_by_newer_ones_are_not_needed() {
    let mut scan = UsageScan::new();
    let first = vec![item(FIRST, "20240101000000", "a"), item("bad", "20240101000000", "a")];

    assert_eq!(scan.classify(&vec![]).code(), "0");
    assert_eq!(scan.classify(&first).code(), "+");
    assert_eq!(scan.classify(&first).code(), "-");
    assert_eq!(scan.classify(&vec![item(FIRST, "20200101000000", "b")]), Usage::Covered);
    assert_eq!(scan.classify(&vec![item("worse", "20200101000000", "b")]), Usage::Needed);
    assert_eq!(
        scan.classify(&vec![item(FIRST, "20200101000000", "b"), item(SECOND, "20200101000000", "b")]),
        Usage::Needed
    );
}

#[test]
fn known_files_are_deleted() {
    let known = read_known(&vec![FIRST.to_string()]).expect("digests");
    let mut counts = CleanCounts::new();

    assert!(counts.visit(&known, Some(FIRST)));
    assert!(!counts.visit(&known, Some(SECOND)));
    assert!(!counts.visit(&known, Some("README.md")));
    assert!(!counts.visit(&known, None));
    assert_eq!(counts, CleanCounts { total: 4, valid: 2, deleted: 1 });
    assert!(matches!(
        read_known(&vec![FIRST.to_string(), format!(" {FIRST}")]),
        Err(InvalidKnownDigest { line: 2 })
    ));
}

#[test]
fn keys_are_checked_against_urls() {
    let mut counts = SurtCounts { good: 0, bad: 0 };
    let mut good = item(FIRST, "20240101000000", "https://twitter.com/A/");
    good.key = "com,twitter)/a".to_string();
    let bad = item(FIRST, "20240101000000", "https://twitter.com/b");
    let mut other = item(FIRST, "20240101000000", "no url");
    other.mime_type = "text/html".to_string();

    check_surts(&vec![good, bad, other], &mut counts).expect("every URL has a key");
    assert_eq!(counts, SurtCounts { good: 1, bad: 1 });
    assert!(check_surts(&vec![item(FIRST, "20240101000000", "no url")], &mut counts).is_err());
}

#[test]
fn contexts_are_those_of_their_collections() {
    assert_eq!(*wxj::context().default_closing_whitespace(), ['\r', '\r', '\n']);
    assert_eq!(wxj::context().url_query(), None);
    assert_eq!(*wts::context().default_closing_whitespace(), ['\n']);
    assert_eq!(
        wts::context().url_query(),
        Some("'https://truthsocial.com/api/v1/statuses/' + content.id")
    );
    assert_eq!(
        wxj::flat::context().url_query(),
        Some("'https://twitter.com/' + content.user.screen_name + '/status/' + content.id_str")
    );
    assert_eq!(wxj::data::context().url_query(), context_of(SnapshotFormat::WxjData).url_query());
    assert_eq!(
        *resolve_context(Some(SnapshotFormat::TruthSocial), None).default_closing_whitespace(),
        ['\n']
    );
    let inferred = Context::from_static(&[' ']).unwrap();
    assert_eq!(*resolve_context(None, Some(inferred)).default_closing_whitespace(), [' ']);
    assert!(resolve_context(None, None).default_closing_whitespace().is_empty());
}

#[test]
fn capture_records_stand_in_data_directories() {
    assert!(is_cdx_file("base/user/data/1.json"));
    assert!(is_cdx_file("data/./1.json"));
    assert!(!is_cdx_file("base/user/1.json"));
    assert!(!is_cdx_file("data/x/1.json"));
    assert!(!is_cdx_file("data/1.txt"));
    assert!(!is_cdx_file("1.json"));
}

#[test]
fn digests_are_written_in_base32() {
    let empty = Sha1Digest::compute(b"");
    assert_eq!(empty.to_string(), "3I42H3S6NNFQ2MSVX7XZKYAYSCX5QBYJ");
    assert_eq!(digest("3I42H3S6NNFQ2MSVX7XZKYAYSCX5QBYJ"), empty);
    assert_eq!(
        empty.to_bytes(),
        [
            0xda, 0x39, 0xa3, 0xee, 0x5e, 0x6b, 0x4b, 0x0d, 0x32, 0x55, 0xbf, 0xef, 0x95, 0x60,
            0x18, 0x90, 0xaf, 0xd8, 0x07, 0x09,
        ]
    );
    for text in ["", "3I42H3S6NNFQ2MSVX7XZKYAYSCX5QBY", "3i42h3s6nnfq2msvx7xzkyayscx5qbyj"] {
        assert!(Sha1Digest::parse_str(text).is_err());
        assert!(matches!(Digest::parse_str(text), Digest::Invalid(Cow::Borrowed(_))));
    }
    assert!(Sha1Digest::from_bytes(&[0; 20]).is_before(&empty));
    assert_eq!(Digest::Valid(empty).valid(), Some(empty));
}
