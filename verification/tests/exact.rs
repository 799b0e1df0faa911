use std::borrow::Cow;

use archivindex_wbm::context::Context;
use archivindex_wbm::digest::Sha1Digest;
use archivindex_wbm::exact::{format_closing_whitespace, ExactContent, ExactSnapshot};
use archivindex_wbm::format::{Format, FormatInfo};
use archivindex_wbm::snapshot::Snapshot;
use archivindex_wbm::timestamp::Timestamp;
use archivindex_wbm::validation::{UnprocessedError, ValidationError};

const DIGEST: &str = "AAAAAAAAAAAAAAAAAAAAAAAAAAAAAAA2";

fn context() -> Context {
    Context::from_static(&['\r', '\r', '\n'])
        .expect("valid closing whitespace")
        .with_url_query(
            "'https://twitter.com/' + \
             content.includes.users.filter(u, u.id == content.data.author_id)[0].username + \
             '/status/' + content.data.id",
        )
}

fn parse(line: &str) -> Option<ExactSnapshot<'_>> {
    Snapshot::parse(line).ok()
}

#[test]
fn unprocessed_with_short_content() {
    let context = context();
    for s in ["", "a", "ab", "abc", "abcd"] {
        let snapshot = context.unprocessed_snapshot(&Format::Utf8, s.as_bytes()).unwrap();
        assert_eq!(snapshot.content.as_str(), s);
    }
}

#[test]
fn parse_with_missing_quote_in_url() {
    let line = r#"{"digest":"ZHYT52YPEOCHJD5FZINSDYXGQZI22WJ4","url":"http://example.com/no/closing/quote"#;
    assert!(parse(line).is_none());
}

#[test]
fn parse_with_truncated_url() {
    let line = r#"{"digest":"ZHYT52YPEOCHJD5FZINSDYXGQZI22WJ4","url":"http://example.com"#;
    assert!(parse(line).is_none());
}

#[test]
fn parse_with_url_at_end_of_line() {
    let line = r#"{"digest":"ZHYT52YPEOCHJD5FZINSDYXGQZI22WJ4","url":""#;
    assert!(parse(line).is_none());
}

#[test]
fn parse_truncations_give_a_result() {
    // Truncating a valid line at any byte offset must yield a result, never a panic from an
    // out-of-bounds or non-character-boundary slice.
    let line = "{\"digest\":\"ZHYT52YPEOCHJD5FZINSDYXGQZI22WJ4\",\
                \"expected_digest\":\"AAAAAAAAAAAAAAAAAAAAAAAAAAAAAAA4\",\
                \"timestamp\":\"20240101000000\",\"url\":\"https://\u{a1}.example/\",\
                \"format\":{\"type\":\"gzip\",\"closing_whitespace\":\"\\r\\n\"},\
                \"content\":{\"id\":\"\u{bf}\"}}";
    assert!(parse(line).is_some());
    for n in 0..line.len() {
        if let Ok(prefix) = std::str::from_utf8(&line.as_bytes()[..n]) {
            let _ = parse(prefix);
        }
    }
}

#[test]
fn parse_multibyte_url() {
    // A multi-byte character in the `url` value must not cause a mid-codepoint slice panic.
    let line = "{\"digest\":\"AAAA3HVFIBJARGQ4ISEHROP6XWNULWTC\",\
                 \"url\":\"https://\u{a1}.example/\u{bf}\",\"content\":{}}";
    let parsed = parse(line).expect("parses");
    assert_eq!(parsed.url.as_deref(), Some("https://\u{a1}.example/\u{bf}"));
    assert_eq!(parsed.content.as_str(), "{}");
}

#[test]
fn parse_rejects_wrong_keys_and_framing() {
    let digest = DIGEST;

    // A valid line parses.
    let valid = format!("{{\"digest\":\"{digest}\",\"content\":{{}}}}");
    assert!(parse(&valid).is_some());

    // A wrong leading key, a wrong optional-field key, a wrong delimiter, and a missing closing
    // brace must all be rejected.
    for line in [
        format!("{{\"birdie\":\"{digest}\",\"content\":{{}}}}"),
        format!("{{\"digest\":\"{digest}\",\"urls\":\"x\",\"content\":{{}}}}"),
        format!("{{\"digest\":\"{digest}\";\"content\":{{}}}}"),
        format!("{{\"digest\":\"{digest}\",\"content\":12"),
    ] {
        assert!(parse(&line).is_none(), "must reject: {line}");
    }
}

#[test]
fn format_closing_whitespace_renders_unexpected_characters_visibly() {
    assert_eq!(format_closing_whitespace(&['\r', '\r', '\n']), "\\r\\r\\n");
    assert_eq!(format_closing_whitespace(&['\t', ' ']), "\\t ");
    // A character that is not JSON whitespace must be rendered, not silently dropped.
    assert_eq!(format_closing_whitespace(&['x', '\u{0}']), "x\\u{0}");
}

#[test]
fn url_needing_escaping_is_rejected_not_corrupted() {
    let digest = Sha1Digest::parse_str(DIGEST).expect("valid digest");
    let context = context();

    // A URL containing a quote or backslash cannot be written verbatim, so display must error
    // instead of emitting an invalid (or reinterpretable) JSON line.
    for url in ["https://example.com/a\"b", "https://example.com/a\\b"] {
        let snapshot = Snapshot {
            digest,
            expected_digest: None,
            timestamp: Some(Timestamp::parse_str("20240101000000").expect("valid timestamp")),
            url: Some(url.into()),
            format: FormatInfo::plain(),
            content: ExactContent::new(Cow::Borrowed("{}")),
        };

        assert!(snapshot.display(&context, None).to_string().is_err());
    }

    // An escaped URL in serialized form must be rejected by the exact parser rather than silently
    // mis-parsed.
    let line = format!(
        "{{\"digest\":\"{DIGEST}\",\"url\":\"https://example.com/a\\\"b\",\"content\":{{}}}}"
    );
    assert!(parse(&line).is_none());
}

#[test]
fn lines_display_as_they_were_read() {
    let context = context();
    for line in [
        format!("{{\"digest\":\"{DIGEST}\",\"content\":{{\"a\": 1}}}}"),
        format!(
            "{{\"digest\":\"{DIGEST}\",\"expected_digest\":\"{DIGEST}\",\"timestamp\":\"20240101000000\",\
             \"url\":\"https://example.com/\",\"format\":{{\"closing_whitespace\":\"\\r\\n\"}},\
             \"content\":[1,2]}}"
        ),
    ] {
        let parsed = parse(&line).expect("parses");
        assert_eq!(parsed.display(&context, None).to_string().unwrap(), line);
    }
}

#[test]
fn a_url_that_follows_from_the_content_is_omitted() {
    let context = context();
    let line =
        format!("{{\"digest\":\"{DIGEST}\",\"url\":\"https://example.com/\",\"content\":{{}}}}");
    let parsed = parse(&line).expect("parses");

    assert_eq!(
        parsed.display(&context, Some("https://example.com/")).to_string().unwrap(),
        format!("{{\"digest\":\"{DIGEST}\",\"content\":{{}}}}")
    );
    assert_eq!(parsed.display(&context, Some("https://example.org/")).to_string().unwrap(), line);
}

#[test]
fn default_closing_whitespace_is_omitted() {
    let line = format!(
        "{{\"digest\":\"{DIGEST}\",\"format\":{{\"closing_whitespace\":\"\\n\"}},\"content\":{{}}}}"
    );
    let parsed = parse(&line).expect("parses");
    let newline = Context::from_static(&['\n']).unwrap();

    assert!(parsed.has_explicit_closing_whitespace());
    assert!(!parsed.has_metadata());
    assert_eq!(
        parsed.display(&newline, None).to_string().unwrap(),
        format!("{{\"digest\":\"{DIGEST}\",\"content\":{{}}}}")
    );
    assert_eq!(parsed.display(&context(), None).to_string().unwrap(), line);
}

#[test]
fn snapshots_reproduce_their_digest() {
    let context = context();
    let bytes = b"{\"id\":1}\r\r\n";
    let snapshot = context.unprocessed_snapshot(&Format::Utf8, bytes).unwrap();

    assert_eq!(snapshot.digest, Sha1Digest::compute(bytes));
    assert_eq!(snapshot.content.as_str(), "{\"id\":1}");
    assert_eq!(context.encode(&snapshot).unwrap(), bytes);
    assert_eq!(context.verify(&snapshot), Ok(()));

    // The same line under another default keeps its own whitespace, and still verifies.
    let other = Context::from_static(&['\n']).unwrap();
    assert_eq!(other.verify(&snapshot), Ok(()));
}

#[test]
fn verification_says_what_is_wrong() {
    let context = context();
    let wrong = format!("{{\"digest\":\"{DIGEST}\",\"content\":{{}}}}");
    let snapshot = parse(&wrong).unwrap();
    assert_eq!(
        context.verify(&snapshot),
        Err(ValidationError::Mismatch(Sha1Digest::compute(b"{}\r\r\n")))
    );

    let gzip = format!("{{\"digest\":\"{DIGEST}\",\"format\":{{\"type\":\"gzip\"}},\"content\":{{}}}}");
    assert_eq!(
        context.verify(&parse(&gzip).unwrap()),
        Err(ValidationError::UnsupportedFormat("gzip".to_string()))
    );
    assert_eq!(
        context.unprocessed_snapshot(&Format::Utf8, b"\xff"),
        Err(UnprocessedError::InvalidUtf8)
    );
}

#[test]
fn content_is_transformed_and_metadata_kept() {
    let line = format!(
        "{{\"digest\":\"{DIGEST}\",\"timestamp\":\"20240101000000\",\"content\":{{\"id\":1}}}}"
    );
    let transformed = parse(&line).unwrap().into_transformed(|content| content.as_str().len());

    assert_eq!(transformed.content, 8);
    assert_eq!(transformed.digest, Sha1Digest::parse_str(DIGEST).unwrap());
    assert!(transformed.has_metadata());
}

#[test]
fn closing_whitespace_of_a_context_is_json_whitespace() {
    assert!(Context::from_static(&['x']).is_err());
    assert_eq!(Context::empty().default_closing_whitespace().len(), 0);
    assert_eq!(Context::empty().url_query(), None);
}

#[test]
fn archived_bytes_survive_a_line() {
    let context = context();
    for bytes in ["{\"id\":1}", "{\"id\":1}\r\r\n", "{\"id\":1} \t\n", "{\"name\":\"café \\u00e9\",\"n\":1.50}\n"] {
        let snapshot = context.unprocessed_snapshot(&Format::Utf8, bytes.as_bytes()).unwrap();
        assert_eq!(context.encode(&snapshot).unwrap(), bytes.as_bytes());

        let line = snapshot.display(&context, None).to_string().unwrap();
        let read = parse(&line).unwrap();
        assert_eq!(read.digest, Sha1Digest::compute(bytes.as_bytes()));
        assert_eq!(context.encode(&read).unwrap(), bytes.as_bytes());
        assert_eq!(context.verify(&read), Ok(()));
    }
}

#[test]
fn format_names_are_escaped_as_json() {
    let context = Context::from_static(&['\n']).expect("valid closing whitespace");
    let mut snapshot = context.unprocessed_snapshot(&Format::Utf8, b"{}\n").unwrap();
    snapshot.format.name =
        Format::Other("q\"\\/\u{8}\u{c}\n\r\t\u{1}\u{1f}\u{7f}\u{e9}".to_string());

    let line = snapshot.display(&context, None).to_string().expect("a line");

    assert!(line.contains(
        "\"format\":{\"type\":\"q\\\"\\\\/\\b\\f\\n\\r\\t\\u0001\\u001f\u{7f}\u{e9}\"}"
    ));
    let read = ExactSnapshot::parse(&line).expect("the line reads back");
    assert_eq!(read.format.name, snapshot.format.name);
}

#[test]
fn parsed_texts_are_borrowed() {
    let line = "{\"digest\":\"AAAAAAAAAAAAAAAAAAAAAAAAAAAAAAA2\",\
                \"expected_digest\":\"ZHYT52YPEOCHJD5FZINSDYXGQZI22WJ4\",\
                \"url\":\"https://example.com/\",\"content\":{}}";
    let snapshot = ExactSnapshot::parse(line).expect("a snapshot");

    assert!(matches!(snapshot.expected_digest, Some(std::borrow::Cow::Borrowed(_))));
    assert!(matches!(snapshot.url, Some(std::borrow::Cow::Borrowed(_))));
    assert!(matches!(snapshot.content.into_inner(), std::borrow::Cow::Borrowed("{}")));
}
