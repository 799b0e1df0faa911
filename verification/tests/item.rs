use std::borrow::Cow;

use archivindex_wbm::item::{Error, UrlParts};
use archivindex_wbm::timestamp::Timestamp;

fn timestamp(text: &str) -> Timestamp {
    Timestamp::parse_str(text).unwrap()
}

#[test]
fn parse() {
    let url = "https://web.archive.org/web/20160508215503/https://twitter.com/roman_dmowski99/status/725877225686454272";
    let expected = UrlParts::new(
        Cow::Owned("https://twitter.com/roman_dmowski99/status/725877225686454272".to_string()),
        timestamp("20160508215503"),
    );

    let parsed = UrlParts::parse_str(url).unwrap();

    assert_eq!(parsed, expected);
}

#[test]
fn parse_str_borrows() {
    let url = "https://web.archive.org/web/20160508215503/https://twitter.com/roman_dmowski99/status/725877225686454272";
    let expected = UrlParts::new(
        Cow::Borrowed("https://twitter.com/roman_dmowski99/status/725877225686454272"),
        timestamp("20160508215503"),
    );

    let parsed = UrlParts::parse_str(url).unwrap();

    // The URL must borrow from the input rather than allocating.
    assert!(matches!(parsed.url, Cow::Borrowed(_)));
    assert_eq!(parsed, expected);
}

#[test]
fn parse_str_invalid_url() {
    let result = UrlParts::parse_str("https://example.com/not-a-snapshot");

    assert!(matches!(result, Err(Error::InvalidUrl(_))));
}

#[test]
fn parse_str_invalid_timestamp() {
    // Fourteen digits that do not form a valid date-time.
    let result =
        UrlParts::parse_str("https://web.archive.org/web/99999999999999/https://example.com/");

    assert!(matches!(result, Err(Error::InvalidTimestamp(_))));
}

#[test]
fn parse_with_rendering_flags() {
    // The Wayback Machine also serves `im_`, `js_`, `cs_`, `if_`, etc. renderings.
    for flag in ["id_", "im_", "js_", "cs_", "if_", ""] {
        let url = format!(
            "https://web.archive.org/web/20160508215503{flag}/https://example.com/image.png"
        );
        let parsed = UrlParts::parse_str(&url).unwrap();

        assert_eq!(
            parsed,
            UrlParts::new(
                Cow::Owned("https://example.com/image.png".to_string()),
                timestamp("20160508215503"),
            )
        );
    }
}

#[test]
fn rejects_non_snapshot_shapes_without_slicing_utf8() {
    for path in [
        "",
        "20160508215503/",
        "20160508215503ID_/https://example.com/",
        "20160508215503abc_/https://example.com/",
        "２０１６０５０８２１５５０３/https://example.com/",
        "20160508215503/https://example.com/\ntrailing",
    ] {
        assert!(UrlParts::parse_str(&format!("https://web.archive.org/web/{path}")).is_err());
    }
    assert!(
        UrlParts::parse_str("https://web.archive.org.evil/web/20160508215503/https://example.com/")
            .is_err()
    );
}

#[test]
fn snapshot_urls_are_written_and_parse_back() {
    let parts = UrlParts::new(
        Cow::Borrowed("https://example.com/a/b?c=d"),
        timestamp("20160508215503"),
    );

    assert_eq!(
        parts.to_url(true, true),
        "https://web.archive.org/web/20160508215503id_/https://example.com/a/b?c=d"
    );
    assert_eq!(
        parts.to_url(false, false),
        "http://web.archive.org/web/20160508215503/https://example.com/a/b?c=d"
    );
    assert_eq!(parts.to_string(), parts.to_url(true, true));
    for https in [false, true] {
        for original in [false, true] {
            assert_eq!(UrlParts::parse_str(&parts.to_url(https, original)).unwrap(), parts);
        }
    }
}
