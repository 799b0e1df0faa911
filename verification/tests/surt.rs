use archivindex_wbm::surt::{DomainNamePartIter, Error, Surt};

fn forward<'a>(mut parts: DomainNamePartIter<'a>) -> Vec<&'a str> {
    let mut found = Vec::new();
    while let Some(part) = parts.next() {
        found.push(part);
    }
    found
}

fn backward<'a>(mut parts: DomainNamePartIter<'a>) -> Vec<&'a str> {
    let mut found = Vec::new();
    while let Some(part) = parts.next_back() {
        found.push(part);
    }
    found
}

#[test]
fn surt_round_trip() {
    let input = "com,twitter)/farleftwatch/status/999825423977639936";
    let parsed = Surt::parse_str(input).unwrap();

    assert_eq!(forward(parsed.domain_name_parts()).len(), 2);
    assert_eq!(
        format!("{parsed:?}"),
        "Surt { source: \"com,twitter)/farleftwatch/status/999825423977639936\", domain_name_part_lens: [3, 7] }"
    );

    let printed = parsed.as_str().to_string();

    assert_eq!(input, printed);
}

#[test]
fn preserves_legacy_only_keys() {
    let input = "com,example:not-a-port)/a b";
    let parsed = Surt::parse_str(input).unwrap();

    assert_eq!(parsed.as_str(), input);
    assert_eq!(parsed.path(), "/a b");
    assert_eq!(parsed.canonical_url().to_string(), "https://example.com:not-a-port/a b");
}

#[test]
fn from_url() {
    let input = "https://twitter.com/RichardBSpencer/";
    let surt = Surt::from_url(input).unwrap();
    let expected = Surt::parse_str("com,twitter)/richardbspencer").unwrap();

    assert_eq!(surt, expected);
}

#[test]
fn canonical_url() {
    let input = "com,twitter)/farleftwatch/status/999825423977639936";

    let parsed = Surt::parse_str(input).unwrap();
    let expected = "https://twitter.com/farleftwatch/status/999825423977639936";

    assert_eq!(parsed.canonical_url().to_string(), expected);
}

#[test]
fn domain_name_parts_bidirectional_iteration() {
    let input = "com,twitter,api)/v1/endpoint";
    let parsed = Surt::parse_str(input).unwrap();

    assert_eq!(forward(parsed.domain_name_parts()), vec!["com", "twitter", "api"]);
    assert_eq!(backward(parsed.domain_name_parts()), vec!["api", "twitter", "com"]);

    let mut iter = parsed.domain_name_parts();
    assert_eq!(iter.next(), Some("com"));
    assert_eq!(iter.next_back(), Some("api"));
    assert_eq!(iter.next(), Some("twitter"));
    assert_eq!(iter.next(), None);
    assert_eq!(iter.next_back(), None);
}

#[test]
fn domain_name_parts_single_part() {
    let input = "com)/path";
    let parsed = Surt::parse_str(input).unwrap();

    assert_eq!(forward(parsed.domain_name_parts()), vec!["com"]);

    // Test reverse iteration with single element.
    assert_eq!(backward(parsed.domain_name_parts()), vec!["com"]);
}

#[test]
fn parse_str_with_very_long_domain_part() {
    // Create a domain part longer than `u8::MAX` (255 characters).
    let long_part = "a".repeat(300);
    let input = format!("{long_part})path");

    let result = Surt::parse_str(&input);
    // Should return an error, not panic or overflow.
    assert!(result.is_err());
    assert!(matches!(result, Err(Error::InvalidSurt(_))));
}

#[test]
fn parse_str_exactly_255_chars() {
    // Domain part with exactly `u8::MAX` characters.
    let part = "a".repeat(255);
    let input = format!("{part})path");

    let result = Surt::parse_str(&input);
    assert!(result.is_ok());
}

#[test]
fn parse_str_empty_input() {
    let result = Surt::parse_str("");
    assert!(result.is_err());
    assert!(matches!(result, Err(Error::InvalidSurt(_))));
}

#[test]
fn parse_str_missing_terminator() {
    // Without the `)` terminator the final domain part is never delimited, so the input must be
    // rejected rather than producing a value that violates the type's invariants.
    for input in ["abc", "com,twitter"] {
        let result = Surt::parse_str(input);
        assert!(matches!(result, Err(Error::InvalidSurt(_))), "{input}");
    }
}

#[test]
fn parse_str_empty_domain_part() {
    // Empty domain parts would render as invalid canonical URLs (e.g. `https://.com/x`).
    for input in ["com,)/x", ",com)/x", ")/x", "com,,example)/x"] {
        let result = Surt::parse_str(input);
        assert!(matches!(result, Err(Error::InvalidSurt(_))), "{input}");
    }
}

#[test]
fn from_url_with_trailing_dot_host() {
    // The Wayback Machine's canonicalization strips trailing dots from fully-qualified hosts,
    // so the key must match the one produced for the dotless form.
    let surt = Surt::from_url("https://example.com./x").unwrap();
    let expected = Surt::parse_str("com,example)/x").unwrap();

    assert_eq!(surt, expected);
}

#[test]
fn from_url_with_no_domain_parts() {
    // URL that results in no domain parts (e.g., after filtering `"www"`).
    let result = Surt::from_url("https://www/path");
    // Should return an error, not panic from underflow.
    assert!(result.is_err());
    assert!(matches!(result, Err(Error::UnexpectedUrl(_))));
}

#[test]
fn canonical_url_with_port() {
    // A port in the final domain part (as the Wayback Machine keeps it in `urlkey`) must render
    // after the whole host, not inside its leftmost label.
    let parsed = Surt::parse_str("com,example:8080)/path").unwrap();
    assert_eq!(parsed.canonical_url().to_string(), "https://example.com:8080/path");

    let single = Surt::parse_str("localhost:8080)/x").unwrap();
    assert_eq!(single.canonical_url().to_string(), "https://localhost:8080/x");
}

#[test]
fn from_url_collapses_slash_runs() {
    // Runs of slashes of any length collapse fully (a single replacement pass would only halve
    // them).
    let surt = Surt::from_url("https://example.com/a///b").unwrap();
    let expected = Surt::parse_str("com,example)/a/b").unwrap();

    assert_eq!(surt, expected);
}

#[test]
fn from_url_path_escapes_are_case_insensitive() {
    let raw = Surt::from_url("https://example.com/a{b}").unwrap();
    let encoded = Surt::from_url("https://example.com/a%7bb%7d").unwrap();
    let expected = Surt::parse_str("com,example)/a{b}").unwrap();

    assert_eq!(raw, expected);
    assert_eq!(encoded, expected);
}

#[test]
fn from_url_keeps_encoded_query_structural_characters() {
    // A `%26` in a query value must stay percent-encoded: decoding it to a raw `&` would inject
    // a bogus parameter boundary into the key.
    let surt = Surt::from_url("https://example.com/x?a=1%262&b=3").unwrap();
    let expected = Surt::parse_str("com,example)/x?a=1%262&b=3").unwrap();

    assert_eq!(surt, expected);
}

#[test]
fn from_url_with_domain_part_too_long() {
    // Domain with a part longer than 255 characters.
    let long_part = "a".repeat(300);
    let url = format!("https://{long_part}.com/path");

    let result = Surt::from_url(&url);
    // Should return an error due to domain part length check.
    assert!(result.is_err());
    assert!(matches!(result, Err(Error::InvalidDomainPart(_))));
}

#[test]
fn from_url_refuses_what_is_no_url() {
    assert!(matches!(Surt::from_url("no url"), Err(Error::InvalidUrl(_))));
    assert!(matches!(Surt::from_url("ftp://example.com/"), Err(Error::UnexpectedUrl(_))));
    assert!(matches!(Surt::from_url("http://127.0.0.1/"), Err(Error::UnexpectedUrl(_))));
    assert!(matches!(Surt::from_url("https://example.com:8080/"), Err(Error::UnexpectedUrl(_))));
}

#[test]
fn from_url_sorts_query_parameters() {
    let surt = Surt::from_url("https://WWW.Example.com:443/Path/?b=2&a=&C=x").unwrap();

    assert_eq!(surt.as_str(), "com,example)/path?a=&b=2&c=x");
}

#[test]
fn keys_of_urls_parse_back() {
    for url in ["https://www.Example.com//a/?b=1&a=2", "http://example.co.uk./", "https://example.com/(x),y)"] {
        let key = Surt::from_url(url).unwrap();
        let parsed = Surt::parse_str(key.as_str()).unwrap();

        assert!(parsed == key);
        assert_eq!(forward(parsed.domain_name_parts()), forward(key.domain_name_parts()));
        assert_eq!(parsed.path(), key.path());
    }
}

#[test]
fn decoded_paths_stay_decoded() {
    for path in ["/a//b///c", "/%7Ba%7D/%5C", "/%C3%A9%25", "/%%2232/%a%41//", "/%2f%2F"] {
        let decoded = Surt::decode_path(path);
        assert_eq!(Surt::decode_path(&decoded), decoded);
    }
    assert_eq!(Surt::decode_path("//%7Ba%7D//%C3%A9"), "/{a}/%c3%a9");
}
