use archivindex_wbm::client::{
    find_encoded_key, read_requests, resume_key, Client, Error, InspectError, InvalidMatchType,
    MatchType, Request, DEFAULT_ENDPOINT,
};
use archivindex_wbm::extract::{extract_payload, Error as ExtractError};

const ENCODED_KEY: &str = "org%2Carchive%29%2F+19980109140106%21";

fn client() -> Client {
    Client::with_endpoint(DEFAULT_ENDPOINT).expect("valid endpoint")
}

#[test]
fn lib_builds_encoded_query_urls() {
    let request = Request::new(
        "https://example.com/a?x=1&y=two words",
        MatchType::Domain,
        true,
        Some(-5),
    );
    let url = url::Url::parse(&client().query_url(&request)).expect("valid URL");
    let pairs = url.query_pairs().collect::<Vec<_>>();

    assert_eq!(url.path(), "/cdx/search/cdx");
    assert_eq!(
        pairs,
        [
            ("url".into(), "https://example.com/a?x=1&y=two words".into()),
            ("matchType".into(), "domain".into()),
            ("fastLatest".into(), "true".into()),
            ("limit".into(), "-5".into()),
        ]
    );
}

#[test]
fn omits_an_unspecified_limit() {
    let request = Request::new("example.org", MatchType::Prefix, false, None);
    let url = url::Url::parse(&client().query_url(&request)).expect("valid URL");

    assert!(!url.query_pairs().any(|(name, _)| name == "limit"));
}

#[test]
fn lib_rejects_non_http_endpoints() {
    let result = Client::with_endpoint("file:///tmp/cdx");

    assert!(matches!(
        result,
        Err(Error::UnsupportedEndpointScheme(scheme)) if scheme == "file"
    ));
    assert!(matches!(Client::with_endpoint("no url"), Err(Error::InvalidEndpoint(_))));
}

/// The URLs of a session come one request after the other, each with the query of its request.
#[test]
fn a_session_asks_for_each_request() {
    let mut driver = client().driver(vec![
        Request::new("example.org", MatchType::Exact, true, Some(-1)),
        Request::new("example.com/docs/", MatchType::Prefix, false, Some(100)),
    ]);

    let first = driver.next().expect("a request");
    assert!(first.url.contains("url=example.org"));
    assert!(first.url.contains("matchType=exact"));
    assert!(first.url.contains("fastLatest=true"));
    assert!(first.url.contains("limit=-1"));
    assert_eq!(first.via, None);
    driver.inspect(b"result-0", &first.url).expect("a response");
    let second = driver.next().expect("a request");
    assert!(second.url.contains("url=example.com%2Fdocs%2F"));
    assert!(second.url.contains("matchType=prefix"));
    assert!(second.url.contains("fastLatest=false"));
    assert!(second.url.contains("limit=100"));
    driver.inspect(b"result-1", &second.url).expect("a response");
    assert!(driver.next().is_none());
}

#[test]
fn follows_resumption_keys_before_the_next_request() {
    let client = client().follow_resumption_keys(true);
    assert!(client.follows_resumption_keys());
    let mut driver = client.driver(vec![
        Request::new("archive.org", MatchType::Domain, false, Some(5)),
        Request::new("example.org", MatchType::Exact, false, Some(10)),
    ]);

    let first = driver.next().expect("a request");
    assert!(first.url.contains("url=archive.org"));
    assert!(first.url.contains("showResumeKey=true"));
    assert!(first.url.contains("gzip=false"));
    assert!(!first.url.contains("resumeKey="));
    let page = format!("first-page\n\n{ENCODED_KEY}\n");
    driver.inspect(page.as_bytes(), &first.url).expect("a response");
    let second = driver.next().expect("a request");
    assert!(second.url.contains("url=archive.org"));
    assert!(second.url.contains("showResumeKey=true"));
    assert!(second.url.contains("gzip=false"));
    assert!(second.url.contains(&format!("resumeKey={ENCODED_KEY}")));
    assert_eq!(second.via, Some(first.url));
    driver.inspect(b"second-page\n", &second.url).expect("a response");
    let third = driver.next().expect("a request");
    assert!(third.url.contains("url=example.org"));
    assert!(third.url.contains("showResumeKey=true"));
    driver.inspect(b"other-query\n", &third.url).expect("a response");
    assert!(driver.next().is_none());
}

#[test]
fn stops_when_the_server_repeats_a_resumption_key() {
    let mut driver = client()
        .follow_resumption_keys(true)
        .driver(vec![Request::new("archive.org", MatchType::Domain, false, None)]);
    let page = format!("page\n\n{ENCODED_KEY}\n");

    let first = driver.next().expect("a request");
    driver.inspect(page.as_bytes(), &first.url).expect("a response");
    let second = driver.next().expect("a request");
    assert!(second.url.contains(&format!("resumeKey={ENCODED_KEY}")));
    assert!(matches!(
        driver.inspect(page.as_bytes(), &second.url),
        Err(InspectError::RepeatedKey(_))
    ));
    assert!(driver.next().is_none());
}

#[test]
fn a_failed_request_is_left_behind() {
    let mut driver = client().driver(vec![
        Request::new("a.example", MatchType::Exact, false, None),
        Request::new("b.example", MatchType::Exact, false, None),
    ]);

    assert!(driver.next().expect("a request").url.contains("url=a.example"));
    driver.failed();
    assert!(driver.next().expect("a request").url.contains("url=b.example"));
}

#[test]
fn reads_plain_text_resumption_keys() {
    assert_eq!(
        resume_key(b"row\r\n\r\norg%2Carchive%29%2F+19980109140106%21\r\n"),
        Ok(Some("org,archive)/ 19980109140106!".to_owned()))
    );
    assert_eq!(resume_key(b"row\n"), Ok(None));
}

#[test]
fn rejects_a_resumption_response_that_is_not_utf_8() {
    // A CDX server that answers a `showResumeKey` query with binary content.
    assert!(resume_key(b"row\n\n\xff\n").is_err());
}

#[test]
fn a_key_follows_a_blank_line_at_the_end() {
    let lines = |lines: &[&str]| lines.iter().map(|line| line.to_string()).collect::<Vec<_>>();
    assert_eq!(find_encoded_key(&lines(&["row", "", "key"])), Some("key"));
    assert_eq!(find_encoded_key(&lines(&["row", "key"])), None);
    assert_eq!(find_encoded_key(&lines(&[])), None);
}

#[test]
fn main_reads_request_csv() {
    let input = "example.org,exact,true,-5\n\
                 example.com/docs/,prefix,false,100\n\
                 example.net,domain,false,\n\
                 example.edu,host,true\n";

    let requests = read_requests(input).expect("valid request CSV");

    assert_eq!(
        requests,
        [
            Request::new("example.org", MatchType::Exact, true, Some(-5)),
            Request::new("example.com/docs/", MatchType::Prefix, false, Some(100)),
            Request::new("example.net", MatchType::Domain, false, None),
            Request::new("example.edu", MatchType::Host, true, None),
        ]
    );
}

#[test]
fn main_rejects_a_non_numeric_limit() {
    assert!(read_requests("example.org,exact,false,many\n").is_err());
}

#[test]
fn main_rejects_an_unknown_match_type() {
    assert!(read_requests("example.org,subdomain,false,10\n").is_err());
}

#[test]
fn match_types_have_names() {
    for match_type in [MatchType::Exact, MatchType::Prefix, MatchType::Host, MatchType::Domain] {
        assert_eq!(MatchType::parse_str(match_type.as_str()), Ok(match_type));
    }
    assert_eq!(
        MatchType::parse_str("subdomain"),
        Err(InvalidMatchType("subdomain".to_string()))
    );
}

#[test]
fn accepts_the_standard_nine_and_eleven_field_layouts() {
    let body = "com,example)/ 20200102030405 https://example.com/ text/html 200 DIGEST - 20 data.warc.gz\n\
                com,example)/ 20200102030405 https://example.com/ text/html 200 DIGEST - - 10 20 data.warc.gz\n";
    let mut output = String::new();

    extract_payload(body.as_bytes(), &mut output).expect("valid rows");

    assert_eq!(output.lines().count(), 2);
}

#[test]
fn extracts_requested_fields_of_a_response() {
    let body = "com,example)/ 20200102030405 https://example.com/a,b text/html 200 \
                ABCDEFGHIJKLMNOPQRSTUVWXYZ234567 123\n\
                org,example)/gone 19991231235959 http://example.org/gone unk 404 \
                ZYXWVUTSRQPONMLKJIHGFEDCBA765432 42\n\
                \n\
                org%2Cexample%29%2F+19991231235959%21\n";
    let mut output = String::new();

    extract_payload(body.as_bytes(), &mut output).expect("valid rows");

    assert_eq!(
        output,
        "\"https://example.com/a,b\",20200102030405,ABCDEFGHIJKLMNOPQRSTUVWXYZ234567,text/html,200\n\
         http://example.org/gone,19991231235959,ZYXWVUTSRQPONMLKJIHGFEDCBA765432,unk,404\n"
    );
}

#[test]
fn absent_optional_fields_are_hyphens() {
    let body = "com,example)/ 20200102030405 https://example.com/ - - - - - 10 20 data.warc.gz\n";
    let mut output = String::new();

    extract_payload(body.as_bytes(), &mut output).expect("valid rows");

    assert_eq!(output, "https://example.com/,20200102030405,-,-,-\n");
}

#[test]
fn extracted_fields_are_quoted_where_they_have_to_be() {
    let body = "com,example)/ 20200102030405 https://example.com/\"a\",b text/html - X 1\n";
    let mut output = String::new();

    extract_payload(body.as_bytes(), &mut output).expect("a valid row");

    assert_eq!(output, "\"https://example.com/\"\"a\"\",b\",20200102030405,X,text/html,-\n");
}

#[test]
fn capture_times_may_have_milliseconds_and_any_year() {
    let row = |time: &str| format!("com,example)/ {time} https://example.com/ text/html 200 X 1\n");
    for time in ["20200102030405678", "09990101000000", "20200229000000"] {
        let mut output = String::new();
        extract_payload(row(time).as_bytes(), &mut output).expect("a valid row");
        assert_eq!(output, format!("https://example.com/,{time},X,text/html,200\n"));
    }
    for time in ["20210229000000", "20200102030460", "202001020304056", "2020010203040567x"] {
        assert!(matches!(
            extract_payload(row(time).as_bytes(), &mut String::new()),
            Err(ExtractError::Cdx { line: 1 })
        ));
    }
}

#[test]
fn extraction_says_which_row_is_wrong() {
    let mut output = String::new();
    assert!(matches!(extract_payload(b"\xff", &mut output), Err(ExtractError::Utf8)));
    assert!(matches!(
        extract_payload(b"a b c\n", &mut output),
        Err(ExtractError::UnsupportedCdxLayout { line: 1, actual: 3 })
    ));
    let good = "com,example)/ 20200102030405 https://example.com/ text/html 200 DIGEST 20\n";
    let bad = "com,example)/ never https://example.com/ text/html 200 DIGEST 20\n";
    assert!(matches!(
        extract_payload(format!("{good}{bad}").as_bytes(), &mut output),
        Err(ExtractError::Cdx { line: 2 })
    ));
}
