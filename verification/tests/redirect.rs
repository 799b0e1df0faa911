use archivindex_wbm::redirect::{make_redirect_html, parse_redirect_html};

#[test]
fn redirect_round_trip() {
    // Representative URLs: plain, query string, percent-escapes, and multibyte characters.
    for url in [
        "https://example.com/",
        "https://example.com/path?a=1&b=2",
        "https://example.com/a%20b?q=%26%23",
        "https://example.com/caf\u{e9}/\u{65e5}\u{672c}\u{8a9e}",
    ] {
        let html = make_redirect_html(url);

        assert_eq!(parse_redirect_html(&html), Some(url), "{url}");
    }
}

#[test]
fn make_redirect_html_matches_stored_page_shape() {
    assert_eq!(
        make_redirect_html("https://example.com/x"),
        r#"<html><body>You are being <a href="https://example.com/x">redirected</a>.</body></html>"#
    );
}

#[test]
fn round_trip_fails_for_url_containing_quote() {
    let html = make_redirect_html(r#"https://example.com/a"b"#);

    assert_eq!(parse_redirect_html(&html), None);
}

#[test]
fn only_the_exact_nonempty_page_shape_is_accepted() {
    let page = make_redirect_html("https://example.com/");
    for malformed in [
        make_redirect_html(""),
        format!("{page}\n"),
        format!(" {page}"),
        page.replace("redirected", "Redirected"),
    ] {
        assert_eq!(parse_redirect_html(&malformed), None);
    }
}
