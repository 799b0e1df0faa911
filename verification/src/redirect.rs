//! Construction and parsing of the small HTML redirect pages that the Wayback Machine stores for a
//! capture listed as a 302 redirect.
use vstd::prelude::*;

use crate::text::{append, chars_of, contains, starts_at};
use crate::text;

verus! {

/// What stands before the URL in a redirect page.
pub const PREFIX: &'static str = "<html><body>You are being <a href=\"";

/// What stands after the URL in a redirect page.
pub const SUFFIX: &'static str = "\">redirected</a>.</body></html>";

/// The redirect page for a URL.
pub open spec fn redirect_html(url: Seq<char>) -> Seq<char> {
    PREFIX@ + url + SUFFIX@
}

/// Whether a URL can be read back out of its redirect page.
pub open spec fn is_redirect_url(url: Seq<char>) -> bool {
    url.len() > 0 && !url.contains('"')
}

/// The URL that a redirect page was made from, if the content is such a page.
pub open spec fn redirect_target(content: Seq<char>) -> Option<Seq<char>> {
    let start = PREFIX@.len() as int;
    let end = content.len() - SUFFIX@.len();
    if start <= end && text::has_at(content, 0, PREFIX@) && text::has_at(content, end, SUFFIX@)
        && is_redirect_url(content.subrange(start, end)) {
        Some(content.subrange(start, end))
    } else {
        None
    }
}

/// Attempts to guess the contents of a redirect page stored by the Wayback Machine.
///
/// When an item is listed as a 302 redirect in CDX results, the content of the page usually (but
/// not always) has this format, where the URL is the value of the location header. The URL is
/// inserted as it is, with no HTML escaping, because the output must reproduce the stored page
/// byte for byte.
pub fn make_redirect_html(url: &str) -> (html: String)
    ensures
        html@ == redirect_html(url@),
{
    let mut html = String::new();
    append(&mut html, PREFIX);
    append(&mut html, url);
    append(&mut html, SUFFIX);
    html
}

/// Extracts the target URL from a redirect page in the format produced by [`make_redirect_html`],
/// or `None` if the content does not have that exact shape.
///
/// A page built from a URL containing `"` is refused: the quote ends the attribute value early.
pub fn parse_redirect_html(content: &str) -> (url: Option<&str>)
    ensures
        match url {
            Some(url) => redirect_target(content@) == Some(url@),
            None => redirect_target(content@) is None,
        },
{
    let chars = chars_of(content);
    let prefix_len: usize = PREFIX.unicode_len();
    let suffix_len: usize = SUFFIX.unicode_len();
    if chars.len() < prefix_len || chars.len() - prefix_len < suffix_len {
        return None;
    }
    let end: usize = chars.len() - suffix_len;
    if !starts_at(&chars, 0, PREFIX) || !starts_at(&chars, end, SUFFIX) {
        return None;
    }
    let url = content.substring_char(prefix_len, end);
    if url.is_empty() || contains(url, '"') {
        return None;
    }
    Some(url)
}

/// A redirect page gives back the URL that it was made from, unless that URL is empty or holds a
/// quote: then the page is refused.
pub proof fn law_redirect_round_trip(url: Seq<char>)
    ensures
        redirect_target(redirect_html(url)) == if is_redirect_url(url) {
            Some(url)
        } else {
            None
        },
{
    let page = redirect_html(url);
    let start = PREFIX@.len() as int;
    let end = page.len() - SUFFIX@.len();
    assert(page.subrange(0, start) =~= PREFIX@);
    assert(page.subrange(end, page.len() as int) =~= SUFFIX@);
    assert(page.subrange(start, end) =~= url);
}

/// Content that is read as a redirect page is the page of the URL that was read.
pub proof fn law_redirect_page_is_exact(content: Seq<char>)
    ensures
        redirect_target(content) matches Some(url) ==> content == redirect_html(url),
{
    if let Some(url) = redirect_target(content) {
        assert(content =~= redirect_html(url));
    }
}

/// A redirect page names every URL that is not empty and has no quote, and no other.
pub proof fn law_which_urls_are_named(url: Seq<char>)
    ensures
        redirect_target(redirect_html(url)) == Some(url) <==> url.len() > 0 && !url.contains('"'),
        redirect_html(url) == "<html><body>You are being <a href=\""@ + url
            + "\">redirected</a>.</body></html>"@,
{
    law_redirect_round_trip(url);
}

} // verus!
