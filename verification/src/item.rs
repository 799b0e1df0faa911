//! Wayback Machine snapshot URL parts, pairing an original URL with a capture timestamp, and the
//! conversions to and from the `web.archive.org` URL form.
use std::borrow::Cow;

use vstd::prelude::*;

use crate::decimal;
use crate::digest::Digest;
use crate::text;
use crate::text::{append, borrow_str, chars_of, clone_cow, contains, find_from, own_cow, starts_at};
use crate::timestamp;
use crate::timestamp::Timestamp;

verus! {

/// What stands before the timestamp in a snapshot URL.
pub const HTTPS_BASE: &'static str = "https://web.archive.org/web/";

/// What stands before the timestamp in a snapshot URL without encryption.
pub const HTTP_BASE: &'static str = "http://web.archive.org/web/";

/// The rendering flag that serves the snapshot's original bytes.
pub const ORIGINAL_FLAG: &'static str = "id_";

/// An error encountered while parsing a Wayback Machine snapshot URL.
#[derive(Debug)]
pub enum Error {
    /// The input is not a valid Wayback Machine snapshot URL.
    InvalidUrl(String),
    /// The timestamp component could not be parsed.
    InvalidTimestamp(timestamp::Error),
}

/// Simple representation of a URL-timestamp pair for a Wayback Machine snapshot.
///
/// This identifies a unique snapshot and typically a unique CDX item (although there are rare
/// exceptions).
#[derive(Debug, PartialEq, Eq)]
pub struct UrlParts<'a> {
    /// The original URL of the captured page.
    pub url: Cow<'a, str>,
    /// The capture timestamp.
    pub timestamp: Timestamp,
}

/// A rendering flag: nothing, or two lowercase letters followed by an underscore.
pub open spec fn is_flag(flag: Seq<char>) -> bool {
    flag.len() == 0 || (flag.len() == 3 && 'a' <= flag[0] <= 'z' && 'a' <= flag[1] <= 'z'
        && flag[2] == '_')
}

/// What follows the base of a snapshot URL.
pub open spec fn snapshot_path(input: Seq<char>) -> Option<Seq<char>> {
    if text::has_at(input, 0, HTTPS_BASE@) {
        Some(input.skip(HTTPS_BASE@.len() as int))
    } else if text::has_at(input, 0, HTTP_BASE@) {
        Some(input.skip(HTTP_BASE@.len() as int))
    } else {
        None
    }
}

/// The fourteen digits and the original URL of a snapshot URL, or `None` if the input does not have
/// the shape of one: the base, fourteen digits, a rendering flag, a slash, and a non-empty URL
/// without a line feed.
pub open spec fn snapshot_parts(input: Seq<char>) -> Option<(Seq<char>, Seq<char>)> {
    match snapshot_path(input) {
        Some(path) => {
            let slash = text::first_index(path, '/');
            let capture = path.take(slash);
            let url = path.skip(slash + 1);
            if slash < path.len() && 14 <= capture.len() && decimal::all_digits(capture.take(14))
                && is_flag(capture.skip(14)) && url.len() > 0 && !url.contains('\n') {
                Some((capture.take(14), url))
            } else {
                None
            }
        },
        None => None,
    }
}

/// The snapshot URL of an original URL and a timestamp.
pub open spec fn snapshot_url(
    url: Seq<char>,
    timestamp: int,
    https: bool,
    original: bool,
) -> Seq<char> {
    (if https {
        HTTPS_BASE@
    } else {
        HTTP_BASE@
    }) + timestamp::timestamp_text(timestamp) + (if original {
        ORIGINAL_FLAG@
    } else {
        Seq::empty()
    }) + seq!['/'] + url
}

impl<'a> Clone for UrlParts<'a> {
    fn clone(&self) -> (copy: Self)
        ensures
            copy == *self,
    {
        UrlParts { url: clone_cow(&self.url), timestamp: self.timestamp }
    }
}

impl<'a> UrlParts<'a> {
    /// Pair an original URL with a capture timestamp.
    pub fn new(url: Cow<'a, str>, timestamp: Timestamp) -> (parts: Self)
        ensures
            parts.url == url,
            parts.timestamp == timestamp,
    {
        UrlParts { url, timestamp }
    }

    /// The same pair, holding a copy of the URL.
    pub fn to_static(&self) -> (parts: UrlParts<'static>)
        ensures
            parts.url@ == self.url@,
            parts.url is Owned,
            parts.timestamp == self.timestamp,
    {
        UrlParts { url: own_cow(&self.url), timestamp: self.timestamp }
    }

    /// Parses a `web.archive.org` snapshot URL, borrowing the original URL from the input.
    ///
    /// Returns [`Error::InvalidUrl`] if the input is not a Wayback Machine snapshot URL, and
    /// [`Error::InvalidTimestamp`] if its fourteen digits are not a valid timestamp.
    pub fn parse_str(input: &'a str) -> (parsed: Result<Self, Error>)
        ensures
            match snapshot_parts(input@) {
                Some((digits, url)) => {
                    if timestamp::is_timestamp_text(digits) {
                        &&& parsed matches Ok(parts)
                        &&& parts.url is Borrowed
                        &&& parts.url@ == url
                        &&& parts.timestamp@ == timestamp::timestamp_value(digits)
                    } else {
                        &&& parsed matches Err(Error::InvalidTimestamp(error))
                        &&& error matches timestamp::Error::InvalidValue(text)
                        &&& text@ == digits
                    }
                },
                None => {
                    &&& parsed matches Err(Error::InvalidUrl(text))
                    &&& text@ == input@
                },
            },
    {
        let chars = chars_of(input);
        let start: usize = if starts_at(&chars, 0, HTTPS_BASE) {
            HTTPS_BASE.unicode_len()
        } else if starts_at(&chars, 0, HTTP_BASE) {
            HTTP_BASE.unicode_len()
        } else {
            return Err(Error::InvalidUrl(input.to_owned()));
        };
        let ghost path = input@.skip(start as int);
        assert(snapshot_path(input@) == Some(path));
        proof {
            text::lemma_first_index(path, '/');
        }
        let slash: usize = match find_from(&chars, start, '/') {
            Some(slash) => slash,
            None => return Err(Error::InvalidUrl(input.to_owned())),
        };
        let ghost capture = path.take(slash - start);
        assert(capture =~= input@.subrange(start as int, slash as int));
        if slash - start < 14 {
            return Err(Error::InvalidUrl(input.to_owned()));
        }
        let digits = input.substring_char(start, start + 14);
        assert(digits@ =~= capture.take(14));
        let flag_start: usize = start + 14;
        let valid_flag: bool = slash == flag_start || (slash - flag_start == 3 && 'a'
            <= chars[flag_start] && chars[flag_start] <= 'z' && 'a' <= chars[flag_start + 1]
            && chars[flag_start + 1] <= 'z' && chars[flag_start + 2] == '_');
        assert(valid_flag == is_flag(capture.skip(14)));
        let url = input.substring_char(slash + 1, chars.len());
        assert(url@ =~= path.skip(slash - start + 1));
        if !decimal::is_number(digits) || !valid_flag || url.is_empty() || contains(url, '\n') {
            return Err(Error::InvalidUrl(input.to_owned()));
        }
        proof {
            timestamp::lemma_digits_are_bytes(digits@);
        }
        match Timestamp::parse_str(digits) {
            Ok(timestamp) => Ok(UrlParts::new(Cow::Borrowed(url), timestamp)),
            Err(error) => Err(Error::InvalidTimestamp(error)),
        }
    }

    /// Renders the `web.archive.org` snapshot URL, selecting the scheme and rendering.
    ///
    /// When `original` is set, the URL carries the `id_` flag, which serves the snapshot's original
    /// bytes rather than the Wayback Machine's rewritten HTML.
    pub fn to_url(&self, https: bool, original: bool) -> (url: String)
        ensures
            url@ == snapshot_url(self.url@, self.timestamp@, https, original),
    {
        let mut output = String::new();
        self.write_url(&mut output, https, original);
        output
    }

    /// Appends the snapshot URL to a string.
    pub fn write_url(&self, output: &mut String, https: bool, original: bool)
        ensures
            final(output)@ == old(output)@ + snapshot_url(
                self.url@,
                self.timestamp@,
                https,
                original,
            ),
    {
        append(
            output,
            if https {
                HTTPS_BASE
            } else {
                HTTP_BASE
            },
        );
        let timestamp = self.timestamp.to_string();
        append(output, timestamp.as_str());
        if original {
            append(output, ORIGINAL_FLAG);
        }
        output.push('/');
        append(output, borrow_str(&self.url));
        assert(output@ =~= old(output)@ + snapshot_url(
            self.url@,
            self.timestamp@,
            https,
            original,
        ));
    }

    /// The `https://web.archive.org/web/<timestamp>id_/<url>` form, which serves the snapshot's
    /// original bytes.
    pub fn to_string(&self) -> (url: String)
        ensures
            url@ == snapshot_url(self.url@, self.timestamp@, true, true),
    {
        self.to_url(true, true)
    }
}

/// The snapshot URL of a timestamp and a URL gives both back, for every timestamp of the years 1000
/// to 9999 and every non-empty URL without a line feed, in either scheme and rendering.
pub proof fn law_snapshot_url_parses_back(
    url: Seq<char>,
    timestamp: int,
    https: bool,
    original: bool,
)
    requires
        timestamp::is_supported(timestamp),
        url.len() > 0,
        !url.contains('\n'),
    ensures
        snapshot_parts(snapshot_url(url, timestamp, https, original)) == Some(
            (timestamp::timestamp_text(timestamp), url),
        ),
        timestamp::is_timestamp_text(timestamp::timestamp_text(timestamp)),
        timestamp::timestamp_value(timestamp::timestamp_text(timestamp)) == timestamp,
{
    timestamp::law_timestamp_text_parses_back(timestamp);
    let digits = timestamp::timestamp_text(timestamp);
    let input = snapshot_url(url, timestamp, https, original);
    reveal_strlit("https://web.archive.org/web/");
    reveal_strlit("http://web.archive.org/web/");
    reveal_strlit("id_");
    let base = if https {
        HTTPS_BASE@
    } else {
        HTTP_BASE@
    };
    assert(input.subrange(0, base.len() as int) =~= base);
    if !https {
        assert(input[4] == ':');
        assert(HTTPS_BASE@[4] == 's');
        if text::has_at(input, 0, HTTPS_BASE@) {
            assert(input.subrange(0, HTTPS_BASE@.len() as int)[4] == HTTPS_BASE@[4]);
        }
    }
    let path = input.skip(base.len() as int);
    assert(snapshot_path(input) == Some(path));
    let flag = if original {
        ORIGINAL_FLAG@
    } else {
        Seq::empty()
    };
    let slash = (14 + flag.len()) as int;
    assert(path =~= digits + flag + seq!['/'] + url);
    assert forall|i: int| 0 <= i < slash implies path[i] != '/' by {
        if i < 14 {
            assert(decimal::is_digit(digits[i]));
            assert(path[i] == digits[i]);
        } else {
            assert(path[i] == flag[i - 14]);
        }
    }
    text::lemma_first_index_unique(path, '/', slash);
    assert(path.take(slash).take(14) =~= digits);
    assert(path.take(slash).skip(14) =~= flag);
    assert(path.skip(slash + 1) =~= url);
}

/// Simple representation of a URL-timestamp-digest triple.
///
/// For many purposes these are the only parts of a CDX item that are needed.
#[derive(Debug, PartialEq, Eq)]
pub struct ItemInfo<'a> {
    /// The snapshot's URL-timestamp pair.
    pub url_parts: UrlParts<'a>,
    /// The digest the CDX index reports for the snapshot.
    pub expected_digest: Digest<'a>,
}

impl<'a> ItemInfo<'a> {
    /// Pair a URL-timestamp pair with its expected digest.
    pub fn new(url_parts: UrlParts<'a>, expected_digest: Digest<'a>) -> (info: Self)
        ensures
            info.url_parts == url_parts,
            info.expected_digest == expected_digest,
    {
        ItemInfo { url_parts, expected_digest }
    }
}

impl<'a> Clone for ItemInfo<'a> {
    fn clone(&self) -> (copy: Self)
        ensures
            copy == *self,
    {
        ItemInfo {
            url_parts: self.url_parts.clone(),
            expected_digest: self.expected_digest.clone(),
        }
    }
}

/// A snapshot URL is the address of the archive, with either scheme, fourteen digits, at most a flag of two
/// lower-case letters and an underscore, a slash, and a URL that is not empty and has no line feed: each such
/// text has the digits and the URL as its parts.
pub proof fn law_snapshot_urls_have_parts(
    https: bool,
    digits: Seq<char>,
    flag: Seq<char>,
    url: Seq<char>,
)
    requires
        digits.len() == 14,
        decimal::all_digits(digits),
        flag.len() == 0 || flag.len() == 3 && 'a' <= flag[0] <= 'z' && 'a' <= flag[1] <= 'z'
            && flag[2] == '_',
    ensures
        snapshot_parts(
            (if https {
                "https://web.archive.org/web/"@
            } else {
                "http://web.archive.org/web/"@
            }) + digits + flag + seq!['/'] + url,
        ) == if url.len() > 0 && !url.contains('\n') {
            Some((digits, url))
        } else {
            None
        },
{
    reveal_strlit("https://web.archive.org/web/");
    reveal_strlit("http://web.archive.org/web/");
    let base = if https {
        HTTPS_BASE@
    } else {
        HTTP_BASE@
    };
    let input = base + digits + flag + seq!['/'] + url;
    assert(input.subrange(0, base.len() as int) =~= base);
    if !https && text::has_at(input, 0, HTTPS_BASE@) {
        assert(input.subrange(0, HTTPS_BASE@.len() as int)[4] == HTTPS_BASE@[4]);
        assert(input[4] == base[4]);
    }
    let path = input.skip(base.len() as int);
    assert(snapshot_path(input) == Some(path));
    let slash = (14 + flag.len()) as int;
    assert(path =~= digits + flag + seq!['/'] + url);
    assert forall|i: int| 0 <= i < slash implies path[i] != '/' by {
        if i < 14 {
            assert(decimal::is_digit(digits[i]));
            assert(path[i] == digits[i]);
        } else {
            assert(path[i] == flag[i - 14]);
        }
    }
    text::lemma_first_index_unique(path, '/', slash);
    assert(path.take(slash).take(14) =~= digits);
    assert(path.take(slash).skip(14) =~= flag);
    assert(path.skip(slash + 1) =~= url);
}

/// Every text that has parts is made of them: the address of the archive, the digits, a flag or none, a slash
/// and the URL.
pub proof fn law_parts_make_snapshot_urls(input: Seq<char>)
    ensures
        snapshot_parts(input) matches Some((digits, url)) ==> {
            &&& digits.len() == 14
            &&& decimal::all_digits(digits)
            &&& url.len() > 0
            &&& !url.contains('\n')
            &&& exists|flag: Seq<char>|
                {
                    &&& flag.len() == 0 || flag.len() == 3 && 'a' <= flag[0] <= 'z' && 'a' <= flag[1]
                        <= 'z' && flag[2] == '_'
                    &&& {
                        ||| input == "https://web.archive.org/web/"@ + digits + flag + seq!['/'] + url
                        ||| input == "http://web.archive.org/web/"@ + digits + #[trigger] (flag
                            + seq!['/']) + url
                    }
                }
        },
{
    if let Some((digits, url)) = snapshot_parts(input) {
        let path = snapshot_path(input).unwrap();
        let slash = text::first_index(path, '/');
        text::lemma_first_index(path, '/');
        let flag = path.take(slash).skip(14);
        assert(is_flag(flag));
        assert(path =~= digits + (flag + seq!['/']) + url);
        if text::has_at(input, 0, HTTPS_BASE@) {
            let base = HTTPS_BASE@;
            assert(input =~= input.subrange(0, base.len() as int) + path);
            assert(input =~= base + digits + flag + seq!['/'] + url);
        } else {
            let base = HTTP_BASE@;
            assert(input =~= input.subrange(0, base.len() as int) + path);
            assert(input =~= base + digits + (flag + seq!['/']) + url);
        }
    }
}

/// A text is read as the parts of a snapshot URL exactly if it has them and its digits are a timestamp. What it
/// lacks is reported: the text where it has no parts, and the digits where they are no timestamp.
pub proof fn law_snapshot_urls_are_read(input: &str, parsed: Result<UrlParts<'_>, Error>)
    requires
        call_ensures(UrlParts::<'_>::parse_str, (input,), parsed),
    ensures
        snapshot_parts(input@) is None ==> (parsed matches Err(Error::InvalidUrl(text)) && text@ == input@),
        snapshot_parts(input@) matches Some((digits, url)) ==> {
            &&& timestamp::is_timestamp_text(digits) ==> {
                &&& parsed matches Ok(parts)
                &&& parts.url@ == url
                &&& timestamp::timestamp_text(parts.timestamp@) == digits
            }
            &&& !timestamp::is_timestamp_text(digits) ==> {
                &&& parsed matches Err(Error::InvalidTimestamp(timestamp::Error::InvalidValue(text)))
                &&& text@ == digits
            }
        },
{
    if let Some((digits, _)) = snapshot_parts(input@) {
        if timestamp::is_timestamp_text(digits) {
            timestamp::law_timestamp_parse_writes_back(digits);
        }
    }
}

} // verus!
