//! A simplified Sort-friendly URI Reordering Transform key: the sort-friendly URL representation
//! and the domain-part access needed for Wayback Machine CDX results.
use std::borrow::Cow;

use vstd::prelude::*;

use crate::pairs;
use crate::pairs::sort_by_key;
use crate::text;
use crate::text::{borrow_str, chars_of, own_cow, push_all, push_str, split_chars, string_of};

verus! {

/// The longest domain name part.
pub const MAX_PART_LEN: usize = 255;

/// `url::ParseError`: why the `url` crate refused a text.
#[verifier::external_type_specification]
#[verifier::external_body]
pub struct ExParseError(url::ParseError);

/// An error encountered while building a [`Surt`], either from a SURT string or from a URL.
#[derive(Debug)]
pub enum Error {
    /// The input was not a well-formed SURT.
    ///
    /// This covers a missing `)` terminator, an empty domain name part (as in `com,)/x` or
    /// `,com)/x`), a domain name part longer than 255 characters, and any character before the
    /// terminator that is not alphanumeric, `-`, `_`, `:`, or `,`.
    InvalidSurt(String),
    /// A label of the URL's host was longer than 255 characters, so its length could not be
    /// recorded.
    InvalidDomainPart(String),
    /// The input could not be parsed as a URL at all.
    InvalidUrl(url::ParseError),
    /// The input parsed as a URL that has no supported SURT form.
    ///
    /// This covers schemes other than `http` and `https`, URLs with a non-default port, hosts that
    /// are IP addresses rather than domain names, and hosts that leave no labels once `www` and
    /// empty labels are dropped (as in `https://www/path`).
    UnexpectedUrl(String),
}

/// The domain name parts, in SURT order, and what follows the `)` that terminates them.
#[verifier::ext_equal]
pub struct SurtParts {
    /// The domain name parts.
    pub parts: Seq<Seq<char>>,
    /// The path, with the query string if there is one.
    pub path: Seq<char>,
}

/// Whether each part has from one to 255 characters, and there is at least one part.
pub open spec fn are_parts(parts: Seq<Seq<char>>) -> bool {
    parts.len() > 0 && forall|i: int|
        0 <= i < parts.len() ==> 0 < (#[trigger] parts[i]).len() <= MAX_PART_LEN
}

/// Whether a character can stand in a domain name part of a SURT.
pub open spec fn is_part_char(c: char) -> bool {
    ('a' <= c <= 'z') || ('A' <= c <= 'Z') || ('0' <= c <= '9') || c == '-' || c == '_' || c == ':'
}

/// Whether every character can stand in a domain name part of a SURT.
pub open spec fn are_part_chars(part: Seq<char>) -> bool {
    forall|i: int| 0 <= i < part.len() ==> is_part_char(#[trigger] part[i])
}

/// The SURT of domain name parts and a path.
pub open spec fn surt_text(surt: SurtParts) -> Seq<char> {
    text::join(surt.parts, seq![',']) + seq![')'] + surt.path
}

/// What a SURT string names: the comma-separated parts before the first `)`, and what follows it.
pub open spec fn split_surt(input: Seq<char>) -> SurtParts {
    let end = text::first_index(input, ')');
    SurtParts { parts: text::split(input.take(end), ','), path: input.skip(end + 1) }
}

/// Whether a text is a well-formed SURT.
pub open spec fn is_surt(input: Seq<char>) -> bool {
    let surt = split_surt(input);
    &&& text::first_index(input, ')') < input.len()
    &&& are_parts(surt.parts)
    &&& forall|i: int| 0 <= i < surt.parts.len() ==> are_part_chars(#[trigger] surt.parts[i])
}

proof fn lemma_joined_has_no_end(parts: Seq<Seq<char>>)
    requires
        forall|i: int| 0 <= i < parts.len() ==> are_part_chars(#[trigger] parts[i]),
    ensures
        !text::join(parts, seq![',']).contains(')'),
    decreases parts.len(),
{
    if parts.len() > 1 {
        lemma_joined_has_no_end(parts.drop_last());
        let front = text::join(parts.drop_last(), seq![',']);
        let all = text::join(parts, seq![',']);
        assert(all == front + seq![','] + parts.last());
        assert forall|i: int| 0 <= i < all.len() implies all[i] != ')' by {
            if i < front.len() {
                assert(front.contains(front[i]));
            } else if i > front.len() {
                assert(is_part_char(parts.last()[i - front.len() - 1]));
            }
        }
    } else if parts.len() == 1 {
        assert(are_part_chars(parts[0]));
    }
}

/// The text of a SURT parses back as its domain name parts and its path, whatever the path is. The parts
/// have to be made of characters that can stand in a domain name part.
pub proof fn law_surt_text_parses_back(surt: SurtParts)
    requires
        are_parts(surt.parts),
        forall|i: int| 0 <= i < surt.parts.len() ==> are_part_chars(#[trigger] surt.parts[i]),
    ensures
        is_surt(surt_text(surt)),
        split_surt(surt_text(surt)) == surt,
{
    let host = text::join(surt.parts, seq![',']);
    let all = surt_text(surt);
    lemma_joined_has_no_end(surt.parts);
    assert forall|i: int| 0 <= i < host.len() implies all[i] != ')' by {
        assert(host.contains(host[i]));
    }
    text::lemma_first_index_unique(all, ')', host.len() as int);
    assert(all.take(host.len() as int) =~= host);
    assert(all.skip(host.len() as int + 1) =~= surt.path);
    assert forall|i: int| 0 <= i < surt.parts.len() implies !(#[trigger] surt.parts[i]).contains(
        ',',
    ) by {
        assert(are_part_chars(surt.parts[i]));
    }
    text::law_joined_splits_back(surt.parts, ',');
}

/// The parts that a text cuts into, given their lengths and one separator after each.
pub open spec fn cut(text: Seq<char>, lens: Seq<u8>) -> Seq<Seq<char>>
    decreases lens.len(),
{
    if lens.len() == 0 {
        Seq::empty()
    } else {
        seq![text.take(lens[0] as int)] + cut(text.skip(lens[0] + 1), lens.skip(1))
    }
}

/// How many characters the parts take up, with one separator after each.
pub open spec fn total(lens: Seq<u8>) -> nat
    decreases lens.len(),
{
    if lens.len() == 0 {
        0
    } else {
        (lens[0] + 1 + total(lens.skip(1))) as nat
    }
}

/// Whether the lengths are those of the parts.
pub open spec fn lens_match(parts: Seq<Seq<char>>, lens: Seq<u8>) -> bool {
    lens.len() == parts.len() && forall|i: int|
        0 <= i < parts.len() ==> (#[trigger] parts[i]).len() == lens[i]
}

/// Joined parts are cut apart again by their lengths.
proof fn lemma_cut(parts: Seq<Seq<char>>, lens: Seq<u8>, tail: Seq<char>)
    requires
        lens_match(parts, lens),
        parts.len() > 0,
    ensures
        cut(text::join(parts, seq![',']) + tail, lens) == parts,
        text::join(parts, seq![',']).len() + 1 == total(lens),
    decreases parts.len(),
{
    let joined = text::join(parts, seq![',']);
    let rest = parts.skip(1);
    let first = parts[0];
    assert(first.len() == lens[0]);
    assert(parts =~= seq![first] + rest);
    if parts.len() == 1 {
        assert(lens.skip(1) =~= Seq::empty());
        assert((joined + tail).take(lens[0] as int) =~= first);
        assert(cut((joined + tail).skip(lens[0] + 1), lens.skip(1)) =~= Seq::empty());
        assert(total(lens.skip(1)) == 0);
    } else {
        text::lemma_join_front(first, rest, seq![',']);
        assert(lens_match(rest, lens.skip(1))) by {
            assert forall|i: int| 0 <= i < rest.len() implies (#[trigger] rest[i]).len() == lens.skip(
                1,
            )[i] by {
                assert(rest[i] == parts[i + 1]);
            }
        }
        lemma_cut(rest, lens.skip(1), tail);
        let after = text::join(rest, seq![',']);
        assert((joined + tail).take(lens[0] as int) =~= first);
        assert((joined + tail).skip(lens[0] + 1) =~= after + tail);
    }
}

/// A simplified Sort-friendly URI Reordering Transform.
///
/// By construction there is always at least one domain name part.
#[derive(Debug)]
pub struct Surt<'a> {
    source: Cow<'a, str>,
    domain_name_part_lens: Vec<u8>,
}

impl<'a> View for Surt<'a> {
    type V = SurtParts;

    /// The domain name parts and the path.
    closed spec fn view(&self) -> SurtParts {
        SurtParts {
            parts: cut(self.source@, self.domain_name_part_lens@),
            path: self.source@.skip(total(self.domain_name_part_lens@) as int),
        }
    }
}

impl<'a> Surt<'a> {
    /// The recorded lengths are those of the parts, and the text is the SURT of parts and path.
    #[verifier::type_invariant]
    spec fn is_well_formed(self) -> bool {
        &&& are_parts(self@.parts)
        &&& lens_match(self@.parts, self.domain_name_part_lens@)
        &&& self.source@ == surt_text(self@)
    }

    /// A SURT of the given text, parts and path.
    fn from_validated(
        source: Cow<'a, str>,
        domain_name_part_lens: Vec<u8>,
        Ghost(surt): Ghost<SurtParts>,
    ) -> (built: Self)
        requires
            are_parts(surt.parts),
            lens_match(surt.parts, domain_name_part_lens@),
            source@ == surt_text(surt),
        ensures
            built@ == surt,
            built.source == source,
    {
        proof {
            lemma_cut(surt.parts, domain_name_part_lens@, seq![')'] + surt.path);
            assert(source@ =~= text::join(surt.parts, seq![',']) + (seq![')'] + surt.path));
            assert(source@.skip(total(domain_name_part_lens@) as int) =~= surt.path);
        }
        Surt { source, domain_name_part_lens }
    }

    /// Borrows the whole SURT, in the form it takes in the `urlkey` field of a CDX record.
    pub fn as_str(&self) -> (text: &str)
        ensures
            text@ == surt_text(self@),
            are_parts(self@.parts),
    {
        proof {
            use_type_invariant(self);
        }
        borrow_str(&self.source)
    }

    /// The same SURT, holding a copy of the text.
    pub fn to_static(&self) -> (copy: Surt<'static>)
        ensures
            copy@ == self@,
    {
        proof {
            use_type_invariant(self);
        }
        let mut lens: Vec<u8> = Vec::new();
        let mut i: usize = 0;
        while i < self.domain_name_part_lens.len()
            invariant
                i <= self.domain_name_part_lens@.len(),
                lens@ == self.domain_name_part_lens@.take(i as int),
            decreases self.domain_name_part_lens@.len() - i,
        {
            lens.push(self.domain_name_part_lens[i]);
            i = i + 1;
        }
        assert(lens@ =~= self.domain_name_part_lens@);
        Surt { source: own_cow(&self.source), domain_name_part_lens: lens }
    }

    /// Where the path starts: after the domain name parts and one separator for each.
    fn path_start(&self) -> (start: usize)
        ensures
            start == total(self.domain_name_part_lens@),
            start <= self.source@.len(),
            start > 0,
    {
        proof {
            use_type_invariant(self);
            lemma_cut(self@.parts, self.domain_name_part_lens@, seq![')'] + self@.path);
        }
        let len: usize = borrow_str(&self.source).unicode_len();
        let mut start: usize = 0;
        let mut i: usize = 0;
        let ghost lens = self.domain_name_part_lens@;
        assert(lens.skip(0) =~= lens);
        while i < self.domain_name_part_lens.len()
            invariant
                lens == self.domain_name_part_lens@,
                i <= lens.len(),
                start + total(lens.skip(i as int)) == total(lens),
                total(lens) <= len,
            decreases lens.len() - i,
        {
            proof {
                assert(lens.skip(i as int).skip(1) =~= lens.skip(i + 1));
            }
            start = start + self.domain_name_part_lens[i] as usize + 1;
            i = i + 1;
        }
        assert(lens.skip(i as int) =~= Seq::empty());
        start
    }

    /// Iterates over the comma-separated domain name parts, in SURT order.
    ///
    /// SURT order is the reverse of the order the labels take in a host name, so
    /// `com,twitter,api)/x` yields `com`, then `twitter`, then `api`. There is always at least one
    /// part. The last part yielded corresponds to the leftmost label of the host and is the one
    /// that carries a port, if any (as in `com,example:8080)`).
    pub fn domain_name_parts(&self) -> (parts: DomainNamePartIter<'_>)
        ensures
            parts@ == self@.parts,
            parts@.len() > 0,
    {
        proof {
            use_type_invariant(self);
            lemma_cut(self@.parts, self.domain_name_part_lens@, Seq::empty());
            assert(text::join(self@.parts, seq![',']) + Seq::empty() =~= text::join(
                self@.parts,
                seq![','],
            ));
            lemma_cut(self@.parts, self.domain_name_part_lens@, seq![')'] + self@.path);
        }
        let end: usize = self.path_start() - 1;
        let source = borrow_str(&self.source).substring_char(0, end);
        assert(source@ =~= text::join(self@.parts, seq![',']));
        DomainNamePartIter { source, domain_name_part_lens: self.domain_name_part_lens.as_slice() }
    }

    /// Borrows everything after the `)` that terminates the domain name parts.
    ///
    /// This is the canonicalized path together with the canonicalized, key-sorted query string, if
    /// there is one. It is empty for a SURT that names only a host, such as `com,example)`.
    pub fn path(&self) -> (path: &str)
        ensures
            path@ == self@.path,
    {
        let start: usize = self.path_start();
        let source = borrow_str(&self.source);
        let path = source.substring_char(start, source.unicode_len());
        assert(path@ =~= self@.path);
        path
    }

    /// Parses a SURT string, borrowing from the input.
    ///
    /// The input is validated and indexed but not otherwise transformed: it is assumed to be
    /// already canonicalized, as the `urlkey` field of a CDX record is. Use
    /// [`from_url`](Surt::from_url) to canonicalize an ordinary URL instead.
    pub fn parse_str(input: &'a str) -> (parsed: Result<Self, Error>)
        ensures
            match parsed {
                Ok(surt) => {
                    &&& is_surt(input@)
                    &&& surt@ == split_surt(input@)
                    &&& surt_text(surt@) == input@
                },
                Err(error) => {
                    &&& !is_surt(input@)
                    &&& error matches Error::InvalidSurt(text)
                    &&& text@ == input@
                },
            },
    {
        let chars = chars_of(input);
        let ghost surt = split_surt(input@);
        assert(input@.skip(0) =~= input@);
        let end: usize = match text::find_from(&chars, 0, ')') {
            Some(end) => end,
            None => return Err(Error::InvalidSurt(input.to_owned())),
        };
        let host = vstd::slice::slice_subrange(&chars, 0, end);
        assert(host@ =~= input@.take(end as int));
        let parts = split_chars(host, ',');
        let mut lens: Vec<u8> = Vec::new();
        let mut i: usize = 0;
        while i < parts.len()
            invariant
                i <= parts@.len(),
                i == lens@.len(),
                surt == split_surt(input@),
                text::char_views(parts@) == surt.parts,
                forall|k: int|
                    0 <= k < i ==> {
                        &&& 0 < (#[trigger] surt.parts[k]).len() <= MAX_PART_LEN
                        &&& are_part_chars(surt.parts[k])
                        &&& surt.parts[k].len() == lens@[k]
                    },
            decreases parts@.len() - i,
        {
            let part = &parts[i];
            assert(part@ == surt.parts[i as int]);
            if part.len() == 0 || part.len() > MAX_PART_LEN || !part_chars(part) {
                return Err(Error::InvalidSurt(input.to_owned()));
            }
            lens.push(part.len() as u8);
            i = i + 1;
        }
        proof {
            text::law_split_joins_back(input@.take(end as int), ',');
            text::lemma_first_index(input@, ')');
            assert(input@ =~= input@.take(end as int) + seq![')'] + input@.skip(end + 1));
            assert(surt_text(surt) =~= input@);
        }
        Ok(Surt::from_validated(Cow::Borrowed(input), lens, Ghost(surt)))
    }
}

/// Whether every character can stand in a domain name part of a SURT.
fn part_chars(part: &[char]) -> (valid: bool)
    ensures
        valid == are_part_chars(part@),
{
    let mut i: usize = 0;
    while i < part.len()
        invariant
            i <= part@.len(),
            forall|k: int| 0 <= k < i ==> is_part_char(#[trigger] part@[k]),
        decreases part@.len() - i,
    {
        let c = part[i];
        if !(('a' <= c && c <= 'z') || ('A' <= c && c <= 'Z') || ('0' <= c && c <= '9') || c == '-'
            || c == '_' || c == ':') {
            assert(!is_part_char(part@[i as int]));
            return false;
        }
        i = i + 1;
    }
    true
}

/// A double-ended walk over the domain name parts of a [`Surt`], in SURT order.
///
/// This is produced by [`Surt::domain_name_parts`]. It walks the recorded part lengths rather than
/// searching for commas, so it never allocates and yields slices borrowed from the SURT itself.
/// Forward and backward steps can be interleaved and together yield each part exactly once.
#[derive(Debug)]
pub struct DomainNamePartIter<'a> {
    source: &'a str,
    domain_name_part_lens: &'a [u8],
}

impl<'a> View for DomainNamePartIter<'a> {
    type V = Seq<Seq<char>>;

    /// The parts that are still to come.
    closed spec fn view(&self) -> Seq<Seq<char>> {
        cut(self.source@, self.domain_name_part_lens@)
    }
}

impl<'a> DomainNamePartIter<'a> {
    /// What is left of the text is the parts that are still to come, joined by commas.
    #[verifier::type_invariant]
    spec fn is_well_formed(self) -> bool {
        &&& lens_match(self@, self.domain_name_part_lens@)
        &&& self.source@ == text::join(self@, seq![','])
    }

    /// The next part from the front.
    pub fn next(&mut self) -> (part: Option<&'a str>)
        ensures
            match part {
                Some(part) => {
                    &&& old(self)@.len() > 0
                    &&& part@ == old(self)@[0]
                    &&& final(self)@ == old(self)@.skip(1)
                },
                None => old(self)@.len() == 0 && final(self)@ == old(self)@,
            },
    {
        proof {
            use_type_invariant(&*self);
        }
        let source = self.source;
        let lens = self.domain_name_part_lens;
        let ghost parts = self@;
        if lens.len() == 0 {
            return None;
        }
        let len: usize = lens[0] as usize;
        let size: usize = source.unicode_len();
        let ghost rest = parts.skip(1);
        proof {
            assert(parts[0].len() == lens@[0]);
            assert(parts =~= seq![parts[0]] + rest);
            if rest.len() > 0 {
                text::lemma_join_front(parts[0], rest, seq![',']);
            }
        }
        let part = source.substring_char(0, len);
        assert(part@ =~= parts[0]);
        let remaining = if size > len {
            source.substring_char(len + 1, size)
        } else {
            source.substring_char(len, size)
        };
        let rest_lens = vstd::slice::slice_subrange(lens, 1, lens.len());
        proof {
            assert(remaining@ =~= text::join(rest, seq![',']));
            assert(rest_lens@ =~= lens@.skip(1));
            lemma_remaining(rest, rest_lens@, parts, lens@, 1);
        }
        *self = DomainNamePartIter { source: remaining, domain_name_part_lens: rest_lens };
        Some(part)
    }

    /// The next part from the back.
    pub fn next_back(&mut self) -> (part: Option<&'a str>)
        ensures
            match part {
                Some(part) => {
                    &&& old(self)@.len() > 0
                    &&& part@ == old(self)@.last()
                    &&& final(self)@ == old(self)@.drop_last()
                },
                None => old(self)@.len() == 0 && final(self)@ == old(self)@,
            },
    {
        proof {
            use_type_invariant(&*self);
        }
        let source = self.source;
        let lens = self.domain_name_part_lens;
        let ghost parts = self@;
        if lens.len() == 0 {
            return None;
        }
        let len: usize = lens[lens.len() - 1] as usize;
        let size: usize = source.unicode_len();
        let ghost rest = parts.drop_last();
        proof {
            assert(parts.last().len() == lens@.last());
        }
        let part = source.substring_char(size - len, size);
        assert(part@ =~= parts.last());
        let new_len: usize = size - len;
        let remaining = if new_len > 0 {
            source.substring_char(0, new_len - 1)
        } else {
            source.substring_char(0, new_len)
        };
        let rest_lens = vstd::slice::slice_subrange(lens, 0, lens.len() - 1);
        proof {
            assert(remaining@ =~= text::join(rest, seq![',']));
            assert(rest_lens@ =~= lens@.drop_last());
            lemma_remaining(rest, rest_lens@, parts, lens@, 0);
        }
        *self = DomainNamePartIter { source: remaining, domain_name_part_lens: rest_lens };
        Some(part)
    }
}

/// The parts that are left after one at an end was taken are cut apart by the lengths that are left.
proof fn lemma_remaining(
    rest: Seq<Seq<char>>,
    rest_lens: Seq<u8>,
    parts: Seq<Seq<char>>,
    lens: Seq<u8>,
    skipped: int,
)
    requires
        lens_match(parts, lens),
        0 <= skipped <= 1 <= parts.len(),
        rest == parts.subrange(skipped, parts.len() - 1 + skipped),
        rest_lens == lens.subrange(skipped, lens.len() - 1 + skipped),
    ensures
        lens_match(rest, rest_lens),
        cut(text::join(rest, seq![',']), rest_lens) == rest,
{
    assert forall|i: int| 0 <= i < rest.len() implies (#[trigger] rest[i]).len() == rest_lens[i] by {
        assert(rest[i] == parts[i + skipped]);
    }
    if rest.len() > 0 {
        lemma_cut(rest, rest_lens, Seq::empty());
        assert(text::join(rest, seq![',']) + Seq::empty() =~= text::join(rest, seq![',']));
    } else {
        assert(cut(text::join(rest, seq![',']), rest_lens) =~= rest);
    }
}

/// A hexadecimal digit.
pub open spec fn is_hex(c: char) -> bool {
    ('0' <= c <= '9') || ('a' <= c <= 'f') || ('A' <= c <= 'F')
}

/// A hexadecimal digit with its letter in lower case.
pub open spec fn lower_hex(c: char) -> char {
    if 'A' <= c <= 'F' {
        (c as u32 + 32) as char
    } else {
        c
    }
}

/// The character that stands in a key for a percent-escape with the given lower-case digits, for
/// the escapes that the Wayback Machine's canonicalization leaves literal.
pub open spec fn literal_escape(high: char, low: char) -> Option<char> {
    if high == '2' && low == '2' {
        Some('"')
    } else if high == '2' && low == '7' {
        Some('\'')
    } else if high == '2' && low == 'a' {
        Some('*')
    } else if high == '3' && low == 'c' {
        Some('<')
    } else if high == '3' && low == 'e' {
        Some('>')
    } else if high == '5' && low == 'c' {
        Some('\\')
    } else if high == '7' && low == 'b' {
        Some('{')
    } else if high == '7' && low == 'd' {
        Some('}')
    } else {
        None
    }
}

/// The text of one percent-escape in a key: the literal character, or the escape in lower case.
pub open spec fn escape_text(high: char, low: char) -> Seq<char> {
    match literal_escape(lower_hex(high), lower_hex(low)) {
        Some(c) => seq![c],
        None => seq!['%', lower_hex(high), lower_hex(low)],
    }
}

/// Whether a text starts with a percent-escape.
pub open spec fn starts_with_escape(s: Seq<char>) -> bool {
    s.len() >= 3 && s[0] == '%' && is_hex(s[1]) && is_hex(s[2])
}

/// A path with every percent-escape in its key form.
pub open spec fn unescape(s: Seq<char>) -> Seq<char>
    decreases s.len(),
{
    if s.len() == 0 {
        Seq::empty()
    } else if starts_with_escape(s) {
        escape_text(s[1], s[2]) + unescape(s.skip(3))
    } else {
        seq![s[0]] + unescape(s.skip(1))
    }
}

/// A text with each run of slashes cut down to one.
pub open spec fn collapse_slashes(s: Seq<char>) -> Seq<char>
    decreases s.len(),
{
    if s.len() == 0 {
        Seq::empty()
    } else if s.len() >= 2 && s[0] == '/' && s[1] == '/' {
        collapse_slashes(s.skip(1))
    } else {
        seq![s[0]] + collapse_slashes(s.skip(1))
    }
}

/// A path in its key form.
pub open spec fn key_path(path: Seq<char>) -> Seq<char> {
    collapse_slashes(unescape(path))
}

/// A query value in its key form, character by character.
///
/// A plus and a space are encoded again. An ampersand, a number sign and a line feed only come out
/// of a query decoded where the source had them percent-encoded, and stay so in the key.
pub open spec fn key_value(s: Seq<char>) -> Seq<char>
    decreases s.len(),
{
    if s.len() == 0 {
        Seq::empty()
    } else if s.len() >= 3 && s[0] == '%' && s[1] == '5' && s[2] == 'e' {
        seq!['^'] + key_value(s.skip(3))
    } else {
        (if s[0] == '+' {
            seq!['%', '2', '0']
        } else if s[0] == ' ' {
            seq!['+']
        } else if s[0] == '\n' {
            seq!['%', '0', 'a']
        } else if s[0] == '&' {
            seq!['%', '2', '6']
        } else if s[0] == '#' {
            seq!['%', '2', '3']
        } else {
            seq![s[0]]
        }) + key_value(s.skip(1))
    }
}

/// Whether every percent-escape is in its key form.
spec fn is_unescaped(s: Seq<char>) -> bool {
    forall|i: int|
        0 <= i && i + 2 < s.len() && #[trigger] s[i] == '%' && is_hex(s[i + 1]) && is_hex(s[i + 2])
            ==> escape_text(s[i + 1], s[i + 2]) == seq!['%', s[i + 1], s[i + 2]]
}

/// A text whose escapes are in their key form stays as it is.
proof fn lemma_unescaped_stays(s: Seq<char>)
    requires
        is_unescaped(s),
    ensures
        unescape(s) == s,
    decreases s.len(),
{
    if s.len() > 0 {
        let n = if starts_with_escape(s) {
            3int
        } else {
            1int
        };
        let rest = s.skip(n);
        assert forall|i: int|
            0 <= i && i + 2 < rest.len() && #[trigger] rest[i] == '%' && is_hex(rest[i + 1])
                && is_hex(rest[i + 2]) implies escape_text(rest[i + 1], rest[i + 2]) == seq![
            '%',
            rest[i + 1],
            rest[i + 2],
        ] by {
            assert(s[i + n] == '%');
        }
        lemma_unescaped_stays(rest);
        if starts_with_escape(s) {
            assert(s[0] == '%');
            assert(s =~= seq!['%', s[1], s[2]] + rest);
        } else {
            assert(s =~= seq![s[0]] + rest);
        }
    }
}

/// A character before a text whose escapes are in their key form, where it starts no other escape.
proof fn lemma_unescaped_after(c: char, s: Seq<char>)
    requires
        is_unescaped(s),
        c == '%' && s.len() >= 2 && is_hex(s[0]) && is_hex(s[1]) ==> escape_text(s[0], s[1]) == seq![
            '%',
            s[0],
            s[1],
        ],
    ensures
        is_unescaped(seq![c] + s),
{
    let all = seq![c] + s;
    assert forall|i: int|
        0 <= i && i + 2 < all.len() && #[trigger] all[i] == '%' && is_hex(all[i + 1]) && is_hex(
            all[i + 2],
        ) implies escape_text(all[i + 1], all[i + 2]) == seq!['%', all[i + 1], all[i + 2]] by {
        assert(all[i + 1] == s[i]);
        assert(all[i + 2] == s[i + 1]);
        if i > 0 {
            assert(s[i - 1] == '%');
        }
    }
}

/// A digit at the front of an unescaped text stood at the front before.
proof fn lemma_front_digit(s: Seq<char>)
    ensures
        unescape(s).len() > 0 && is_hex(unescape(s)[0]) ==> s.len() > 0 && s[0] == unescape(s)[0]
            && unescape(s) == seq![s[0]] + unescape(s.skip(1)),
{
}

/// Putting escapes into their key form leaves none in another form.
proof fn lemma_unescape(s: Seq<char>)
    ensures
        is_unescaped(unescape(s)),
    decreases s.len(),
{
    if s.len() > 0 {
        if starts_with_escape(s) {
            let rest = unescape(s.skip(3));
            let text = escape_text(s[1], s[2]);
            lemma_unescape(s.skip(3));
            if text.len() == 1 {
                assert(text =~= seq![text[0]]);
                lemma_unescaped_after(text[0], rest);
            } else {
                assert(text =~= seq!['%', text[1], text[2]]);
                lemma_unescaped_after(text[2], rest);
                lemma_unescaped_after(text[1], seq![text[2]] + rest);
                let tail = seq![text[1]] + (seq![text[2]] + rest);
                assert(tail[0] == text[1] && tail[1] == text[2]);
                lemma_unescaped_after('%', tail);
                assert(seq!['%'] + tail =~= text + rest);
            }
        } else {
            let rest = s.skip(1);
            lemma_unescape(rest);
            lemma_front_digit(rest);
            lemma_front_digit(rest.skip(1));
            let after = unescape(rest);
            if s[0] == '%' && after.len() >= 2 && is_hex(after[0]) && is_hex(after[1]) {
                assert(after[1] == unescape(rest.skip(1))[0]);
                assert(rest.skip(1)[0] == rest[1]);
                assert(starts_with_escape(s));
            }
            lemma_unescaped_after(s[0], after);
        }
    }
}

/// Cutting down slashes keeps the first character.
proof fn lemma_collapse_front(s: Seq<char>)
    ensures
        s.len() == 0 ==> collapse_slashes(s).len() == 0,
        s.len() > 0 ==> collapse_slashes(s).len() > 0 && collapse_slashes(s)[0] == s[0],
    decreases s.len(),
{
    if s.len() > 0 {
        lemma_collapse_front(s.skip(1));
    }
}

/// Cutting down slashes makes no escape, and leaves no run of slashes.
proof fn lemma_collapse(s: Seq<char>)
    ensures
        is_unescaped(s) ==> is_unescaped(collapse_slashes(s)),
        collapse_slashes(collapse_slashes(s)) == collapse_slashes(s),
    decreases s.len(),
{
    if s.len() > 0 {
        let rest = s.skip(1);
        let after = collapse_slashes(rest);
        lemma_collapse(rest);
        lemma_collapse_front(rest);
        if is_unescaped(s) {
            assert forall|i: int|
                0 <= i && i + 2 < rest.len() && #[trigger] rest[i] == '%' && is_hex(rest[i + 1])
                    && is_hex(rest[i + 2]) implies escape_text(rest[i + 1], rest[i + 2]) == seq![
                '%',
                rest[i + 1],
                rest[i + 2],
            ] by {
                assert(s[i + 1] == '%');
            }
        }
        if !(s.len() >= 2 && s[0] == '/' && s[1] == '/') {
            if rest.len() > 0 {
                lemma_collapse_front(rest.skip(1));
            }
            if is_unescaped(s) {
                if s[0] == '%' && after.len() >= 2 && is_hex(after[0]) && is_hex(after[1]) {
                    assert(after =~= seq![rest[0]] + collapse_slashes(rest.skip(1)));
                    assert(after[1] == rest.skip(1)[0]);
                    assert(s[0] == '%' && s[1] == after[0] && s[2] == after[1]);
                }
                lemma_unescaped_after(s[0], after);
            }
            let all = seq![s[0]] + after;
            assert(all.skip(1) =~= after);
            assert(collapse_slashes(all) =~= all);
        }
    }
}

/// A decoded path stays as it is when it is decoded again.
pub proof fn law_decoding_paths_is_idempotent(path: Seq<char>)
    ensures
        key_path(key_path(path)) == key_path(path),
{
    lemma_unescape(path);
    lemma_collapse(unescape(path));
    lemma_unescaped_stays(key_path(path));
}

/// Puts every percent-escape of a path into its key form.
fn unescape_path(path: &[char]) -> (out: Vec<char>)
    ensures
        out@ == unescape(path@),
{
    let mut out: Vec<char> = Vec::new();
    let mut i: usize = 0;
    assert(path@.skip(0) =~= path@);
    assert(out@ + unescape(path@) =~= unescape(path@));
    while i < path.len()
        invariant
            i <= path@.len(),
            out@ + unescape(path@.skip(i as int)) == unescape(path@),
        decreases path@.len() - i,
    {
        let ghost rest = path@.skip(i as int);
        let ghost before = out@;
        let c = path[i];
        if c == '%' && path.len() - i >= 3 && hex_digit(path[i + 1]) && hex_digit(path[i + 2]) {
            let high = lower(path[i + 1]);
            let low = lower(path[i + 2]);
            let literal: Option<char> = match (high, low) {
                ('2', '2') => Some('"'),
                ('2', '7') => Some('\''),
                ('2', 'a') => Some('*'),
                ('3', 'c') => Some('<'),
                ('3', 'e') => Some('>'),
                ('5', 'c') => Some('\\'),
                ('7', 'b') => Some('{'),
                ('7', 'd') => Some('}'),
                _ => None,
            };
            match literal {
                Some(c) => out.push(c),
                None => {
                    out.push('%');
                    out.push(high);
                    out.push(low);
                },
            }
            i = i + 3;
            proof {
                assert(starts_with_escape(rest));
                assert(rest.skip(3) =~= path@.skip(i as int));
                assert(out@ =~= before + escape_text(rest[1], rest[2]));
                assert(out@ + unescape(rest.skip(3)) =~= before + unescape(rest));
            }
        } else {
            out.push(c);
            i = i + 1;
            proof {
                assert(!starts_with_escape(rest));
                assert(rest.skip(1) =~= path@.skip(i as int));
                assert(out@ + unescape(rest.skip(1)) =~= before + unescape(rest));
            }
        }
    }
    assert(path@.skip(i as int) =~= Seq::empty());
    assert(out@ + Seq::<char>::empty() =~= out@);
    out
}

/// Cuts each run of slashes down to one.
fn collapse(s: &[char]) -> (out: Vec<char>)
    ensures
        out@ == collapse_slashes(s@),
{
    let mut out: Vec<char> = Vec::new();
    let mut i: usize = 0;
    assert(s@.skip(0) =~= s@);
    assert(out@ + collapse_slashes(s@) =~= collapse_slashes(s@));
    while i < s.len()
        invariant
            i <= s@.len(),
            out@ + collapse_slashes(s@.skip(i as int)) == collapse_slashes(s@),
        decreases s@.len() - i,
    {
        let ghost rest = s@.skip(i as int);
        let ghost before = out@;
        let repeated: bool = s.len() - i >= 2 && s[i] == '/' && s[i + 1] == '/';
        if !repeated {
            out.push(s[i]);
        }
        i = i + 1;
        proof {
            assert(rest.skip(1) =~= s@.skip(i as int));
            assert(out@ + collapse_slashes(rest.skip(1)) =~= before + collapse_slashes(rest));
        }
    }
    assert(s@.skip(i as int) =~= Seq::empty());
    assert(out@ + Seq::<char>::empty() =~= out@);
    out
}

/// Whether a character is a hexadecimal digit.
fn hex_digit(c: char) -> (hex: bool)
    ensures
        hex == is_hex(c),
{
    ('0' <= c && c <= '9') || ('a' <= c && c <= 'f') || ('A' <= c && c <= 'F')
}

/// A hexadecimal digit with its letter in lower case.
fn lower(c: char) -> (lowered: char)
    requires
        is_hex(c),
    ensures
        lowered == lower_hex(c),
{
    match c {
        'A' => 'a',
        'B' => 'b',
        'C' => 'c',
        'D' => 'd',
        'E' => 'e',
        'F' => 'f',
        _ => c,
    }
}

impl Surt<'static> {
    /// Decode the percent-escapes that the Wayback Machine's canonicalization leaves literal, and
    /// collapse runs of slashes, in a (still percent-encoded) path.
    ///
    /// Escapes are matched in either case, and those that stay encoded are written with lower-case
    /// digits, so that the key stays all-lowercase.
    pub fn decode_path(path: &str) -> (decoded: String)
        ensures
            decoded@ == key_path(path@),
    {
        let chars = chars_of(path);
        let unescaped = unescape_path(&chars);
        let collapsed = collapse(&unescaped);
        string_of(&collapsed)
    }

    /// Re-encode a percent-decoded query value the way the Wayback Machine's canonicalization does.
    pub fn decode_query_value(value: &str) -> (decoded: String)
        ensures
            decoded@ == key_value(value@),
    {
        let chars = chars_of(value);
        let mut out: Vec<char> = Vec::new();
        let mut i: usize = 0;
        assert(value@.skip(0) =~= value@);
        assert(out@ + key_value(value@) =~= key_value(value@));
        while i < chars.len()
            invariant
                i <= chars@.len(),
                chars@ == value@,
                out@ + key_value(value@.skip(i as int)) == key_value(value@),
            decreases chars@.len() - i,
        {
            let ghost rest = value@.skip(i as int);
            let ghost before = out@;
            let c = chars[i];
            if c == '%' && chars.len() - i >= 3 && chars[i + 1] == '5' && chars[i + 2] == 'e' {
                out.push('^');
                i = i + 3;
                proof {
                    assert(rest.skip(3) =~= value@.skip(i as int));
                    assert(out@ + key_value(rest.skip(3)) =~= before + key_value(rest));
                }
            } else {
                let ghost mut piece: Seq<char> = seq![c];
                match c {
                    '+' => {
                        proof {
                            piece = seq!['%', '2', '0'];
                        }
                        out.push('%');
                        out.push('2');
                        out.push('0');
                    },
                    ' ' => {
                        proof {
                            piece = seq!['+'];
                        }
                        out.push('+');
                    },
                    '\n' => {
                        proof {
                            piece = seq!['%', '0', 'a'];
                        }
                        out.push('%');
                        out.push('0');
                        out.push('a');
                    },
                    '&' => {
                        proof {
                            piece = seq!['%', '2', '6'];
                        }
                        out.push('%');
                        out.push('2');
                        out.push('6');
                    },
                    '#' => {
                        proof {
                            piece = seq!['%', '2', '3'];
                        }
                        out.push('%');
                        out.push('2');
                        out.push('3');
                    },
                    _ => {
                        out.push(c);
                    },
                }
                i = i + 1;
                proof {
                    assert(rest.skip(1) =~= value@.skip(i as int));
                    assert(key_value(rest) == piece + key_value(rest.skip(1)));
                    assert(out@ =~= before + piece);
                    assert(out@ + key_value(rest.skip(1)) =~= before + key_value(rest));
                }
            }
        }
        assert(value@.skip(i as int) =~= Seq::empty());
        assert(out@ + Seq::<char>::empty() =~= out@);
        string_of(&out)
    }
}

/// The parts of a URL that its key is made from.
#[derive(Debug)]
pub struct ParsedUrl {
    /// The scheme.
    pub scheme: String,
    /// The host, if it is a domain name.
    pub domain: Option<String>,
    /// The port, if it is not the default port of the scheme.
    pub port: Option<u16>,
    /// The percent-encoded path.
    pub path: String,
    /// The decoded keys and values of the query, in order.
    pub query_pairs: Vec<(String, String)>,
}

/// The parts of a URL as texts.
#[verifier::ext_equal]
pub struct UrlFields {
    /// The scheme.
    pub scheme: Seq<char>,
    /// The host, if it is a domain name.
    pub domain: Option<Seq<char>>,
    /// The port, if it is not the default port of the scheme.
    pub port: Option<u16>,
    /// The percent-encoded path.
    pub path: Seq<char>,
    /// The decoded keys and values of the query, in order.
    pub query_pairs: Seq<(Seq<char>, Seq<char>)>,
}

impl View for ParsedUrl {
    type V = UrlFields;

    open spec fn view(&self) -> UrlFields {
        UrlFields {
            scheme: self.scheme@,
            domain: match self.domain {
                Some(domain) => Some(domain@),
                None => None,
            },
            port: self.port,
            path: self.path@,
            query_pairs: pairs::pair_views(self.query_pairs@),
        }
    }
}

/// What the `url` crate makes of a text: the parts of the URL, or why it is none.
pub uninterp spec fn parsed_url(text: Seq<char>) -> Result<UrlFields, url::ParseError>;

/// `Url::parse` of the `url` crate, with the accessors that give the parts of the URL: parts and
/// error are a function of the text alone.
#[verifier::external_body]
pub(crate) fn parse_url(text: &str) -> (parsed: Result<ParsedUrl, url::ParseError>)
    ensures
        match parsed {
            Ok(url) => parsed_url(text@) == Ok::<UrlFields, url::ParseError>(url@),
            Err(error) => parsed_url(text@) == Err::<UrlFields, url::ParseError>(error),
        },
{
    let url = url::Url::parse(text)?;
    Ok(ParsedUrl {
        scheme: url.scheme().to_owned(),
        domain: url.domain().map(|domain| domain.to_owned()),
        port: url.port(),
        path: url.path().to_owned(),
        query_pairs: url.query_pairs().map(|(key, value)| (key.into_owned(), value.into_owned())).collect(),
    })
}

/// A text with its letters in lower case, by the mapping of the Unicode standard.
pub uninterp spec fn lowercase_of(text: Seq<char>) -> Seq<char>;

/// `str::to_lowercase`: the lower-case text is a function of the text alone.
#[verifier::external_body]
fn to_lowercase(text: &str) -> (lowered: String)
    ensures
        lowered@ == lowercase_of(text@),
{
    text.to_lowercase()
}

/// Whether a host label has a place in the key.
pub open spec fn is_kept_label(label: Seq<char>) -> bool {
    label.len() > 0 && label != "www"@
}

/// The host labels that have a place in the key, last label first.
pub open spec fn kept_labels(labels: Seq<Seq<char>>) -> Seq<Seq<char>>
    decreases labels.len(),
{
    if labels.len() == 0 {
        Seq::empty()
    } else if is_kept_label(labels.last()) {
        seq![labels.last()] + kept_labels(labels.drop_last())
    } else {
        kept_labels(labels.drop_last())
    }
}

/// The first part that is too long to record, if there is one.
pub open spec fn long_part(parts: Seq<Seq<char>>) -> Option<Seq<char>>
    decreases parts.len(),
{
    if parts.len() == 0 {
        None
    } else if parts[0].len() > MAX_PART_LEN {
        Some(parts[0])
    } else {
        long_part(parts.skip(1))
    }
}

/// A text without its last character, if that is a slash.
pub open spec fn strip_slash(s: Seq<char>) -> Seq<char> {
    if s.len() > 0 && s.last() == '/' {
        s.drop_last()
    } else {
        s
    }
}

/// One parameter of a key's query.
pub open spec fn key_parameter(pair: (Seq<char>, Seq<char>)) -> Seq<char> {
    pair.0 + seq!['='] + key_value(pair.1)
}

/// The query of a key: nothing, or a question mark and the parameters sorted by key.
pub open spec fn key_query(pairs: Seq<(Seq<char>, Seq<char>)>) -> Seq<char> {
    if pairs.len() == 0 {
        Seq::empty()
    } else {
        seq!['?'] + text::join(
            pairs::sort_pairs(pairs).map_values(|pair: (Seq<char>, Seq<char>)| key_parameter(pair)),
            seq!['&'],
        )
    }
}

/// What becomes of a URL whose key is asked for.
#[verifier::ext_equal]
pub enum KeyOutcome {
    /// The key.
    Key(SurtParts),
    /// A host label is too long.
    LongPart(Seq<char>),
    /// The URL has no supported key.
    Unexpected,
}

/// The key of a URL with the given parts.
pub open spec fn url_key(url: UrlFields) -> KeyOutcome {
    match url.domain {
        Some(domain) => {
            let parts = kept_labels(text::split(domain, '.'));
            if !(url.scheme == "http"@ || url.scheme == "https"@) || url.port is Some {
                KeyOutcome::Unexpected
            } else if let Some(part) = long_part(parts) {
                KeyOutcome::LongPart(part)
            } else if parts.len() == 0 {
                KeyOutcome::Unexpected
            } else {
                KeyOutcome::Key(
                    SurtParts {
                        parts,
                        path: strip_slash(key_path(url.path)) + key_query(url.query_pairs),
                    },
                )
            }
        },
        None => KeyOutcome::Unexpected,
    }
}

/// The parts of a key are the labels of the host, last label first, without empty ones and `www`: each other
/// label has its place among them.
pub proof fn law_key_parts_are_host_labels(url: UrlFields)
    ensures
        url_key(url) matches KeyOutcome::Key(surt) ==> {
            &&& url.domain is Some
            &&& surt.parts.reverse() == text::split(url.domain.unwrap(), '.').filter(
                |label: Seq<char>| label.len() > 0 && label != "www"@,
            )
        },
{
    if let Some(domain) = url.domain {
        lemma_kept_labels(text::split(domain, '.'));
    }
}

/// The labels that are kept are those that are neither empty nor `www`, in reverse.
proof fn lemma_kept_labels(labels: Seq<Seq<char>>)
    ensures
        kept_labels(labels).reverse() == labels.filter(
            |label: Seq<char>| label.len() > 0 && label != "www"@,
        ),
    decreases labels.len(),
{
    reveal(Seq::filter);
    let keeps = |label: Seq<char>| label.len() > 0 && label != "www"@;
    if labels.len() > 0 {
        lemma_kept_labels(labels.drop_last());
        let rest = kept_labels(labels.drop_last());
        if keeps(labels.last()) {
            assert((seq![labels.last()] + rest).reverse() =~= rest.reverse().push(labels.last()));
        }
    } else {
        assert(kept_labels(labels).reverse() =~= labels);
    }
}

/// There is a long part exactly if a part has more than 255 characters, and it is the first of them.
proof fn lemma_long_part(parts: Seq<Seq<char>>)
    ensures
        match long_part(parts) {
            Some(part) => exists|i: int|
                {
                    &&& 0 <= i < parts.len()
                    &&& #[trigger] parts[i] == part
                    &&& part.len() > 255
                    &&& forall|k: int| 0 <= k < i ==> (#[trigger] parts[k]).len() <= 255
                },
            None => forall|i: int| 0 <= i < parts.len() ==> (#[trigger] parts[i]).len() <= 255,
        },
    decreases parts.len(),
{
    if parts.len() > 0 {
        let rest = parts.skip(1);
        lemma_long_part(rest);
        if parts[0].len() <= 255 {
            if let Some(part) = long_part(rest) {
                let i = choose|i: int|
                    {
                        &&& 0 <= i < rest.len()
                        &&& #[trigger] rest[i] == part
                        &&& part.len() > 255
                        &&& forall|k: int| 0 <= k < i ==> (#[trigger] rest[k]).len() <= 255
                    };
                assert(parts[i + 1] == part);
                assert forall|k: int| 0 <= k < i + 1 implies (#[trigger] parts[k]).len() <= 255 by {
                    if k > 0 {
                        assert(parts[k] == rest[k - 1]);
                    }
                }
            } else {
                assert forall|k: int| 0 <= k < parts.len() implies (#[trigger] parts[k]).len()
                    <= 255 by {
                    if k > 0 {
                        assert(parts[k] == rest[k - 1]);
                    }
                }
            }
        } else {
            assert(parts[0] == parts[0]);
        }
    }
}

/// A URL has a key exactly if its scheme is `http` or `https`, it has no port of its own, and its host is a
/// domain name with a label that is neither empty nor `www`, none of these longer than 255 characters. Where
/// only the length stands against it, the label closest to the end of the host that is too long is named.
pub proof fn law_which_urls_have_keys(url: UrlFields)
    ensures
        ({
            let supported = (url.scheme == "http"@ || url.scheme == "https"@) && url.port is None
                && url.domain is Some;
            let labels = text::split(url.domain.unwrap(), '.').filter(
                |label: Seq<char>| label.len() > 0 && label != "www"@,
            );
            match url_key(url) {
                KeyOutcome::Key(_) => {
                    &&& supported
                    &&& labels.len() > 0
                    &&& forall|i: int| 0 <= i < labels.len() ==> (#[trigger] labels[i]).len() <= 255
                },
                KeyOutcome::LongPart(part) => {
                    &&& supported
                    &&& part.len() > 255
                    &&& exists|i: int|
                        {
                            &&& 0 <= i < labels.len()
                            &&& #[trigger] labels[i] == part
                            &&& forall|k: int|
                                i < k < labels.len() ==> (#[trigger] labels[k]).len() <= 255
                        }
                },
                KeyOutcome::Unexpected => !supported || labels.len() == 0,
            }
        }),
{
    if let Some(domain) = url.domain {
        let labels = text::split(domain, '.').filter(
            |label: Seq<char>| label.len() > 0 && label != "www"@,
        );
        let parts = kept_labels(text::split(domain, '.'));
        lemma_kept_labels(text::split(domain, '.'));
        lemma_long_part(parts);
        assert(parts.reverse() == labels);
        assert(labels.len() == parts.len());
        assert forall|i: int| 0 <= i < labels.len() implies #[trigger] labels[i] == parts[parts.len()
            - 1 - i] by {}
        if let Some(part) = long_part(parts) {
            let i = choose|i: int|
                {
                    &&& 0 <= i < parts.len()
                    &&& #[trigger] parts[i] == part
                    &&& part.len() > 255
                    &&& forall|k: int| 0 <= k < i ==> (#[trigger] parts[k]).len() <= 255
                };
            assert(labels[parts.len() - 1 - i] == part);
            assert forall|k: int| parts.len() - 1 - i < k < labels.len() implies (
            #[trigger] labels[k]).len() <= 255 by {
                assert(parts[parts.len() - 1 - k].len() <= 255);
            }
        }
    }
}

/// The number that a hexadecimal digit stands for.
pub open spec fn hex_value(c: char) -> int {
    if '0' <= c <= '9' {
        c as int - '0' as int
    } else if 'a' <= c <= 'f' {
        c as int - 'a' as int + 10
    } else {
        c as int - 'A' as int + 10
    }
}

/// A percent-escape in a path stands for the character whose code its digits give. It is decoded if that is a
/// quote, an apostrophe, an asterisk, an angle bracket, a backslash or a brace, and is otherwise kept: the
/// same escape, its letters in lower case. Every other character but a slash stays as it is.
pub proof fn law_path_escapes(high: char, low: char, c: char)
    requires
        '0' <= high <= '9' || 'a' <= high <= 'f' || 'A' <= high <= 'F',
        '0' <= low <= '9' || 'a' <= low <= 'f' || 'A' <= low <= 'F',
        c != '%',
    ensures
        ({
            let decoded = key_path(seq!['%', high, low]);
            let code = 16 * hex_value(high) + hex_value(low);
            if code == 0x22 || code == 0x27 || code == 0x2a || code == 0x3c || code == 0x3e || code
                == 0x5c || code == 0x7b || code == 0x7d {
                decoded.len() == 1 && decoded[0] as int == code
            } else {
                &&& decoded.len() == 3
                &&& decoded[0] == '%'
                &&& hex_value(decoded[1]) == hex_value(high)
                &&& hex_value(decoded[2]) == hex_value(low)
                &&& !('A' <= decoded[1] <= 'F')
                &&& !('A' <= decoded[2] <= 'F')
            }
        }),
        key_path(seq![c]) == seq![c],
{
    let escape = seq!['%', high, low];
    reveal_with_fuel(collapse_slashes, 4);
    assert(escape.skip(3) =~= Seq::empty());
    assert(unescape(escape.skip(3)) =~= Seq::empty());
    assert(unescape(escape) =~= escape_text(high, low));
    let text = escape_text(high, low);
    if text.len() == 1 {
        assert(text.skip(1) =~= Seq::empty());
        assert(collapse_slashes(text) =~= text);
    } else {
        assert(text.skip(1).skip(1).skip(1) =~= Seq::empty());
        assert(text.skip(1)[0] == text[1] && text.skip(1).skip(1)[0] == text[2]);
        assert(collapse_slashes(text) =~= text);
    }
    let one = seq![c];
    assert(one.skip(1) =~= Seq::empty());
    assert(unescape(one.skip(1)) =~= Seq::empty());
    assert(unescape(one) =~= one);
    assert(collapse_slashes(one) =~= one);
}

/// Paths are decoded piece by piece: where a piece without a percent sign is followed by another, the decoded
/// path is that of the two pieces behind each other, but for slashes that meet.
pub proof fn law_paths_decode_in_pieces(a: Seq<char>, b: Seq<char>)
    requires
        !a.contains('%'),
    ensures
        unescape(a + b) == a + unescape(b),
        a.len() > 0 && b.len() > 0 && a.last() != '/' && b[0] != '/' ==> key_path(a + b) == key_path(a)
            + key_path(b),
    decreases a.len(),
{
    if a.len() == 0 {
        assert(a + b =~= b);
        assert(a + unescape(b) =~= unescape(b));
    } else {
        let rest = a.skip(1);
        assert(!rest.contains('%')) by {
            if rest.contains('%') {
                let i = choose|i: int| 0 <= i < rest.len() && rest[i] == '%';
                assert(a[i + 1] == '%');
            }
        }
        assert(a[0] != '%') by {
            if a[0] == '%' {
                assert(a.contains(a[0]));
            }
        }
        law_paths_decode_in_pieces(rest, b);
        assert((a + b).skip(1) =~= rest + b);
        assert(unescape(a + b) =~= a + unescape(b));
        lemma_plain_unescape(a);
        if b.len() > 0 && a.last() != '/' && b[0] != '/' {
            assert(unescape(b).len() > 0 && unescape(b)[0] != '/') by {
                lemma_unescape_keeps_front(b);
            }
            lemma_collapse_in_pieces(a, unescape(b));
        }
    }
}

/// A text without percent signs is decoded to itself.
proof fn lemma_plain_unescape(s: Seq<char>)
    requires
        !s.contains('%'),
    ensures
        unescape(s) == s,
    decreases s.len(),
{
    if s.len() > 0 {
        let rest = s.skip(1);
        assert(s.contains(s[0]));
        assert(!rest.contains('%')) by {
            if rest.contains('%') {
                let i = choose|i: int| 0 <= i < rest.len() && rest[i] == '%';
                assert(s[i + 1] == '%');
            }
        }
        lemma_plain_unescape(rest);
        assert(s =~= seq![s[0]] + rest);
    }
}

/// Decoding puts a slash at the front only where there is one.
proof fn lemma_unescape_keeps_front(s: Seq<char>)
    requires
        s.len() > 0,
        s[0] != '/',
    ensures
        unescape(s).len() > 0,
        unescape(s)[0] != '/',
{
}

/// Slashes that do not meet are cut down piece by piece.
proof fn lemma_collapse_in_pieces(a: Seq<char>, b: Seq<char>)
    requires
        a.len() > 0,
        b.len() > 0,
        a.last() != '/',
        b[0] != '/',
    ensures
        collapse_slashes(a + b) == collapse_slashes(a) + collapse_slashes(b),
    decreases a.len(),
{
    let rest = a.skip(1);
    assert((a + b).skip(1) =~= rest + b);
    assert((a + b)[0] == a[0]);
    if a.len() == 1 {
        assert(rest =~= Seq::empty());
        assert(rest + b =~= b);
        assert(collapse_slashes(a) =~= seq![a[0]]);
    } else {
        assert((a + b)[1] == a[1]);
        lemma_collapse_in_pieces(rest, b);
        assert(collapse_slashes(a + b) =~= collapse_slashes(a) + collapse_slashes(b));
    }
}

/// The path of a key has no run of slashes, and a run of slashes counts as one.
pub proof fn law_slashes_are_collapsed(a: Seq<char>, b: Seq<char>)
    ensures
        forall|i: int|
            0 <= i && i + 1 < collapse_slashes(a).len() ==> !(#[trigger] collapse_slashes(a)[i] == '/'
                && collapse_slashes(a)[i + 1] == '/'),
        collapse_slashes(a + seq!['/', '/'] + b) == collapse_slashes(a + seq!['/'] + b),
        !a.contains('/') ==> collapse_slashes(a) == a,
    decreases a.len(),
{
    if a.len() == 0 {
        let two = a + seq!['/', '/'] + b;
        assert(two.skip(1) =~= a + seq!['/'] + b);
        assert(two[0] == '/' && two[1] == '/');
        assert(collapse_slashes(a) =~= a);
    } else {
        let rest = a.skip(1);
        law_slashes_are_collapsed(rest, b);
        lemma_collapse_front(rest);
        let two = a + seq!['/', '/'] + b;
        let one = a + seq!['/'] + b;
        assert(two.skip(1) =~= rest + seq!['/', '/'] + b);
        assert(one.skip(1) =~= rest + seq!['/'] + b);
        assert(two[0] == a[0] && one[0] == a[0]);
        assert(two[1] == one[1]) by {
            if a.len() > 1 {
                assert(two[1] == a[1] && one[1] == a[1]);
            }
        }
        if !a.contains('/') {
            assert(a.contains(a[0]));
            assert(!rest.contains('/')) by {
                if rest.contains('/') {
                    let i = choose|i: int| 0 <= i < rest.len() && rest[i] == '/';
                    assert(a[i + 1] == '/');
                }
            }
            assert(a =~= seq![a[0]] + rest);
        }
        if !(a.len() >= 2 && a[0] == '/' && a[1] == '/') {
            let out = seq![a[0]] + collapse_slashes(rest);
            assert forall|i: int| 0 <= i && i + 1 < out.len() implies !(#[trigger] out[i] == '/' && out[i
                + 1] == '/') by {
                if i > 0 {
                    assert(out[i] == collapse_slashes(rest)[i - 1]);
                }
            }
        }
    }
}

/// The path of a key is the decoded path of the URL without a slash at its end, and the query is put behind
/// it: a URL without a query has the same key but for the question mark and what follows it.
pub proof fn law_key_ends_in_path_and_query(url: UrlFields)
    ensures
        url_key(url) matches KeyOutcome::Key(surt) ==> {
            let bare = UrlFields { query_pairs: Seq::empty(), ..url };
            &&& url_key(bare) matches KeyOutcome::Key(plain)
            &&& plain.parts == surt.parts
            &&& !(plain.path.len() > 0 && plain.path.last() == '/')
            &&& plain.path == key_path(url.path) || plain.path.push('/') == key_path(url.path)
            &&& plain.path.is_prefix_of(surt.path)
            &&& url.query_pairs.len() == 0 ==> surt.path == plain.path
            &&& url.query_pairs.len() > 0 ==> surt.path.len() > plain.path.len()
                && surt.path[plain.path.len() as int] == '?'
        },
{
    if let KeyOutcome::Key(surt) = url_key(url) {
        let path = key_path(url.path);
        law_slashes_are_collapsed(unescape(url.path), Seq::empty());
        assert(strip_slash(path) + Seq::<char>::empty() =~= strip_slash(path));
        if path.len() > 0 && path.last() == '/' {
            assert(path.drop_last().push('/') =~= path);
            if path.len() > 1 {
                assert(path[path.len() - 2] != '/');
            }
        }
    }
}

/// The query of a key has one parameter for each pair, sorted by key, those with the same key in the order of
/// the URL: the key, an equals sign and the encoded value.
pub proof fn law_key_query_holds_every_pair(url: UrlFields)
    requires
        url.query_pairs.len() > 0,
    ensures
        url_key(url) matches KeyOutcome::Key(surt) ==> {
            let bare = UrlFields { query_pairs: Seq::empty(), ..url };
            let query = surt.path.skip(url_key(bare)->Key_0.path.len() as int + 1);
            query == text::join(
                pairs::sort_pairs(url.query_pairs).map_values(
                    |pair: (Seq<char>, Seq<char>)| pair.0 + seq!['='] + key_value(pair.1),
                ),
                seq!['&'],
            )
        },
{
    if let KeyOutcome::Key(surt) = url_key(url) {
        let bare = UrlFields { query_pairs: Seq::empty(), ..url };
        let path = strip_slash(key_path(url.path));
        assert(path + key_query(Seq::empty()) =~= path);
        let sorted = pairs::sort_pairs(url.query_pairs);
        let parameters = sorted.map_values(
            |pair: (Seq<char>, Seq<char>)| pair.0 + seq!['='] + key_value(pair.1),
        );
        assert(parameters =~= sorted.map_values(
            |pair: (Seq<char>, Seq<char>)| key_parameter(pair),
        ));
        let joined = text::join(parameters, seq!['&']);
        assert(surt.path.skip(path.len() as int + 1) =~= joined);
    }
}

/// A query value is encoded character by character: a plus as `%20`, a space as a plus, a line feed, an
/// ampersand and a number sign as their escapes, and every other character as itself.
pub proof fn law_query_values_are_encoded(c: char, rest: Seq<char>)
    requires
        !text::has_at(seq![c] + rest, 0, seq!['%', '5', 'e']),
    ensures
        key_value(seq![c] + rest) == (match c {
            '+' => seq!['%', '2', '0'],
            ' ' => seq!['+'],
            '\n' => seq!['%', '0', 'a'],
            '&' => seq!['%', '2', '6'],
            '#' => seq!['%', '2', '3'],
            _ => seq![c],
        }) + key_value(rest),
        key_value(seq!['%', '5', 'e'] + rest) == seq!['^'] + key_value(rest),
        key_value(Seq::empty()) == Seq::<char>::empty(),
{
    let all = seq![c] + rest;
    assert(all.skip(1) =~= rest);
    if all.len() >= 3 && all[0] == '%' && all[1] == '5' && all[2] == 'e' {
        assert(all.subrange(0, 3) =~= seq!['%', '5', 'e']);
    }
    let caret = seq!['%', '5', 'e'] + rest;
    assert(caret.skip(3) =~= rest);
}

/// Appends the query of a key.
fn push_query(out: &mut Vec<char>, pairs: &Vec<(String, String)>)
    ensures
        final(out)@ == old(out)@ + key_query(pairs::pair_views(pairs@)),
{
    if pairs.len() == 0 {
        assert(out@ =~= old(out)@ + key_query(pairs::pair_views(pairs@)));
        return;
    }
    let sorted = sort_by_key(pairs);
    let ghost parameters = pairs::char_pair_views(sorted@).map_values(
        |pair: (Seq<char>, Seq<char>)| key_parameter(pair),
    );
    let ghost separator = seq!['&'];
    let ghost start = out@.push('?');
    out.push('?');
    let mut i: usize = 0;
    assert(start + text::join(parameters.take(0), separator) =~= start);
    while i < sorted.len()
        invariant
            i <= sorted@.len(),
            separator == seq!['&'],
            parameters == pairs::char_pair_views(sorted@).map_values(
                |pair: (Seq<char>, Seq<char>)| key_parameter(pair),
            ),
            out@ == start + text::join(parameters.take(i as int), separator),
        decreases sorted@.len() - i,
    {
        let ghost before = out@;
        if i > 0 {
            out.push('&');
        }
        push_all(out, &sorted[i].0);
        out.push('=');
        let value = string_of(&sorted[i].1);
        let encoded = Surt::decode_query_value(value.as_str());
        push_str(out, encoded.as_str());
        proof {
            let front = parameters.take(i + 1);
            assert(front.drop_last() =~= parameters.take(i as int));
            assert(front.last() == parameters[i as int]);
            assert(pairs::char_pair_views(sorted@)[i as int] == (sorted@[i as int].0@, value@));
            assert(parameters[i as int] == sorted@[i as int].0@ + seq!['='] + key_value(value@));
            if i == 0 {
                assert(out@ =~= start + text::join(front, separator));
            } else {
                assert(out@ =~= before + separator + parameters[i as int]);
                assert(out@ =~= start + text::join(front, separator));
            }
        }
        i = i + 1;
    }
    proof {
        pairs::lemma_sort_len(pairs::pair_views(pairs@));
        assert(parameters.take(i as int) =~= parameters);
        assert(out@ =~= old(out)@ + key_query(pairs::pair_views(pairs@)));
    }
}

/// With short parts in front, the first part that is too long is the first of the others.
proof fn lemma_long_part_after(front: Seq<Seq<char>>, rest: Seq<Seq<char>>)
    requires
        forall|i: int| 0 <= i < front.len() ==> (#[trigger] front[i]).len() <= MAX_PART_LEN,
    ensures
        long_part(front + rest) == long_part(rest),
    decreases front.len(),
{
    if front.len() == 0 {
        assert(front + rest =~= rest);
    } else {
        assert forall|i: int| 0 <= i < front.skip(1).len() implies (#[trigger] front.skip(
            1,
        )[i]).len() <= MAX_PART_LEN by {
            assert(front.skip(1)[i] == front[i + 1]);
        }
        lemma_long_part_after(front.skip(1), rest);
        assert((front + rest).skip(1) =~= front.skip(1) + rest);
        assert((front + rest)[0] == front[0]);
    }
}

impl Surt<'static> {
    /// Computes the key of a URL whose parts are known.
    pub fn from_parsed(input: &str, url: &ParsedUrl) -> (result: Result<Self, Error>)
        ensures
            match url_key(url@) {
                KeyOutcome::Key(surt) => result matches Ok(built) && built@ == surt,
                KeyOutcome::LongPart(part) => {
                    &&& result matches Err(Error::InvalidDomainPart(text))
                    &&& text@ == part
                },
                KeyOutcome::Unexpected => {
                    &&& result matches Err(Error::UnexpectedUrl(text))
                    &&& text@ == input@
                },
            },
    {
        let domain: &String = match &url.domain {
            Some(domain) => domain,
            None => return Err(Error::UnexpectedUrl(input.to_owned())),
        };
        let http: bool = text::same_str(url.scheme.as_str(), "http");
        let https: bool = text::same_str(url.scheme.as_str(), "https");
        if !(http || https) || url.port.is_some() {
            return Err(Error::UnexpectedUrl(input.to_owned()));
        }
        let domain_chars = chars_of(domain.as_str());
        let labels = split_chars(&domain_chars, '.');
        let www = chars_of("www");
        let ghost all = text::char_views(labels@);
        let ghost parts = kept_labels(all);
        let ghost mut kept: Seq<Seq<char>> = Seq::empty();
        let mut source: Vec<char> = Vec::new();
        let mut lens: Vec<u8> = Vec::new();
        let mut i: usize = labels.len();
        assert(all.take(i as int) =~= all);
        assert(kept + kept_labels(all) =~= parts);
        while i > 0
            invariant
                i <= labels@.len(),
                www@ == "www"@,
                all == text::char_views(labels@),
                parts == kept_labels(all),
                kept + kept_labels(all.take(i as int)) == parts,
                lens_match(kept, lens@),
                forall|k: int|
                    0 <= k < kept.len() ==> 0 < (#[trigger] kept[k]).len() <= MAX_PART_LEN,
                source@ == text::join(kept, seq![',']),
                url@.domain == Some(domain@),
                all == text::split(domain@, '.'),
                url@.scheme == "http"@ || url@.scheme == "https"@,
                url@.port is None,
            decreases i,
        {
            i = i - 1;
            let label = &labels[i];
            let ghost front = all.take(i + 1);
            proof {
                assert(front.last() == all[i as int]);
                assert(front.drop_last() =~= all.take(i as int));
            }
            if label.len() > 0 && !text::same_chars(label, &www) {
                let ghost before = kept;
                proof {
                    assert(is_kept_label(label@));
                    lemma_long_part_after(before, kept_labels(front));
                    kept = before.push(label@);
                    assert(kept + kept_labels(all.take(i as int)) =~= before + kept_labels(front));
                }
                if label.len() > MAX_PART_LEN {
                    assert(kept_labels(front)[0] == label@);
                    return Err(Error::InvalidDomainPart(string_of(label)));
                }
                if lens.len() > 0 {
                    source.push(',');
                }
                push_all(&mut source, label);
                lens.push(label.len() as u8);
                proof {
                    assert(kept.drop_last() =~= before);
                    assert(source@ =~= text::join(kept, seq![',']));
                    assert(lens_match(kept, lens@)) by {
                        assert forall|k: int| 0 <= k < kept.len() implies (#[trigger] kept[k]).len()
                            == lens@[k] by {
                            if k < before.len() {
                                assert(kept[k] == before[k]);
                            }
                        }
                    }
                }
            }
        }
        proof {
            assert(all.take(0) =~= Seq::empty());
            assert(kept =~= parts);
            lemma_long_part_after(parts, Seq::empty());
            assert(parts + Seq::<Seq<char>>::empty() =~= parts);
        }
        if lens.len() == 0 {
            return Err(Error::UnexpectedUrl(input.to_owned()));
        }
        let ghost host = source@;
        source.push(')');
        let path = Surt::decode_path(url.path.as_str());
        let path_chars = chars_of(path.as_str());
        let path_len: usize = if path_chars.len() > 0 && path_chars[path_chars.len() - 1] == '/' {
            path_chars.len() - 1
        } else {
            path_chars.len()
        };
        let stripped = vstd::slice::slice_subrange(&path_chars, 0, path_len);
        assert(stripped@ =~= strip_slash(key_path(url.path@)));
        push_all(&mut source, stripped);
        push_query(&mut source, &url.query_pairs);
        let ghost surt = SurtParts {
            parts,
            path: strip_slash(key_path(url.path@)) + key_query(pairs::pair_views(url.query_pairs@)),
        };
        assert(url_key(url@) == KeyOutcome::Key(surt));
        assert(source@ =~= surt_text(surt));
        let text = string_of(&source);
        Ok(Surt::from_validated(Cow::Owned(text), lens, Ghost(surt)))
    }

    /// Computes the SURT for a URL, applying the Wayback Machine's canonicalization.
    ///
    /// The transform lowercases the whole URL, reverses the host's labels and joins them with
    /// commas, drops a `www` label and any empty label left by a trailing dot, and terminates the
    /// host with `)`. The path then has runs of slashes collapsed, a small set of percent-escapes
    /// that the Wayback Machine leaves literal decoded, and any trailing slash removed. Query
    /// parameters are sorted by key and re-encoded, and a parameter with an empty value keeps its
    /// `=`.
    ///
    /// Only `http` and `https` URLs with a domain name host are accepted. Non-default ports are
    /// rejected; an explicit default port is normalized away by the URL parser.
    pub fn from_url(input: &str) -> (result: Result<Self, Error>)
        ensures
            match parsed_url(lowercase_of(input@)) {
                Ok(url) => match url_key(url) {
                    KeyOutcome::Key(surt) => result matches Ok(built) && built@ == surt,
                    KeyOutcome::LongPart(part) => {
                        &&& result matches Err(Error::InvalidDomainPart(text))
                        &&& text@ == part
                    },
                    KeyOutcome::Unexpected => {
                        &&& result matches Err(Error::UnexpectedUrl(text))
                        &&& text@ == input@
                    },
                },
                Err(error) => result == Err::<Self, Error>(Error::InvalidUrl(error)),
            },
    {
        let lowered = to_lowercase(input);
        match parse_url(lowered.as_str()) {
            Ok(url) => Surt::from_parsed(input, &url),
            Err(error) => Err(Error::InvalidUrl(error)),
        }
    }
}

/// The label of a domain name part, without the port that it may carry.
pub open spec fn part_label(part: Seq<char>) -> Seq<char> {
    part.take(text::first_index(part, ':'))
}

/// The port that a domain name part carries, with its colon, or nothing.
pub open spec fn part_port(part: Seq<char>) -> Seq<char> {
    part.skip(text::first_index(part, ':'))
}

/// The host labels that domain name parts stand for, in the order of a host name.
pub open spec fn host_labels(parts: Seq<Seq<char>>) -> Seq<Seq<char>> {
    parts.drop_last().push(part_label(parts.last())).reverse()
}

/// The `https` URL of a SURT: the labels in host order and dot-separated, the port that the last
/// part carries behind them, and the path as it is.
pub open spec fn canonical_text(surt: SurtParts) -> Seq<char> {
    "https://"@ + text::join(host_labels(surt.parts), seq!['.']) + part_port(surt.parts.last())
        + surt.path
}

/// Renders a [`Surt`] as an `https` URL.
///
/// This is produced by [`Surt::canonical_url`]: the domain name parts are written in reverse SURT
/// order and dot-separated, a port carried by the leftmost label is moved after the host, and the
/// SURT's path is appended unchanged.
#[derive(Debug)]
pub struct SurtCanonicalUrl<'a> {
    /// The SURT to render.
    pub source: &'a Surt<'a>,
}

impl<'a> SurtCanonicalUrl<'a> {
    /// The URL.
    pub fn to_string(&self) -> (url: String)
        ensures
            url@ == canonical_text(self.source@),
    {
        let mut out: Vec<char> = chars_of("https://");
        let mut parts = self.source.domain_name_parts();
        let ghost all = self.source@.parts;
        let ghost labels = host_labels(all);
        let ghost base = out@;
        let mut port: Vec<char> = Vec::new();
        match parts.next_back() {
            Some(leftmost) => {
                let chars = chars_of(leftmost);
                assert(chars@.skip(0) =~= chars@);
                let end: usize = match text::find_from(&chars, 0, ':') {
                    Some(end) => end,
                    None => chars.len(),
                };
                let label = vstd::slice::slice_subrange(&chars, 0, end);
                let carried = vstd::slice::slice_subrange(&chars, end, chars.len());
                push_all(&mut out, label);
                push_all(&mut port, carried);
                proof {
                    assert(label@ =~= part_label(all.last()));
                    assert(port@ =~= part_port(all.last()));
                    assert(labels[0] == label@);
                    assert(labels.take(1) =~= seq![label@]);
                    assert(text::join(labels.take(1), seq!['.']) == label@);
                }
            },
            None => {},
        }
        let ghost mut done: int = 1;
        loop
            invariant
                1 <= done <= all.len(),
                labels == host_labels(all),
                parts@ == all.take(all.len() - done),
                out@ == base + text::join(labels.take(done), seq!['.']),
            ensures
                done == all.len(),
                out@ == base + text::join(labels, seq!['.']),
            decreases parts@.len(),
        {
            let ghost before = parts@;
            match parts.next_back() {
                Some(part) => {
                    let ghost written = out@;
                    out.push('.');
                    push_str(&mut out, part);
                    proof {
                        assert(part@ == all[all.len() - done - 1]);
                        assert(labels[done] == part@);
                        let front = labels.take(done + 1);
                        assert(front.drop_last() =~= labels.take(done));
                        assert(out@ =~= written + seq!['.'] + part@);
                        assert(out@ =~= base + text::join(front, seq!['.']));
                        assert(parts@ =~= all.take(all.len() - done - 1));
                        done = done + 1;
                    }
                },
                None => {
                    proof {
                        assert(all.take(all.len() - done).len() == 0);
                        assert(labels.take(done) =~= labels);
                    }
                    break;
                },
            }
        }
        push_all(&mut out, &port);
        push_str(&mut out, self.source.path());
        string_of(&out)
    }
}

impl<'a> Surt<'a> {
    /// Views the SURT as the `https` URL it was derived from.
    ///
    /// The reconstruction is lossy in the ways the SURT transform itself is lossy: the scheme is
    /// always `https`, a dropped `www` label is not restored, and query parameters remain sorted by
    /// key.
    pub fn canonical_url(&'a self) -> (url: SurtCanonicalUrl<'a>)
        ensures
            url.source@ == self@,
    {
        SurtCanonicalUrl { source: self }
    }
}


impl<'a> PartialEq for Surt<'a> {
    fn eq(&self, other: &Self) -> (same: bool) {
        text::same_str(self.as_str(), other.as_str())
    }
}

impl<'a> vstd::std_specs::cmp::PartialEqSpecImpl for Surt<'a> {
    open spec fn obeys_eq_spec() -> bool {
        true
    }

    open spec fn eq_spec(&self, other: &Self) -> bool {
        surt_text(self@) == surt_text(other@)
    }
}

/// An escape is put in its key form where it stands, and a percent sign without two hexadecimal digits behind
/// it stays as it is.
pub proof fn law_escapes_decode_in_place(high: char, low: char, rest: Seq<char>)
    ensures
        ({
            let is_digit = |c: char|
                '0' <= c <= '9' || 'a' <= c <= 'f' || 'A' <= c <= 'F';
            let escape = seq!['%', high, low];
            &&& is_digit(high) && is_digit(low) ==> unescape(escape + rest) == unescape(escape)
                + unescape(rest)
            &&& !is_digit(high) || !is_digit(low) ==> unescape(escape + rest) == seq!['%'] + unescape(
                seq![high, low] + rest,
            )
            &&& unescape(seq!['%']) == seq!['%']
            &&& unescape(seq!['%', high]) == seq!['%'] + unescape(seq![high])
        }),
{
    let escape = seq!['%', high, low];
    let all = escape + rest;
    assert(all.skip(3) =~= rest);
    assert(all.skip(1) =~= seq![high, low] + rest);
    assert(escape.skip(3) =~= Seq::empty());
    assert(unescape(Seq::empty()) =~= Seq::empty());
    if is_hex(high) && is_hex(low) {
        assert(starts_with_escape(all));
        assert(starts_with_escape(escape));
        assert(unescape(escape) =~= escape_text(high, low));
    } else {
        assert(!starts_with_escape(all));
    }
    assert(seq!['%'].skip(1) =~= Seq::empty());
    assert(unescape(seq!['%']) =~= seq!['%']);
    assert(seq!['%', high].skip(1) =~= seq![high]);
}

/// A text is a SURT exactly if it is made of comma-separated parts, a closing bracket and any path: there is at
/// least one part, and each has from one to 255 characters, which are letters, digits, hyphens, underscores and
/// colons.
pub proof fn law_which_texts_are_surts(input: Seq<char>, parts: Seq<Seq<char>>, path: Seq<char>)
    requires
        parts.len() > 0,
        forall|i: int| 0 <= i < parts.len() ==> 0 < (#[trigger] parts[i]).len() <= 255,
        forall|i: int, j: int|
            0 <= i < parts.len() && 0 <= j < parts[i].len() ==> ({
                let c = #[trigger] parts[i][j];
                'a' <= c <= 'z' || 'A' <= c <= 'Z' || '0' <= c <= '9' || c == '-' || c == '_' || c == ':'
            }),
    ensures
        ({
            let made = text::join(parts, seq![',']) + seq![')'] + path;
            &&& is_surt(made)
            &&& split_surt(made).parts == parts
            &&& split_surt(made).path == path
        }),
        is_surt(input) ==> {
            let found = split_surt(input);
            &&& input == text::join(found.parts, seq![',']) + seq![')'] + found.path
            &&& found.parts.len() > 0
            &&& forall|i: int| 0 <= i < found.parts.len() ==> 0 < (#[trigger] found.parts[i]).len() <= 255
            &&& forall|i: int, j: int|
                0 <= i < found.parts.len() && 0 <= j < found.parts[i].len() ==> ({
                    let c = #[trigger] found.parts[i][j];
                    'a' <= c <= 'z' || 'A' <= c <= 'Z' || '0' <= c <= '9' || c == '-' || c == '_' || c
                        == ':'
                })
        },
{
    assert forall|i: int| 0 <= i < parts.len() implies are_part_chars(#[trigger] parts[i]) by {
        assert forall|j: int| 0 <= j < parts[i].len() implies is_part_char(#[trigger] parts[i][j]) by {
            let c = parts[i][j];
        }
    }
    law_surt_text_parses_back(SurtParts { parts, path });
    if is_surt(input) {
        let end = text::first_index(input, ')');
        text::lemma_first_index(input, ')');
        text::law_split_joins_back(input.take(end), ',');
        assert(input =~= input.take(end) + seq![')'] + input.skip(end + 1));
        let found = split_surt(input);
        assert forall|i: int, j: int|
            0 <= i < found.parts.len() && 0 <= j < found.parts[i].len() implies ({
            let c = #[trigger] found.parts[i][j];
            'a' <= c <= 'z' || 'A' <= c <= 'Z' || '0' <= c <= '9' || c == '-' || c == '_' || c == ':'
        }) by {
            assert(are_part_chars(found.parts[i]));
            assert(is_part_char(found.parts[i][j]));
        }
    }
}

/// The URL of a SURT has its labels in the order of a host name, with dots between them, the port that the
/// first label of the host carries behind the host, and the path as it is.
pub proof fn law_canonical_url_layout(labels: Seq<Seq<char>>, port: Seq<char>, path: Seq<char>)
    requires
        labels.len() > 0,
        !labels[0].contains(':'),
        port.len() > 0 ==> port[0] == ':',
    ensures
        ({
            let parts = labels.reverse().drop_last().push(labels[0] + port);
            canonical_text(SurtParts { parts, path }) == "https://"@ + text::join(labels, seq!['.'])
                + port + path
        }),
{
    let parts = labels.reverse().drop_last().push(labels[0] + port);
    let last = labels[0] + port;
    assert forall|i: int| 0 <= i < labels[0].len() implies last[i] != ':' by {
        if labels[0][i] == ':' {
            assert(labels[0].contains(labels[0][i]));
        }
    }
    text::lemma_first_index_unique(last, ':', labels[0].len() as int);
    assert(part_label(last) =~= labels[0]);
    assert(part_port(last) =~= port);
    assert(parts.last() == last);
    assert(parts.drop_last() =~= labels.reverse().drop_last());
    assert(host_labels(parts) =~= labels);
}

/// The key that is made of a URL has the labels of its host that are neither empty nor `www`, the last first.
pub proof fn law_made_keys_have_host_labels(
    input: &str,
    url: &ParsedUrl,
    result: Result<Surt<'static>, Error>,
)
    requires
        call_ensures(Surt::<'static>::from_parsed, (input, url), result),
    ensures
        result matches Ok(surt) ==> {
            &&& url@.domain is Some
            &&& surt@.parts.reverse() == text::split(url@.domain.unwrap(), '.').filter(
                |label: Seq<char>| label.len() > 0 && label != "www"@,
            )
        },
{
    law_key_parts_are_host_labels(url@);
}

/// A URL is put in lower case and parsed before its key is made, and what stands against a key is reported: that
/// it is no URL, that it is of no supported kind, with the URL as it was given, or the label that is too long.
pub proof fn law_urls_are_lowered(input: &str, result: Result<Surt<'static>, Error>)
    requires
        call_ensures(Surt::<'static>::from_url, (input,), result),
    ensures
        match parsed_url(lowercase_of(input@)) {
            Err(error) => result == Err::<Surt<'static>, Error>(Error::InvalidUrl(error)),
            Ok(url) => {
                &&& result is Ok <==> url_key(url) is Key
                &&& result matches Ok(surt) ==> surt@ == url_key(url)->Key_0
                &&& url_key(url) is Unexpected ==> (result matches Err(Error::UnexpectedUrl(text)) && text@
                    == input@)
                &&& url_key(url) matches KeyOutcome::LongPart(part) ==> (
                result matches Err(Error::InvalidDomainPart(text)) && text@ == part)
            },
        },
{
}

/// A text is read as a SURT exactly if it is one, and gives its own text back.
pub proof fn law_surts_are_read(input: &str, parsed: Result<Surt<'_>, Error>)
    requires
        call_ensures(Surt::<'_>::parse_str, (input,), parsed),
    ensures
        parsed is Ok <==> is_surt(input@),
        parsed matches Ok(surt) ==> text::join(surt@.parts, seq![',']) + seq![')'] + surt@.path == input@,
        parsed matches Err(error) ==> (error matches Error::InvalidSurt(text) && text@ == input@),
{
}

} // verus!
