//! Deciding which files of a flat directory of archived content can be deleted, and which records name
//! the right SURT key.
use vstd::prelude::*;

use crate::cdx::Item;
use crate::digest;
use crate::digest::Sha1Digest;
use crate::digest_table::DigestTable;
use crate::lines;
use crate::listing;
use crate::surt;
use crate::surt::Surt;
use crate::text::same_str;

verus! {

/// A line does not hold a digest.
#[derive(Clone, Copy, Debug, PartialEq, Eq, Structural)]
pub struct InvalidKnownDigest {
    /// The one-based number of the line.
    pub line: usize,
}

/// Whether a line is the digest.
pub open spec fn is_line_of(line: Seq<char>, digest: nat) -> bool {
    digest::is_digest_text(line) && digest::digest_value(line) == digest
}

/// Reads known digests, one Base32-encoded digest per line.
pub fn read_known(all: &Vec<String>) -> (result: Result<DigestTable<()>, InvalidKnownDigest>)
    ensures
        ({
            let texts = lines::string_views(all@);
            match result {
                Ok(known) => {
                    &&& forall|i: int|
                        0 <= i < texts.len() ==> digest::is_digest_text(#[trigger] texts[i])
                    &&& forall|digest: nat| #[trigger]
                        known@.contains_key(digest) <==> exists|i: int|
                            0 <= i < texts.len() && is_line_of(#[trigger] texts[i], digest)
                },
                Err(error) => {
                    &&& 0 < error.line <= texts.len()
                    &&& !digest::is_digest_text(texts[error.line - 1])
                    &&& forall|i: int|
                        0 <= i < error.line - 1 ==> digest::is_digest_text(#[trigger] texts[i])
                },
            }
        }),
{
    let ghost texts = lines::string_views(all@);
    let mut known: DigestTable<()> = DigestTable::new();
    let mut k: usize = 0;
    while k < all.len()
        invariant
            k <= all@.len(),
            texts == lines::string_views(all@),
            forall|i: int| 0 <= i < k ==> digest::is_digest_text(#[trigger] texts[i]),
            forall|digest: nat| #[trigger]
                known@.contains_key(digest) <==> exists|i: int|
                    0 <= i < k && is_line_of(#[trigger] texts[i], digest),
        decreases all@.len() - k,
    {
        assert(texts[k as int] == all@[k as int]@);
        let digest = match Sha1Digest::parse_str(all[k].as_str()) {
            Ok(digest) => digest,
            Err(_) => return Err(InvalidKnownDigest { line: k + 1 }),
        };
        let ghost before = known@;
        let ghost added = digest@;
        known.insert(digest, ());
        proof {
            assert(is_line_of(texts[k as int], added));
            assert forall|digest: nat| #[trigger]
                known@.contains_key(digest) <==> exists|i: int|
                    0 <= i < k + 1 && is_line_of(#[trigger] texts[i], digest) by {
                assert(before.contains_key(digest) <==> exists|i: int|
                    0 <= i < k && is_line_of(#[trigger] texts[i], digest));
                if exists|i: int| 0 <= i < k + 1 && is_line_of(#[trigger] texts[i], digest) {
                    let i = choose|i: int| 0 <= i < k + 1 && is_line_of(#[trigger] texts[i], digest);
                    assert(is_line_of(texts[i], digest));
                }
            }
        }
        k = k + 1;
    }
    Ok(known)
}

/// What was found in a directory so far.
#[derive(Clone, Copy, Debug, PartialEq, Eq, Structural)]
pub struct CleanCounts {
    /// The files.
    pub total: usize,
    /// The files whose name is a digest.
    pub valid: usize,
    /// The files to delete.
    pub deleted: usize,
}

impl CleanCounts {
    /// Nothing was found.
    pub fn new() -> (counts: CleanCounts)
        ensures
            counts == (CleanCounts { total: 0, valid: 0, deleted: 0 }),
    {
        CleanCounts { total: 0, valid: 0, deleted: 0 }
    }

    /// Counts a file, and decides whether it is deleted: its name is a digest that is known. `None` stands
    /// for a name that is not text.
    pub fn visit(&mut self, known: &DigestTable<()>, name: Option<&str>) -> (is_deleted: bool)
        requires
            old(self).total < usize::MAX,
            old(self).valid <= old(self).total,
            old(self).deleted <= old(self).valid,
        ensures
            ({
                let is_valid = name matches Some(name) && digest::is_digest_text(name@);
                &&& is_deleted == (is_valid && known@.contains_key(
                    digest::digest_value(name.unwrap()@),
                ))
                &&& final(self).total == old(self).total + 1
                &&& final(self).valid == old(self).valid + if is_valid {
                    1int
                } else {
                    0
                }
                &&& final(self).deleted == old(self).deleted + if is_deleted {
                    1int
                } else {
                    0
                }
            }),
            final(self).valid <= final(self).total,
            final(self).deleted <= final(self).valid,
    {
        self.total = self.total + 1;
        if let Some(name) = name {
            if let Ok(digest) = Sha1Digest::parse_str(name) {
                self.valid = self.valid + 1;
                if known.contains_key(&digest) {
                    self.deleted = self.deleted + 1;
                    return true;
                }
            }
        }
        false
    }
}

/// The MIME type of JSON captures.
pub const JSON_MIME_TYPE: &'static str = "application/json";

/// What a check of SURT keys found.
#[derive(Clone, Copy, Debug, PartialEq, Eq, Structural)]
pub struct SurtCounts {
    /// The records whose key is that of their URL.
    pub good: usize,
    /// The records whose key is another.
    pub bad: usize,
}

/// What a check of one record finds.
pub enum SurtFinding {
    /// The record is not a JSON capture.
    Ignored,
    /// The key is that of the URL.
    Good,
    /// The key is another.
    Bad,
    /// There is no SURT key for the URL.
    Failed,
}

/// The key of a URL as text, if it has one.
pub open spec fn key_text(url: Seq<char>) -> Option<Seq<char>> {
    match surt::parsed_url(surt::lowercase_of(url)) {
        Ok(parsed) => match surt::url_key(parsed) {
            surt::KeyOutcome::Key(parts) => Some(surt::surt_text(parts)),
            _ => None,
        },
        Err(_) => None,
    }
}

/// Whether an error says why a URL has no key.
pub open spec fn is_key_error(error: surt::Error, url: Seq<char>) -> bool {
    match surt::parsed_url(surt::lowercase_of(url)) {
        Ok(parsed) => match surt::url_key(parsed) {
            surt::KeyOutcome::Key(_) => false,
            surt::KeyOutcome::LongPart(part) => error matches surt::Error::InvalidDomainPart(text)
                && text@ == part,
            surt::KeyOutcome::Unexpected => error matches surt::Error::UnexpectedUrl(text) && text@
                == url,
        },
        Err(problem) => error == surt::Error::InvalidUrl(problem),
    }
}

/// What a check of one record finds.
pub open spec fn surt_finding(item: Item) -> SurtFinding {
    if item.mime_type@ != JSON_MIME_TYPE@ {
        SurtFinding::Ignored
    } else {
        match key_text(item.original@) {
            None => SurtFinding::Failed,
            Some(key) => if key == item.key@ {
                SurtFinding::Good
            } else {
                SurtFinding::Bad
            },
        }
    }
}

/// The number of the first `n` records whose key is that of their URL.
pub open spec fn good_count(items: Seq<Item>, n: nat) -> nat {
    listing::places(n, |i: int| surt_finding(items[i]) is Good).len()
}

/// The number of the first `n` records whose key is another.
pub open spec fn bad_count(items: Seq<Item>, n: nat) -> nat {
    listing::places(n, |i: int| surt_finding(items[i]) is Bad).len()
}

/// Checks that the SURT computed from each JSON capture's URL is the key of its record. A URL without a
/// SURT stops the check.
pub fn check_surts(items: &Vec<Item>, counts: &mut SurtCounts) -> (result: Result<(), surt::Error>)
    requires
        old(counts).good + items@.len() <= usize::MAX,
        old(counts).bad + items@.len() <= usize::MAX,
    ensures
        match result {
            Ok(_) => {
                &&& forall|i: int|
                    0 <= i < items@.len() ==> !(surt_finding(#[trigger] items@[i]) is Failed)
                &&& final(counts).good == old(counts).good + good_count(items@, items@.len())
                &&& final(counts).bad == old(counts).bad + bad_count(items@, items@.len())
            },
            Err(error) => exists|k: int|
                {
                    &&& 0 <= k < items@.len()
                    &&& surt_finding(#[trigger] items@[k]) is Failed
                    &&& is_key_error(error, items@[k].original@)
                    &&& forall|i: int|
                        0 <= i < k ==> !(surt_finding(#[trigger] items@[i]) is Failed)
                    &&& final(counts).good == old(counts).good + good_count(items@, k as nat)
                    &&& final(counts).bad == old(counts).bad + bad_count(items@, k as nat)
                },
        },
{
    let ghost before = *counts;
    let ghost is_good = |i: int| surt_finding(items@[i]) is Good;
    let ghost is_bad = |i: int| surt_finding(items@[i]) is Bad;
    let mut k: usize = 0;
    while k < items.len()
        invariant
            k <= items@.len(),
            before == *old(counts),
            before.good + items@.len() <= usize::MAX,
            before.bad + items@.len() <= usize::MAX,
            is_good == (|i: int| surt_finding(items@[i]) is Good),
            is_bad == (|i: int| surt_finding(items@[i]) is Bad),
            forall|i: int| 0 <= i < k ==> !(surt_finding(#[trigger] items@[i]) is Failed),
            counts.good == before.good + listing::places(k as nat, is_good).len(),
            counts.bad == before.bad + listing::places(k as nat, is_bad).len(),
        decreases items@.len() - k,
    {
        let item = &items[k];
        proof {
            listing::lemma_places(k as nat, is_good);
            listing::lemma_places(k as nat, is_bad);
            assert(is_good(k as int) == (surt_finding(items@[k as int]) is Good));
            assert(is_bad(k as int) == (surt_finding(items@[k as int]) is Bad));
        }
        if same_str(item.mime_type.as_str(), JSON_MIME_TYPE) {
            let converted = match Surt::from_url(item.original.as_str()) {
                Ok(converted) => converted,
                Err(error) => {
                    assert(surt_finding(items@[k as int]) is Failed);
                    return Err(error);
                },
            };
            if same_str(converted.as_str(), item.key.as_str()) {
                counts.good = counts.good + 1;
            } else {
                counts.bad = counts.bad + 1;
            }
        }
        k = k + 1;
    }
    Ok(())
}

/// An index entry is checked exactly if it is JSON by its MIME type. Its key is good if it is the SURT of its
/// own URL in lower case, bad if it is another, and a URL without one ends the check.
pub proof fn law_entries_are_checked_by_key(item: Item)
    ensures
        ({
            let url = surt::parsed_url(surt::lowercase_of(item.original@));
            match surt_finding(item) {
                SurtFinding::Ignored => item.mime_type@ != "application/json"@,
                SurtFinding::Good => {
                    &&& item.mime_type@ == "application/json"@
                    &&& url matches Ok(url)
                    &&& surt::url_key(url) matches surt::KeyOutcome::Key(parts)
                    &&& surt::surt_text(parts) == item.key@
                },
                SurtFinding::Bad => {
                    &&& item.mime_type@ == "application/json"@
                    &&& url matches Ok(url)
                    &&& surt::url_key(url) matches surt::KeyOutcome::Key(parts)
                    &&& surt::surt_text(parts) != item.key@
                },
                SurtFinding::Failed => {
                    &&& item.mime_type@ == "application/json"@
                    &&& url matches Ok(url) ==> !(surt::url_key(url) is Key)
                },
            }
        }),
{
}

/// Good and bad entries are counted one by one.
pub proof fn law_entries_are_counted_once(items: Seq<Item>, n: nat)
    requires
        n < items.len(),
    ensures
        good_count(items, 0) == 0,
        bad_count(items, 0) == 0,
        good_count(items, n + 1) == good_count(items, n) + if surt_finding(items[n as int]) is Good {
            1nat
        } else {
            0
        },
        bad_count(items, n + 1) == bad_count(items, n) + if surt_finding(items[n as int]) is Bad {
            1nat
        } else {
            0
        },
{
}

/// A URL without a key is reported by why it has none: the label that is too long, the URL itself where it is
/// not of a supported kind, or what is wrong with it as a URL.
pub proof fn law_key_errors(error: surt::Error, url: Seq<char>)
    requires
        is_key_error(error, url),
    ensures
        match surt::parsed_url(surt::lowercase_of(url)) {
            Err(problem) => error == surt::Error::InvalidUrl(problem),
            Ok(parsed) => {
                &&& surt::url_key(parsed) matches surt::KeyOutcome::LongPart(part) ==> (
                error matches surt::Error::InvalidDomainPart(text) && text@ == part)
                &&& surt::url_key(parsed) is Unexpected ==> (error matches surt::Error::UnexpectedUrl(
                    text,
                ) && text@ == url)
                &&& !(surt::url_key(parsed) is Key)
            },
        },
{
}

/// A line lists a digest exactly if it is the text of it.
pub proof fn law_known_lines(line: Seq<char>, digest: nat)
    requires
        digest < digest::digest_limit(),
    ensures
        is_line_of(line, digest) <==> line == digest::digest_text(digest),
{
    digest::lemma_digest_text_reads(digest);
    if digest::is_digest_text(line) {
        digest::law_digest_parse_writes_back(line);
    }
}

/// A file is deleted exactly if its name is a digest that is known, and counts as valid exactly if its name is a
/// digest at all.
pub proof fn law_known_files_are_deleted(
    counts: &mut CleanCounts,
    known: &DigestTable<()>,
    name: Option<&str>,
    is_deleted: bool,
)
    requires
        call_ensures(CleanCounts::visit, (counts, known, name), is_deleted),
    ensures
        ({
            let is_valid = name is Some && digest::is_digest_text(name.unwrap()@);
            &&& is_deleted <==> is_valid && known@.contains_key(digest::digest_value(name.unwrap()@))
            &&& final(counts).total == old(counts).total + 1
            &&& is_valid ==> final(counts).valid == old(counts).valid + 1
            &&& !is_valid ==> final(counts).valid == old(counts).valid
            &&& is_deleted ==> final(counts).deleted == old(counts).deleted + 1
            &&& !is_deleted ==> final(counts).deleted == old(counts).deleted
        }),
{
}

} // verus!
