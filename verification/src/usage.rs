//! Finding the files of capture records that newer files make superfluous.
use vstd::prelude::*;

use crate::cdx::Item;
use crate::digest::Digest;
use crate::digest_table::DigestTable;
use crate::table::TextTable;
use crate::text::borrow_str;

verus! {

/// Whether a file of capture records is needed.
#[derive(Clone, Copy, Debug, PartialEq, Eq, Structural)]
pub enum Usage {
    /// The file has no records.
    Empty,
    /// The digests of the file are all covered by newer files.
    Covered,
    /// The file has a digest that no newer file has.
    Needed,
}

impl Usage {
    /// The mark that a file is listed with.
    pub fn code(self) -> (code: &'static str)
        ensures
            code@ == (match self {
                Usage::Empty => "0"@,
                Usage::Covered => "-"@,
                Usage::Needed => "+"@,
            }),
    {
        match self {
            Usage::Empty => "0",
            Usage::Covered => "-",
            Usage::Needed => "+",
        }
    }
}

/// The digests of records.
#[verifier::ext_equal]
pub struct Digests {
    /// The valid digests.
    pub valid: Set<nat>,
    /// The texts that are no valid digests.
    pub invalid: Set<Seq<char>>,
}

/// Whether a record has a valid digest.
pub open spec fn has_valid(item: Item, digest: nat) -> bool {
    item.digest matches Digest::Valid(valid) && valid@ == digest
}

/// Whether a record has an invalid digest.
pub open spec fn has_invalid(item: Item, text: Seq<char>) -> bool {
    item.digest matches Digest::Invalid(invalid) && invalid@ == text
}

/// The digests of the first `n` records.
pub open spec fn digests_of(items: Seq<Item>, n: nat) -> Digests {
    Digests {
        valid: Set::new(|digest: nat| exists|i: int| 0 <= i < n && has_valid(#[trigger] items[i], digest)),
        invalid: Set::new(
            |text: Seq<char>| exists|i: int| 0 <= i < n && has_invalid(#[trigger] items[i], text),
        ),
    }
}

/// Whether the digest of a record was seen.
pub open spec fn is_seen(item: Item, seen: Digests) -> bool {
    match item.digest {
        Digest::Valid(digest) => seen.valid.contains(digest@),
        Digest::Invalid(text) => seen.invalid.contains(text@),
    }
}

impl Digests {
    /// These and other digests.
    pub open spec fn with(self, other: Digests) -> Digests {
        Digests {
            valid: self.valid.union(other.valid),
            invalid: self.invalid.union(other.invalid),
        }
    }
}

/// Whether a file is needed beside the digests that were seen.
pub open spec fn usage_of(items: Seq<Item>, seen: Digests) -> Usage {
    if items.len() == 0 {
        Usage::Empty
    } else if forall|i: int| 0 <= i < items.len() ==> is_seen(#[trigger] items[i], seen) {
        Usage::Covered
    } else {
        Usage::Needed
    }
}

/// The digests that were seen in the files so far.
#[derive(Debug)]
pub struct UsageScan {
    valid: DigestTable<()>,
    invalid: TextTable<()>,
}

impl View for UsageScan {
    type V = Digests;

    closed spec fn view(&self) -> Digests {
        Digests { valid: self.valid@.dom(), invalid: self.invalid@.dom() }
    }
}

impl UsageScan {
    /// No digest was seen.
    pub fn new() -> (scan: UsageScan)
        ensures
            scan@ == (Digests { valid: Set::empty(), invalid: Set::empty() }),
    {
        let scan = UsageScan { valid: DigestTable::new(), invalid: TextTable::new() };
        assert(scan@.valid =~= Set::empty());
        assert(scan@.invalid =~= Set::empty());
        scan
    }

    /// Whether the digest of a record was seen.
    fn has_seen(&self, item: &Item) -> (seen: bool)
        ensures
            seen == is_seen(*item, self@),
    {
        match &item.digest {
            Digest::Valid(digest) => self.valid.contains_key(digest),
            Digest::Invalid(text) => self.invalid.contains_key(borrow_str(text)),
        }
    }

    /// Adds the digest of a record.
    fn add_item(&mut self, item: &Item)
        ensures
            final(self)@ == (match item.digest {
                Digest::Valid(digest) => Digests {
                    valid: old(self)@.valid.insert(digest@),
                    ..old(self)@
                },
                Digest::Invalid(text) => Digests {
                    invalid: old(self)@.invalid.insert(text@),
                    ..old(self)@
                },
            }),
    {
        match &item.digest {
            Digest::Valid(digest) => {
                self.valid.insert(*digest, ());
                assert(self@.valid =~= old(self)@.valid.insert(digest@));
            },
            Digest::Invalid(text) => {
                self.invalid.insert(borrow_str(text), ());
                assert(self@.invalid =~= old(self)@.invalid.insert(text@));
            },
        }
    }

    /// Decides whether a file is needed beside the files before it, and remembers its digests.
    pub fn classify(&mut self, items: &Vec<Item>) -> (usage: Usage)
        ensures
            usage == usage_of(items@, old(self)@),
            final(self)@ == old(self)@.with(digests_of(items@, items@.len())),
    {
        let ghost seen = self@;
        let mut all_seen = true;
        let mut k: usize = 0;
        while k < items.len()
            invariant
                k <= items@.len(),
                self@ == seen,
                seen == old(self)@,
                all_seen == forall|i: int| 0 <= i < k ==> is_seen(#[trigger] items@[i], seen),
            decreases items@.len() - k,
        {
            if !self.has_seen(&items[k]) {
                all_seen = false;
            }
            k = k + 1;
        }
        let mut j: usize = 0;
        assert(seen.with(digests_of(items@, 0)) =~= seen);
        while j < items.len()
            invariant
                j <= items@.len(),
                seen == old(self)@,
                self@ == seen.with(digests_of(items@, j as nat)),
            decreases items@.len() - j,
        {
            self.add_item(&items[j]);
            proof {
                lemma_digests_grow(items@, j as nat);
                assert(self@ =~= seen.with(digests_of(items@, (j + 1) as nat)));
            }
            j = j + 1;
        }
        if items.len() == 0 {
            Usage::Empty
        } else if all_seen {
            Usage::Covered
        } else {
            Usage::Needed
        }
    }
}

/// One more record adds its digest.
proof fn lemma_digests_grow(items: Seq<Item>, n: nat)
    ensures
        forall|digest: nat|
            #![trigger digests_of(items, (n + 1) as nat).valid.contains(digest)]
            digests_of(items, (n + 1) as nat).valid.contains(digest) <==> digests_of(
                items,
                n,
            ).valid.contains(digest) || has_valid(items[n as int], digest),
        forall|text: Seq<char>|
            #![trigger digests_of(items, (n + 1) as nat).invalid.contains(text)]
            digests_of(items, (n + 1) as nat).invalid.contains(text) <==> digests_of(
                items,
                n,
            ).invalid.contains(text) || has_invalid(items[n as int], text),
{
    let m = (n + 1) as nat;
    assert forall|digest: nat|
        #![trigger digests_of(items, m).valid.contains(digest)]
        digests_of(items, m).valid.contains(digest) <==> digests_of(items, n).valid.contains(digest)
            || has_valid(items[n as int], digest) by {
        if digests_of(items, n).valid.contains(digest) {
            let i = choose|i: int| 0 <= i < n && has_valid(#[trigger] items[i], digest);
            assert(0 <= i < m && has_valid(items[i], digest));
        }
    }
    assert forall|text: Seq<char>|
        #![trigger digests_of(items, m).invalid.contains(text)]
        digests_of(items, m).invalid.contains(text) <==> digests_of(items, n).invalid.contains(text)
            || has_invalid(items[n as int], text) by {
        if digests_of(items, n).invalid.contains(text) {
            let i = choose|i: int| 0 <= i < n && has_invalid(#[trigger] items[i], text);
            assert(0 <= i < m && has_invalid(items[i], text));
        }
    }
}

/// A file that is read a second time is not needed.
pub proof fn law_repeated_file_is_covered(items: Seq<Item>, seen: Digests)
    ensures
        usage_of(items, seen.with(digests_of(items, items.len()))) != Usage::Needed,
{
    let all = digests_of(items, items.len());
    assert forall|i: int| 0 <= i < items.len() implies is_seen(#[trigger] items[i], seen.with(all)) by {
        match items[i].digest {
            Digest::Valid(digest) => {
                assert(has_valid(items[i], digest@));
                assert(all.valid.contains(digest@));
            },
            Digest::Invalid(text) => {
                assert(has_invalid(items[i], text@));
                assert(all.invalid.contains(text@));
            },
        }
    }
}

/// A file is needed exactly if it has a digest that no file before it had. One without captures is empty, and
/// every other is covered.
pub proof fn law_needed_files_have_new_digests(items: Seq<Item>, seen: Digests)
    ensures
        ({
            let is_new = |i: int|
                match items[i].digest {
                    Digest::Valid(digest) => !seen.valid.contains(digest@),
                    Digest::Invalid(text) => !seen.invalid.contains(text@),
                };
            match usage_of(items, seen) {
                Usage::Empty => items.len() == 0,
                Usage::Needed => exists|i: int| 0 <= i < items.len() && #[trigger] is_new(i),
                Usage::Covered => items.len() > 0 && forall|i: int|
                    0 <= i < items.len() ==> !#[trigger] is_new(i),
            }
        }),
{
    let is_new = |i: int|
        match items[i].digest {
            Digest::Valid(digest) => !seen.valid.contains(digest@),
            Digest::Invalid(text) => !seen.invalid.contains(text@),
        };
    if usage_of(items, seen) is Needed {
        let i = choose|i: int| 0 <= i < items.len() && !is_seen(#[trigger] items[i], seen);
        assert(is_new(i));
    } else if usage_of(items, seen) is Covered {
        assert forall|i: int| 0 <= i < items.len() implies !#[trigger] is_new(i) by {
            assert(is_seen(items[i], seen));
        }
    }
}

/// After a file, its digests are seen, and those that were seen before it still are: each digest of a capture
/// counts, whether or not it is valid, and no other.
pub proof fn law_seen_digests_grow(items: Seq<Item>, seen: Digests, digest: nat, text: Seq<char>)
    ensures
        ({
            let after = seen.with(digests_of(items, items.len()));
            &&& after.valid.contains(digest) <==> seen.valid.contains(digest) || exists|i: int|
                0 <= i < items.len() && ((#[trigger] items[i]).digest matches Digest::Valid(valid)
                    && valid@ == digest)
            &&& after.invalid.contains(text) <==> seen.invalid.contains(text) || exists|i: int|
                0 <= i < items.len() && ((#[trigger] items[i]).digest matches Digest::Invalid(invalid)
                    && invalid@ == text)
        }),
{
    if exists|i: int| 0 <= i < items.len() && has_valid(#[trigger] items[i], digest) {
        let i = choose|i: int| 0 <= i < items.len() && has_valid(#[trigger] items[i], digest);
        assert(items[i].digest matches Digest::Valid(valid) && valid@ == digest);
    }
    if exists|i: int| 0 <= i < items.len() && has_invalid(#[trigger] items[i], text) {
        let i = choose|i: int| 0 <= i < items.len() && has_invalid(#[trigger] items[i], text);
        assert(items[i].digest matches Digest::Invalid(invalid) && invalid@ == text);
    }
    assert forall|i: int| 0 <= i < items.len() && ((#[trigger] items[i]).digest matches Digest::Valid(
        valid,
    ) && valid@ == digest) implies has_valid(items[i], digest) by {}
    assert forall|i: int| 0 <= i < items.len() && ((#[trigger] items[i]).digest matches Digest::Invalid(
        invalid,
    ) && invalid@ == text) implies has_invalid(items[i], text) by {}
}

/// A file without captures is marked with a zero, one that is covered with a minus and one that is needed with a
/// plus.
pub proof fn law_usage_codes(usage: Usage, code: &'static str)
    requires
        call_ensures(Usage::code, (usage,), code),
    ensures
        usage is Empty ==> code@ == "0"@,
        usage is Covered ==> code@ == "-"@,
        usage is Needed ==> code@ == "+"@,
{
}

} // verus!
