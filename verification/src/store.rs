//! The rules of a content-addressed store of files, keyed by SHA-1 digest.
//!
//! A store lays its files out in directories named after successive prefixes of the digest. New
//! content is written beside its final path and then published, so that an interrupted write cannot
//! leave a partial file at a content-addressed path.
use prefix_file_tree::scheme::encoding::Base32;
use prefix_file_tree::scheme::Case;
use prefix_file_tree::Tree;
use vstd::prelude::*;

use crate::digest;
use crate::digest::Sha1Digest;
use crate::digest_table::DigestTable;
use crate::listing;
use crate::metadata;
use crate::numeral;
use crate::text;
use crate::text::{append, chars_of, starts_at};
use crate::verification;
use crate::verification::{verify, Entry, Summary};

verus! {

/// The outcome of saving content.
#[derive(Clone, Copy, Debug, PartialEq, Eq, Structural)]
pub enum SaveSummary {
    /// The download was written to the store.
    Success,
    /// The store already contains this digest; nothing was written.
    AlreadyPresent,
    /// Verification failed: the bytes do not hash to the requested digest, so nothing was written.
    DigestMismatch {
        /// The digest the supplied bytes actually hash to.
        actual_digest: Sha1Digest,
    },
}

/// The outcome of copying one store to another.
#[derive(Clone, Copy, Debug, PartialEq, Eq, Structural)]
pub struct CopySummary {
    /// Number of downloads written to the target store.
    pub copied: usize,
    /// Number of downloads the target store already contained.
    pub skipped: usize,
    /// Number of downloads that failed digest verification and were not copied.
    pub mismatched: usize,
}

impl Default for CopySummary {
    fn default() -> (summary: CopySummary)
        ensures
            summary == (CopySummary { copied: 0, skipped: 0, mismatched: 0 }),
    {
        CopySummary { copied: 0, skipped: 0, mismatched: 0 }
    }
}

impl CopySummary {
    /// The number of downloads that were looked at.
    pub open spec fn total(&self) -> int {
        self.copied + self.skipped + self.mismatched
    }

    /// Counts the outcome of saving one download in the target store.
    pub fn record(&mut self, summary: SaveSummary)
        requires
            old(self).total() < usize::MAX,
        ensures
            *final(self) == (match summary {
                SaveSummary::Success => CopySummary {
                    copied: (old(self).copied + 1) as usize,
                    ..*old(self)
                },
                SaveSummary::AlreadyPresent => CopySummary {
                    skipped: (old(self).skipped + 1) as usize,
                    ..*old(self)
                },
                SaveSummary::DigestMismatch { .. } => CopySummary {
                    mismatched: (old(self).mismatched + 1) as usize,
                    ..*old(self)
                },
            }),
            final(self).total() == old(self).total() + 1,
    {
        match summary {
            SaveSummary::Success => {
                self.copied = self.copied + 1;
            },
            SaveSummary::AlreadyPresent => {
                self.skipped = self.skipped + 1;
            },
            SaveSummary::DigestMismatch { .. } => {
                self.mismatched = self.mismatched + 1;
            },
        }
    }
}

/// What is to be done to save content.
#[derive(Clone, Copy, Debug, PartialEq, Eq, Structural)]
pub enum SaveStep {
    /// Nothing is written.
    Done(SaveSummary),
    /// The content is written and published.
    Write,
}

/// Decides what is to be done to save content under a digest, where `exists` says whether the store
/// has a file for the digest.
///
/// With `verify` set, new bytes that do not hash to `digest` are rejected. An existing entry is skipped
/// without checking it.
pub fn decide_save(exists: bool, digest: Sha1Digest, bytes: &[u8], verify: bool) -> (step: SaveStep)
    ensures
        match step {
            SaveStep::Done(SaveSummary::AlreadyPresent) => exists,
            SaveStep::Done(SaveSummary::DigestMismatch { actual_digest }) => {
                &&& !exists
                &&& verify
                &&& actual_digest@ == digest::digest_of(bytes@)
                &&& actual_digest@ != digest@
            },
            SaveStep::Done(SaveSummary::Success) => false,
            SaveStep::Write => !exists && (verify ==> digest::digest_of(bytes@) == digest@),
        },
{
    if exists {
        return SaveStep::Done(SaveSummary::AlreadyPresent);
    }
    if verify {
        let actual_digest = Sha1Digest::compute(bytes);
        proof {
            digest::lemma_digest_unique(actual_digest, digest);
        }
        if actual_digest != digest {
            return SaveStep::Done(SaveSummary::DigestMismatch { actual_digest });
        }
    }
    SaveStep::Write
}

/// A failure to publish a file that was written.
#[derive(Clone, Copy, Debug, PartialEq, Eq, Structural)]
pub struct PublicationFailure {
    /// Whether the file stands at its final path nonetheless.
    pub is_published: bool,
    /// Whether the failure is that the final path was taken.
    pub already_exists: bool,
}

/// The outcome of a save whose content was written. A competing save that published first wins.
pub fn conclude_save(published: Result<(), PublicationFailure>) -> (result: Result<
    SaveSummary,
    PublicationFailure,
>)
    ensures
        match published {
            Ok(_) => result == Ok::<SaveSummary, PublicationFailure>(SaveSummary::Success),
            Err(failure) => if !failure.is_published && failure.already_exists {
                result == Ok::<SaveSummary, PublicationFailure>(SaveSummary::AlreadyPresent)
            } else {
                result == Err::<SaveSummary, PublicationFailure>(failure)
            },
        },
{
    match published {
        Ok(_) => Ok(SaveSummary::Success),
        Err(failure) => if !failure.is_published && failure.already_exists {
            Ok(SaveSummary::AlreadyPresent)
        } else {
            Err(failure)
        },
    }
}

/// The number of characters of an encoded digest.
pub const NAME_LEN: usize = 32;

/// The extension of compressed files.
pub const COMPRESSED_EXTENSION: &'static str = "zst";

/// The extension that the files of a store carry.
pub open spec fn extension_of(is_compressed: bool) -> Option<Seq<char>> {
    if is_compressed {
        Some(COMPRESSED_EXTENSION@)
    } else {
        None
    }
}

/// The sum of the first `n` lengths.
pub open spec fn sum(lengths: Seq<usize>, n: nat) -> nat
    decreases n,
{
    if n == 0 {
        0
    } else {
        sum(lengths, (n - 1) as nat) + lengths[n - 1] as nat
    }
}

proof fn lemma_sum_monotonic(lengths: Seq<usize>, m: nat, n: nat)
    requires
        m <= n,
    ensures
        sum(lengths, m) <= sum(lengths, n),
    decreases n,
{
    if m < n {
        lemma_sum_monotonic(lengths, m, (n - 1) as nat);
    }
}

/// The directories that the first `n` prefix parts of a name give. An empty part gives none.
pub open spec fn directories(lengths: Seq<usize>, n: nat, name: Seq<char>) -> Seq<char>
    decreases n,
{
    if n == 0 {
        Seq::empty()
    } else if lengths[n - 1] == 0 {
        directories(lengths, (n - 1) as nat, name)
    } else {
        directories(lengths, (n - 1) as nat, name) + name.subrange(
            sum(lengths, (n - 1) as nat) as int,
            sum(lengths, n) as int,
        ) + seq!['/']
    }
}

/// What follows the digest in a file name.
pub open spec fn suffix(extension: Option<Seq<char>>) -> Seq<char> {
    match extension {
        Some(extension) => seq!['.'] + extension,
        None => Seq::empty(),
    }
}

/// The name of the file for a digest.
pub open spec fn file_name(extension: Option<Seq<char>>, digest: nat) -> Seq<char> {
    digest::digest_text(digest) + suffix(extension)
}

/// The path of the file for a digest, below the store's base directory.
pub open spec fn layout_path(
    lengths: Seq<usize>,
    extension: Option<Seq<char>>,
    digest: nat,
) -> Seq<char> {
    directories(lengths, lengths.len(), digest::digest_text(digest)) + file_name(extension, digest)
}

/// `Tree::path` of the `prefix_file_tree` crate, for a tree that has names of twenty bytes in
/// upper-case Base32, directories after prefixes of the given lengths, and an extension or none: the
/// parts of the path below the base directory, with a slash between them.
#[verifier::external_body]
fn tree_path(lengths: &Vec<usize>, extension: Option<&str>, name: &Vec<u8>) -> (path: String)
    requires
        sum(lengths@, lengths@.len()) <= NAME_LEN,
        extension matches Some(extension) ==> extension@ == COMPRESSED_EXTENSION@,
        name@.len() == 20,
    ensures
        path@ == layout_path(
            lengths@,
            text::str_view(extension),
            numeral::value(digest::byte_digits(name@), 256),
        ),
{
    let builder = Tree::builder("").with_prefix_part_lengths(lengths);
    let builder = builder.with_scheme(Base32::<20>::new(Case::Upper));
    let builder = match extension {
        Some(extension) => builder.with_extension(extension),
        None => builder.with_no_extension(),
    };
    let name: [u8; 20] = name.as_slice().try_into().unwrap();
    let path = builder.build().unwrap().path(name).unwrap();
    path.iter().map(|part| part.to_string_lossy()).collect::<Vec<_>>().join("/")
}

/// Where the files of a store stand below its base directory.
#[derive(Debug, PartialEq, Eq)]
pub struct Layout {
    prefix_part_lengths: Vec<usize>,
    is_compressed: bool,
}

/// The prefix lengths sum to more than the characters of an encoded digest.
#[derive(Clone, Copy, Debug, PartialEq, Eq, Structural)]
pub struct PrefixTooLong;

/// A file in a store is not named after a digest.
#[derive(Clone, Copy, Debug, PartialEq, Eq, Structural)]
pub struct InvalidName;

/// Whether a file name has the extension of the temporary files that a crash can leave behind.
pub open spec fn is_temporary(name: Seq<char>) -> bool {
    name.len() > 4 && name.skip(name.len() - 4) == ".tmp"@
}

impl Layout {
    /// The lengths of the successive prefixes.
    pub closed spec fn lengths(&self) -> Seq<usize> {
        self.prefix_part_lengths@
    }

    /// Whether stored files are compressed.
    pub closed spec fn compressed(&self) -> bool {
        self.is_compressed
    }

    /// The extension that stored files carry.
    pub open spec fn extension(&self) -> Option<Seq<char>> {
        extension_of(self.compressed())
    }

    #[verifier::type_invariant]
    spec fn is_valid(self) -> bool {
        sum(self.prefix_part_lengths@, self.prefix_part_lengths@.len()) <= NAME_LEN
    }

    /// A layout whose files are nested in directories named after successive prefixes of the digest, of
    /// the given lengths.
    ///
    /// For example, `[2, 2]` stores the digest `AO7G…` at `AO/7G/AO7G…`. An empty list stores every file
    /// directly under the base directory. The files of a compressed store carry the extension `zst`, and
    /// those of another store none.
    pub fn new(prefix_part_lengths: Vec<usize>, is_compressed: bool) -> (layout: Result<
        Layout,
        PrefixTooLong,
    >)
        ensures
            match layout {
                Ok(layout) => {
                    &&& sum(prefix_part_lengths@, prefix_part_lengths@.len()) <= NAME_LEN
                    &&& layout.lengths() == prefix_part_lengths@
                    &&& layout.compressed() == is_compressed
                },
                Err(_) => sum(prefix_part_lengths@, prefix_part_lengths@.len()) > NAME_LEN,
            },
    {
        let mut total: usize = 0;
        let mut i: usize = 0;
        while i < prefix_part_lengths.len()
            invariant
                i <= prefix_part_lengths@.len(),
                total == sum(prefix_part_lengths@, i as nat),
                total <= NAME_LEN,
            decreases prefix_part_lengths@.len() - i,
        {
            if prefix_part_lengths[i] > NAME_LEN - total {
                proof {
                    lemma_sum_monotonic(
                        prefix_part_lengths@,
                        (i + 1) as nat,
                        prefix_part_lengths@.len(),
                    );
                }
                return Err(PrefixTooLong);
            }
            total = total + prefix_part_lengths[i];
            i = i + 1;
        }
        Ok(Layout { prefix_part_lengths, is_compressed })
    }

    /// The extension that stored files carry.
    fn file_extension(&self) -> (extension: Option<&'static str>)
        ensures
            text::str_view(extension) == self.extension(),
            extension matches Some(extension) ==> extension@ == COMPRESSED_EXTENSION@,
    {
        if self.is_compressed {
            Some(COMPRESSED_EXTENSION)
        } else {
            None
        }
    }

    /// Returns the path a given digest maps to, below the base directory.
    pub fn path(&self, digest: &Sha1Digest) -> (path: String)
        ensures
            path@ == layout_path(self.lengths(), self.extension(), digest@),
    {
        proof {
            use_type_invariant(self);
        }
        tree_path(&self.prefix_part_lengths, self.file_extension(), &digest.to_bytes())
    }

    /// Reads the name of a file in the store: the digest that it is stored under, or `None` for a stale
    /// temporary file, which a walk of the store passes over.
    pub fn read_name(&self, name: &str) -> (read: Result<Option<Sha1Digest>, InvalidName>)
        ensures
            match read {
                Ok(Some(digest)) => !is_temporary(name@) && name@ == file_name(
                    self.extension(),
                    digest@,
                ),
                Ok(None) => is_temporary(name@),
                Err(_) => {
                    &&& !is_temporary(name@)
                    &&& forall|n: nat|
                        n < digest::digest_limit() ==> name@ != #[trigger] file_name(
                            self.extension(),
                            n,
                        )
                },
            },
    {
        let chars = chars_of(name);
        if chars.len() > 4 && starts_at(&chars, chars.len() - 4, ".tmp") {
            proof {
                reveal_strlit(".tmp");
                assert(name@.skip(name@.len() - 4) =~= name@.subrange(
                    name@.len() - 4,
                    name@.len() as int,
                ));
            }
            return Ok(None);
        }
        proof {
            reveal_strlit(".tmp");
            if chars@.len() > 4 {
                assert(name@.skip(name@.len() - 4) =~= name@.subrange(
                    name@.len() - 4,
                    name@.len() as int,
                ));
            }
        }
        let mut tail: String = String::new();
        if let Some(extension) = self.file_extension() {
            tail.push('.');
            append(&mut tail, extension);
        }
        let tail_chars = chars_of(tail.as_str());
        assert(tail_chars@ =~= suffix(self.extension()));
        proof {
            assert forall|n: nat|
                n < digest::digest_limit() && name@ == #[trigger] file_name(self.extension(), n) implies name@.len() == NAME_LEN + tail_chars@.len() && name@.take(
                NAME_LEN as int,
            ) == digest::digest_text(n) && name@.skip(NAME_LEN as int) == tail_chars@ by {
                digest::lemma_digest_text_reads(n);
                assert(name@.take(NAME_LEN as int) =~= digest::digest_text(n));
                assert(name@.skip(NAME_LEN as int) =~= tail_chars@);
            }
        }
        if chars.len() < NAME_LEN || chars.len() - NAME_LEN != tail_chars.len() {
            return Err(InvalidName);
        }
        let rest = vstd::slice::slice_to_vec(
            vstd::slice::slice_subrange(chars.as_slice(), NAME_LEN, chars.len()),
        );
        assert(rest@ =~= name@.skip(NAME_LEN as int));
        if !crate::text::same_chars(&rest, &tail_chars) {
            return Err(InvalidName);
        }
        let stem = vstd::slice::slice_to_vec(
            vstd::slice::slice_subrange(chars.as_slice(), 0, NAME_LEN),
        );
        assert(stem@ =~= name@.take(NAME_LEN as int));
        match Sha1Digest::from_chars(&stem) {
            Ok(digest) => {
                proof {
                    digest::law_digest_parse_writes_back(stem@);
                    assert(name@ =~= stem@ + tail_chars@);
                }
                Ok(Some(digest))
            },
            Err(_) => {
                proof {
                    assert forall|n: nat|
                        n < digest::digest_limit() implies name@ != #[trigger] file_name(
                        self.extension(),
                        n,
                    ) by {
                        digest::lemma_digest_text_reads(n);
                    }
                }
                Err(InvalidName)
            },
        }
    }
}

/// The file that a digest is stored in is no temporary file, and its name reads back as that digest
/// alone.
pub proof fn law_names_read_back(digest: nat, other: nat, is_compressed: bool)
    requires
        digest < digest::digest_limit(),
        other < digest::digest_limit(),
    ensures
        !is_temporary(file_name(extension_of(is_compressed), digest)),
        file_name(extension_of(is_compressed), digest) == file_name(
            extension_of(is_compressed),
            other,
        ) ==> digest == other,
{
    let extension = extension_of(is_compressed);
    digest::lemma_digest_text_reads(digest);
    digest::lemma_digest_text_reads(other);
    let a = digest::digest_text(digest);
    let b = digest::digest_text(other);
    assert(file_name(extension, digest).take(32) =~= a);
    assert(file_name(extension, other).take(32) =~= b);
    reveal_strlit(".tmp");
    reveal_strlit("zst");
    let name = file_name(extension, digest);
    assert(name.skip(name.len() - 4)[1] == name[name.len() - 3]);
    assert(".tmp"@[1] == 't');
    assert(name.skip(name.len() - 4)[0] == name[name.len() - 4]);
    if !is_compressed {
        assert(name =~= a);
        assert(digest::base32_value(a[28]) is Some);
    }
}

/// How the files of an uncompressed store are read: verbatim, through a buffer.
#[derive(Clone, Copy, Debug, PartialEq, Eq, Structural)]
pub struct Buffered {
    /// The capacity of the read buffer, in bytes.
    pub capacity: usize,
}

impl Buffered {
    /// Reads through a buffer of the given capacity.
    pub fn new(capacity: usize) -> (configuration: Buffered)
        ensures
            configuration.capacity == capacity,
    {
        Buffered { capacity }
    }
}

impl Default for Buffered {
    fn default() -> (configuration: Buffered)
        ensures
            configuration.capacity == 8192,
    {
        Buffered { capacity: 8192 }
    }
}

/// How the files of a compressed store are read and written.
#[derive(Clone, Copy, Debug, PartialEq, Eq, Structural)]
pub struct Compressed {
    /// The Zstandard compression level.
    pub level: i32,
    /// The capacity of the read buffer, in bytes.
    pub capacity: usize,
}

impl Compressed {
    /// Compresses at the given level and reads through a buffer of the given capacity.
    pub fn new(level: i32, capacity: usize) -> (configuration: Compressed)
        ensures
            configuration.level == level,
            configuration.capacity == capacity,
    {
        Compressed { level, capacity }
    }
}

impl Default for Compressed {
    fn default() -> (configuration: Compressed)
        ensures
            configuration.level == 3,
            configuration.capacity == 8192,
    {
        Compressed { level: 3, capacity: 8192 }
    }
}

/// Whether entries are the contents of a store, in the order of their digests.
pub open spec fn lists(entries: Seq<Entry>, contents: Map<nat, Seq<u8>>) -> bool {
    &&& forall|i: int, j: int|
        0 <= i < j < entries.len() ==> (#[trigger] entries[i]).digest@ < (
        #[trigger] entries[j]).digest@
    &&& forall|i: int|
        0 <= i < entries.len() ==> #[trigger] contents.contains_key(entries[i].digest@)
            && contents[entries[i].digest@] == entries[i].content@
    &&& forall|digest: nat| #[trigger]
        contents.contains_key(digest) ==> exists|i: int|
            0 <= i < entries.len() && (#[trigger] entries[i]).digest@ == digest
}

/// What saving content under a digest does.
pub open spec fn save_outcome(
    contents: Map<nat, Seq<u8>>,
    digest: nat,
    bytes: Seq<u8>,
    verify: bool,
) -> Saved {
    if contents.contains_key(digest) {
        Saved::AlreadyPresent
    } else if verify && digest::digest_of(bytes) != digest {
        Saved::Mismatch(digest::digest_of(bytes))
    } else {
        Saved::Success
    }
}

/// What saving content did.
pub enum Saved {
    /// The content was written.
    Success,
    /// There was content already.
    AlreadyPresent,
    /// The content has another digest.
    Mismatch(nat),
}

/// The contents of a store after saving content under a digest.
pub open spec fn saved_contents(
    contents: Map<nat, Seq<u8>>,
    digest: nat,
    bytes: Seq<u8>,
    verify: bool,
) -> Map<nat, Seq<u8>> {
    if save_outcome(contents, digest, bytes, verify) is Success {
        contents.insert(digest, bytes)
    } else {
        contents
    }
}

impl SaveSummary {
    /// Whether this reports what saving content did.
    pub open spec fn reports(&self, saved: Saved) -> bool {
        match saved {
            Saved::Success => *self is Success,
            Saved::AlreadyPresent => *self is AlreadyPresent,
            Saved::Mismatch(digest) => *self matches SaveSummary::DigestMismatch { actual_digest }
                && actual_digest@ == digest,
        }
    }
}

/// Whether each entry stands where a store says that its digest does.
pub open spec fn stand_at<S: Store>(entries: Seq<Entry>, store: S) -> bool {
    forall|i: int|
        0 <= i < entries.len() ==> (#[trigger] entries[i]).path@ == store.location(
            entries[i].digest@,
        )
}

/// The digests, as numbers.
pub open spec fn digest_views(digests: Seq<Sha1Digest>) -> Seq<nat> {
    Seq::new(digests.len(), |i: int| digests[i]@)
}

/// Whether digests are those that content is held under, in ascending order.
pub open spec fn lists_digests(digests: Seq<nat>, contents: Map<nat, Seq<u8>>) -> bool {
    &&& forall|i: int, j: int| 0 <= i < j < digests.len() ==> digests[i] < digests[j]
    &&& forall|i: int| 0 <= i < digests.len() ==> contents.contains_key(#[trigger] digests[i])
    &&& forall|digest: nat| #[trigger]
        contents.contains_key(digest) ==> exists|i: int|
            0 <= i < digests.len() && #[trigger] digests[i] == digest
}

/// A store for downloaded archive data, indexed by digest.
pub trait Store {
    /// The failure mode of the operations.
    type Error;

    /// What the store holds.
    spec fn contents(&self) -> Map<nat, Seq<u8>>;

    /// Where the store keeps the download with a digest.
    spec fn location(&self, digest: nat) -> Seq<char>;

    /// Whether an operation on the store, as it stands, can fail with an error.
    spec fn fails_with(&self, error: Self::Error) -> bool;

    /// The downloads, ordered by digest (bytes, not the string representation).
    fn entries(&self) -> (entries: Result<Vec<Entry>, Self::Error>)
        ensures
            match entries {
                Ok(entries) => {
                    &&& lists(entries@, self.contents())
                    &&& forall|i: int|
                        0 <= i < entries@.len() ==> (#[trigger] entries@[i]).path@ == self.location(
                            entries@[i].digest@,
                        )
                },
                Err(error) => self.fails_with(error),
            },
    ;

    /// The digests of the downloads, in ascending order (of bytes, not of the string representation).
    fn digests(&self) -> (digests: Result<Vec<Sha1Digest>, Self::Error>)
        ensures
            match digests {
                Ok(digests) => lists_digests(digest_views(digests@), self.contents()),
                Err(error) => self.fails_with(error),
            },
    ;

    /// Adds a download to the store, optionally verifying the digest.
    ///
    /// With `verify` set, new bytes that do not hash to `digest` are rejected. An existing entry is
    /// skipped without checking it.
    fn save(&mut self, digest: Sha1Digest, bytes: &[u8], verify: bool) -> (summary: Result<
        SaveSummary,
        Self::Error,
    >)
        ensures
            forall|digest: nat| #[trigger]
                final(self).location(digest) == old(self).location(digest),
            match summary {
                Ok(summary) => {
                    &&& summary.reports(
                        save_outcome(old(self).contents(), digest@, bytes@, verify),
                    )
                    &&& final(self).contents() == saved_contents(
                        old(self).contents(),
                        digest@,
                        bytes@,
                        verify,
                    )
                },
                Err(error) => {
                    &&& old(self).fails_with(error)
                    &&& final(self).contents() == old(self).contents() || final(self).contents()
                        == saved_contents(old(self).contents(), digest@, bytes@, verify)
                },
            },
    ;

    /// Looks up a download in the store.
    fn get(&self, digest: &Sha1Digest) -> (bytes: Result<Option<Vec<u8>>, Self::Error>)
        ensures
            match bytes {
                Ok(Some(bytes)) => self.contents().contains_key(digest@) && self.contents()[digest@]
                    == bytes@,
                Ok(None) => !self.contents().contains_key(digest@),
                Err(error) => self.fails_with(error),
            },
    ;
}

/// Content that was saved is what a lookup gives.
pub proof fn law_saved_content_is_found(
    contents: Map<nat, Seq<u8>>,
    digest: nat,
    bytes: Seq<u8>,
    verify: bool,
)
    requires
        save_outcome(contents, digest, bytes, verify) is Success,
    ensures
        saved_contents(contents, digest, bytes, verify).contains_key(digest),
        saved_contents(contents, digest, bytes, verify)[digest] == bytes,
{
}

/// What a store holds under a digest stays, whatever is saved.
pub proof fn law_content_is_never_replaced(
    contents: Map<nat, Seq<u8>>,
    held: nat,
    digest: nat,
    bytes: Seq<u8>,
    verify: bool,
)
    requires
        contents.contains_key(held),
    ensures
        saved_contents(contents, digest, bytes, verify).contains_key(held),
        saved_contents(contents, digest, bytes, verify)[held] == contents[held],
{
}

/// A store that is only ever saved to with verification holds sound content only.
pub proof fn law_verified_saves_are_sound(
    contents: Map<nat, Seq<u8>>,
    digest: nat,
    bytes: Seq<u8>,
)
    requires
        forall|held: nat| #[trigger]
            contents.contains_key(held) ==> digest::digest_of(contents[held]) == held,
    ensures
        forall|held: nat| #[trigger]
            saved_contents(contents, digest, bytes, true).contains_key(held) ==> digest::digest_of(
                saved_contents(contents, digest, bytes, true)[held],
            ) == held,
{
}

/// Verifies that the digest associated with each download matches the content, and reports each that does
/// not with where the store keeps it. Only a failure of the store itself is an error.
pub fn verify_store<S: Store>(store: &S) -> (result: Result<Summary, S::Error>)
    ensures
        match result {
            Ok(summary) => exists|entries: Seq<Entry>|
                {
                    &&& #[trigger] lists(entries, store.contents())
                    &&& stand_at(entries, *store)
                    &&& verification::is_summary(summary, entries)
                },
            Err(error) => store.fails_with(error),
        },
{
    match store.entries() {
        Ok(entries) => {
            let summary = verify(&entries);
            proof {
                assert(lists(entries@, store.contents()));
                assert(verification::is_summary(summary, entries@));
            }
            Ok(summary)
        },
        Err(error) => Err(error),
    }
}

/// A failure to copy a store.
#[derive(Debug)]
pub enum CopyError<S, T> {
    /// The source cannot be read.
    Source(S),
    /// The target cannot be written.
    Target(T),
}

/// The contents of a target after what a source holds under the first `n` digests was saved in it.
pub open spec fn copied_contents(
    target: Map<nat, Seq<u8>>,
    source: Map<nat, Seq<u8>>,
    digests: Seq<nat>,
    n: nat,
    verify: bool,
) -> Map<nat, Seq<u8>>
    decreases n,
{
    if n == 0 {
        target
    } else {
        saved_contents(
            copied_contents(target, source, digests, (n - 1) as nat, verify),
            digests[n - 1],
            source[digests[n - 1]],
            verify,
        )
    }
}

/// What saving the content of digest `i` in a target does.
pub open spec fn copy_outcome(
    target: Map<nat, Seq<u8>>,
    source: Map<nat, Seq<u8>>,
    digests: Seq<nat>,
    i: int,
    verify: bool,
) -> Saved {
    save_outcome(
        copied_contents(target, source, digests, i as nat, verify),
        digests[i],
        source[digests[i]],
        verify,
    )
}

/// Whether a summary counts what was done for the first `n` digests.
pub open spec fn is_copy_summary(
    summary: CopySummary,
    target: Map<nat, Seq<u8>>,
    source: Map<nat, Seq<u8>>,
    digests: Seq<nat>,
    n: nat,
    verify: bool,
) -> bool {
    &&& summary.copied == listing::places(
        n,
        |i: int| copy_outcome(target, source, digests, i, verify) is Success,
    ).len()
    &&& summary.skipped == listing::places(
        n,
        |i: int| copy_outcome(target, source, digests, i, verify) is AlreadyPresent,
    ).len()
    &&& summary.total() == n
}

/// Whether a target holds, after a copy that got no further, what it held before and what was saved for
/// the first `k` digests of the source.
pub open spec fn holds_first(
    before: Map<nat, Seq<u8>>,
    after: Map<nat, Seq<u8>>,
    source: Map<nat, Seq<u8>>,
    digests: Seq<nat>,
    k: nat,
    verify: bool,
) -> bool {
    &&& k <= digests.len()
    &&& after == copied_contents(before, source, digests, k, verify)
}

/// Whether a target was left with what precedes some digest of the source, in ascending order, or as it
/// was.
pub open spec fn is_copied_in_part(
    source: Map<nat, Seq<u8>>,
    before: Map<nat, Seq<u8>>,
    after: Map<nat, Seq<u8>>,
    verify: bool,
) -> bool {
    ||| after == before
    ||| exists|digests: Seq<nat>, k: nat|
        {
            &&& lists_digests(digests, source)
            &&& #[trigger] holds_first(before, after, source, digests, k, verify)
        }
}

/// Whether a copy stopped at digest `k`: the target, as the digests before it had left it, failed with
/// an error, and the content was saved or was not.
pub open spec fn stops_at<T: Store>(
    reached: T,
    error: T::Error,
    before: Map<nat, Seq<u8>>,
    after: Map<nat, Seq<u8>>,
    source: Map<nat, Seq<u8>>,
    digests: Seq<nat>,
    k: nat,
    verify: bool,
) -> bool {
    &&& k < digests.len()
    &&& reached.contents() == copied_contents(before, source, digests, k, verify)
    &&& reached.fails_with(error)
    &&& after == copied_contents(before, source, digests, k, verify) || after == copied_contents(
        before,
        source,
        digests,
        k + 1,
        verify,
    )
}

/// Whether a copy of a source was interrupted by an error of the target.
pub open spec fn is_interrupted<T: Store>(
    error: T::Error,
    source: Map<nat, Seq<u8>>,
    before: Map<nat, Seq<u8>>,
    after: Map<nat, Seq<u8>>,
    verify: bool,
) -> bool {
    exists|digests: Seq<nat>, k: nat, reached: T|
        {
            &&& lists_digests(digests, source)
            &&& #[trigger] stops_at(reached, error, before, after, source, digests, k, verify)
        }
}

/// Copies all downloads from one store to another, one at a time. Only a failure of one of the stores is
/// an error, and what was copied before it stays.
pub fn copy_store<S: Store, T: Store>(source: &S, target: &mut T, verify: bool) -> (result: Result<
    CopySummary,
    CopyError<S::Error, T::Error>,
>)
    ensures
        match result {
            Ok(summary) => exists|digests: Seq<nat>|
                {
                    &&& #[trigger] lists_digests(digests, source.contents())
                    &&& final(target).contents() == copied_contents(
                        old(target).contents(),
                        source.contents(),
                        digests,
                        digests.len(),
                        verify,
                    )
                    &&& is_copy_summary(
                        summary,
                        old(target).contents(),
                        source.contents(),
                        digests,
                        digests.len(),
                        verify,
                    )
                },
            Err(CopyError::Source(error)) => source.fails_with(error) && is_copied_in_part(
                source.contents(),
                old(target).contents(),
                final(target).contents(),
                verify,
            ),
            Err(CopyError::Target(error)) => is_interrupted::<T>(
                error,
                source.contents(),
                old(target).contents(),
                final(target).contents(),
                verify,
            ),
        },
{
    let digests = match source.digests() {
        Ok(digests) => digests,
        Err(error) => return Err(CopyError::Source(error)),
    };
    let ghost before = target.contents();
    let ghost held = source.contents();
    let ghost keys = digest_views(digests@);
    let ghost succeeds = |i: int| copy_outcome(before, held, keys, i, verify) is Success;
    let ghost skips = |i: int| copy_outcome(before, held, keys, i, verify) is AlreadyPresent;
    let mut summary: CopySummary = Default::default();
    let mut k: usize = 0;
    while k < digests.len()
        invariant
            k <= digests@.len(),
            before == old(target).contents(),
            held == source.contents(),
            keys == digest_views(digests@),
            succeeds == (|i: int| copy_outcome(before, held, keys, i, verify) is Success),
            skips == (|i: int| copy_outcome(before, held, keys, i, verify) is AlreadyPresent),
            lists_digests(keys, held),
            target.contents() == copied_contents(before, held, keys, k as nat, verify),
            summary.total() == k,
            summary.copied == listing::places(k as nat, succeeds).len(),
            summary.skipped == listing::places(k as nat, skips).len(),
        decreases digests@.len() - k,
    {
        let digest = digests[k];
        let ghost outcome = copy_outcome(before, held, keys, k as int, verify);
        assert(succeeds(k as int) == (outcome is Success));
        assert(skips(k as int) == (outcome is AlreadyPresent));
        assert(held.contains_key(keys[k as int]));
        match source.get(&digest) {
            Ok(Some(content)) => {
                let ghost reached = *target;
                match target.save(digest, content.as_slice(), verify) {
                    Ok(saved) => {
                        summary.record(saved);
                    },
                    Err(error) => {
                        assert(stops_at(
                            reached,
                            error,
                            before,
                            target.contents(),
                            held,
                            keys,
                            k as nat,
                            verify,
                        ));
                        return Err(CopyError::Target(error));
                    },
                }
            },
            Ok(None) => {
                assert(false);
            },
            Err(error) => {
                assert(holds_first(before, target.contents(), held, keys, k as nat, verify));
                return Err(CopyError::Source(error));
            },
        }
        k = k + 1;
    }
    Ok(summary)
}

/// A copy keeps what the target held.
pub proof fn law_copy_keeps_target(
    target: Map<nat, Seq<u8>>,
    source: Map<nat, Seq<u8>>,
    digests: Seq<nat>,
    n: nat,
    verify: bool,
    held: nat,
)
    requires
        target.contains_key(held),
    ensures
        copied_contents(target, source, digests, n, verify).contains_key(held),
        copied_contents(target, source, digests, n, verify)[held] == target[held],
    decreases n,
{
    if n > 0 {
        law_copy_keeps_target(target, source, digests, (n - 1) as nat, verify, held);
    }
}

/// A copy that a failure of the source ends keeps what the target held.
pub proof fn law_part_copy_keeps_target(
    source: Map<nat, Seq<u8>>,
    before: Map<nat, Seq<u8>>,
    after: Map<nat, Seq<u8>>,
    verify: bool,
    held: nat,
)
    requires
        is_copied_in_part(source, before, after, verify),
        before.contains_key(held),
    ensures
        after.contains_key(held),
        after[held] == before[held],
{
    if after != before {
        let (digests, k) = choose|digests: Seq<nat>, k: nat|
            {
                &&& lists_digests(digests, source)
                &&& #[trigger] holds_first(before, after, source, digests, k, verify)
            };
        law_copy_keeps_target(before, source, digests, k, verify, held);
    }
}

/// After a copy of sound content the target holds every digest of the source.
pub proof fn law_sound_copy_is_complete(
    source: Map<nat, Seq<u8>>,
    target: Map<nat, Seq<u8>>,
    digests: Seq<nat>,
    verify: bool,
)
    requires
        lists_digests(digests, source),
        forall|digest: nat| #[trigger]
            source.contains_key(digest) ==> digest::digest_of(source[digest]) == digest,
    ensures
        forall|digest: nat| #[trigger]
            source.contains_key(digest) ==> copied_contents(
                target,
                source,
                digests,
                digests.len(),
                verify,
            ).contains_key(digest),
{
    assert forall|digest: nat| #[trigger] source.contains_key(digest) implies copied_contents(
        target,
        source,
        digests,
        digests.len(),
        verify,
    ).contains_key(digest) by {
        let i = choose|i: int| 0 <= i < digests.len() && #[trigger] digests[i] == digest;
        lemma_copied(target, source, digests, i, digests.len(), verify);
    }
}

/// Content that is sound stands in the target from the turn of its digest on.
proof fn lemma_copied(
    target: Map<nat, Seq<u8>>,
    source: Map<nat, Seq<u8>>,
    digests: Seq<nat>,
    i: int,
    n: nat,
    verify: bool,
)
    requires
        0 <= i < n <= digests.len(),
        digest::digest_of(source[digests[i]]) == digests[i],
    ensures
        copied_contents(target, source, digests, n, verify).contains_key(digests[i]),
    decreases n,
{
    if i < n - 1 {
        lemma_copied(target, source, digests, i, (n - 1) as nat, verify);
    }
}

/// A store in memory, laid out as a store of files is.
#[derive(Debug)]
pub struct MemoryStore {
    layout: Layout,
    items: DigestTable<Vec<u8>>,
}

impl MemoryStore {
    /// What the store holds.
    pub closed spec fn held(&self) -> Map<nat, Seq<u8>> {
        metadata::value_views(self.items@)
    }

    /// Where the files of the store would stand.
    pub closed spec fn held_layout(&self) -> Layout {
        self.layout
    }

    /// A store without content.
    pub fn new(layout: Layout) -> (store: MemoryStore)
        ensures
            store.held() == Map::<nat, Seq<u8>>::empty(),
            store.held_layout() == layout,
    {
        let store = MemoryStore { layout, items: DigestTable::new() };
        assert(store.held() =~= Map::empty());
        store
    }
}

/// A store in memory does not fail.
impl Store for MemoryStore {
    type Error = ();

    open spec fn contents(&self) -> Map<nat, Seq<u8>> {
        self.held()
    }

    open spec fn location(&self, digest: nat) -> Seq<char> {
        layout_path(self.held_layout().lengths(), self.held_layout().extension(), digest)
    }

    open spec fn fails_with(&self, error: ()) -> bool {
        false
    }

    fn entries(&self) -> (entries: Result<Vec<Entry>, ()>)
        ensures
            entries is Ok,
    {
        let all = self.items.entries();
        let ghost sorted = all@;
        let mut entries: Vec<Entry> = Vec::new();
        let mut k: usize = 0;
        while k < all.len()
            invariant
                k <= all@.len(),
                all@ == sorted,
                entries@.len() == k,
                forall|i: int|
                    0 <= i < k ==> (#[trigger] entries@[i]).digest == sorted[i].0
                        && entries@[i].content@ == sorted[i].1@ && entries@[i].path@ == layout_path(
                        self.layout.lengths(),
                        self.layout.extension(),
                        entries@[i].digest@,
                    ),
            decreases all@.len() - k,
        {
            let digest = all[k].0;
            let content = vstd::slice::slice_to_vec(all[k].1.as_slice());
            entries.push(Entry { digest, path: self.layout.path(&digest), content });
            k = k + 1;
        }
        proof {
            let contents = self.held();
            assert forall|i: int| 0 <= i < entries@.len() implies #[trigger] contents.contains_key(
                entries@[i].digest@,
            ) && contents[entries@[i].digest@] == entries@[i].content@ by {
                assert(self.items@.contains_key(sorted[i].0@));
            }
            assert forall|digest: nat| #[trigger] contents.contains_key(digest) implies exists|i: int|
                0 <= i < entries@.len() && (#[trigger] entries@[i]).digest@ == digest by {
                assert(self.items@.contains_key(digest));
                let i = choose|i: int| crate::digest_table::stands_at(sorted, digest, i);
                assert(entries@[i].digest@ == digest);
            }
            assert forall|i: int, j: int| 0 <= i < j < entries@.len() implies (
            #[trigger] entries@[i]).digest@ < (#[trigger] entries@[j]).digest@ by {
                assert(sorted[i].0@ < sorted[j].0@);
            }
            assert(lists(entries@, contents));
        }
        Ok(entries)
    }

    fn digests(&self) -> (digests: Result<Vec<Sha1Digest>, ()>)
        ensures
            digests is Ok,
    {
        let all = self.items.entries();
        let ghost sorted = all@;
        let mut digests: Vec<Sha1Digest> = Vec::new();
        let mut k: usize = 0;
        while k < all.len()
            invariant
                k <= all@.len(),
                all@ == sorted,
                digests@.len() == k,
                forall|i: int| 0 <= i < k ==> (#[trigger] digests@[i]) == sorted[i].0,
            decreases all@.len() - k,
        {
            digests.push(all[k].0);
            k = k + 1;
        }
        proof {
            let contents = self.held();
            let keys = digest_views(digests@);
            assert forall|i: int| 0 <= i < keys.len() implies contents.contains_key(
                #[trigger] keys[i],
            ) by {
                assert(self.items@.contains_key(sorted[i].0@));
            }
            assert forall|digest: nat| #[trigger] contents.contains_key(digest) implies exists|i: int|
                0 <= i < keys.len() && #[trigger] keys[i] == digest by {
                assert(self.items@.contains_key(digest));
                let i = choose|i: int| crate::digest_table::stands_at(sorted, digest, i);
                assert(keys[i] == digest);
            }
            assert forall|i: int, j: int| 0 <= i < j < keys.len() implies keys[i] < keys[j] by {
                assert(sorted[i].0@ < sorted[j].0@);
            }
        }
        Ok(digests)
    }

    fn save(&mut self, digest: Sha1Digest, bytes: &[u8], verify: bool) -> (summary: Result<
        SaveSummary,
        (),
    >)
        ensures
            summary is Ok,
            final(self).held_layout() == old(self).held_layout(),
    {
        let ghost before = self.items@;
        match decide_save(self.items.contains_key(&digest), digest, bytes, verify) {
            SaveStep::Done(summary) => Ok(summary),
            SaveStep::Write => {
                self.items.insert(digest, vstd::slice::slice_to_vec(bytes));
                proof {
                    assert(self.held() =~= metadata::value_views(before).insert(digest@, bytes@));
                }
                Ok(SaveSummary::Success)
            },
        }
    }

    fn get(&self, digest: &Sha1Digest) -> (bytes: Result<Option<Vec<u8>>, ()>)
        ensures
            bytes is Ok,
    {
        match self.items.get(digest) {
            Some(bytes) => Ok(Some(vstd::slice::slice_to_vec(bytes.as_slice()))),
            None => Ok(None),
        }
    }
}

/// What a save does is decided by what is there: content under the digest stays as it is, content that is to be
/// verified and has another digest is refused with that digest, and everything else is stored.
pub proof fn law_saves_are_decided(
    contents: Map<nat, Seq<u8>>,
    digest: nat,
    bytes: Seq<u8>,
    verify: bool,
)
    ensures
        ({
            let saved = save_outcome(contents, digest, bytes, verify);
            let after = saved_contents(contents, digest, bytes, verify);
            &&& saved is AlreadyPresent <==> contents.contains_key(digest)
            &&& saved is Mismatch <==> !contents.contains_key(digest) && verify && digest::digest_of(
                bytes,
            ) != digest
            &&& saved matches Saved::Mismatch(actual) ==> actual == digest::digest_of(bytes)
            &&& !(saved is Success) ==> after == contents
            &&& saved is Success ==> after == contents.insert(digest, bytes)
        }),
{
}

/// A file is named by its digest, with `.zst` behind it exactly if it is compressed, and lies in a directory
/// for each part of the prefix: the parts are taken off the front of the digest one after the other.
pub proof fn law_layout_paths(lengths: Seq<usize>, length: usize, is_compressed: bool, digest: nat)
    requires
        digest < digest::digest_limit(),
        sum(lengths, lengths.len()) + length <= 32,
    ensures
        ({
            let name = digest::digest_text(digest);
            let extension = extension_of(is_compressed);
            let file = name + if is_compressed {
                ".zst"@
            } else {
                ""@
            };
            let start = sum(lengths, lengths.len()) as int;
            let before = layout_path(lengths, extension, digest);
            let after = layout_path(lengths.push(length), extension, digest);
            &&& layout_path(Seq::empty(), extension, digest) == file
            &&& before == before.take(before.len() - file.len()) + file
            &&& length == 0 ==> after == before
            &&& length > 0 ==> after == before.take(before.len() - file.len()) + name.subrange(
                start,
                start + length,
            ) + seq!['/'] + file
            &&& sum(lengths.push(length), lengths.len() + 1) == start + length
        }),
{
    reveal_strlit(".zst");
    reveal_strlit("zst");
    reveal_strlit("");
    let name = digest::digest_text(digest);
    let extension = extension_of(is_compressed);
    let file = name + if is_compressed {
        ".zst"@
    } else {
        ""@
    };
    assert(".zst"@ =~= seq!['.'] + "zst"@);
    assert(""@ =~= Seq::empty());
    assert(file_name(extension, digest) =~= file);
    assert(layout_path(Seq::empty(), extension, digest) =~= file);
    let more = lengths.push(length);
    lemma_same_prefix(lengths, more, lengths.len(), name);
    let before = layout_path(lengths, extension, digest);
    let dirs = directories(lengths, lengths.len(), name);
    assert(before.take(before.len() - file.len()) =~= dirs);
    assert(before =~= dirs + file);
    assert(layout_path(more, extension, digest) == directories(more, more.len(), name) + file);
}

/// Directories go by the lengths that they are made of alone.
proof fn lemma_same_prefix(a: Seq<usize>, b: Seq<usize>, n: nat, name: Seq<char>)
    requires
        n <= a.len() <= b.len(),
        forall|i: int| 0 <= i < a.len() ==> #[trigger] b[i] == a[i],
    ensures
        sum(a, n) == sum(b, n),
        directories(a, n, name) == directories(b, n, name),
    decreases n,
{
    if n > 0 {
        lemma_same_prefix(a, b, (n - 1) as nat, name);
        assert(b[n - 1] == a[n - 1]);
    }
}

/// A temporary file is one whose name ends in `.tmp` and is not just that.
pub proof fn law_temporary_names(stem: Seq<char>)
    ensures
        stem.len() > 0 ==> is_temporary(stem + seq!['.', 't', 'm', 'p']),
        is_temporary(stem) ==> stem.len() > 4 && stem.skip(stem.len() - 4) == seq!['.', 't', 'm', 'p'],
{
    reveal_strlit(".tmp");
    assert(".tmp"@ =~= seq!['.', 't', 'm', 'p']);
    let name = stem + seq!['.', 't', 'm', 'p'];
    assert(name.skip(name.len() - 4) =~= ".tmp"@);
}

/// What a save is decided to do agrees with what it does: content that is there already is left, content that is
/// to be verified and has another digest is refused with it, and everything else is written.
pub proof fn law_save_decisions(
    exists_already: bool,
    digest: Sha1Digest,
    bytes: &[u8],
    verify: bool,
    step: SaveStep,
)
    requires
        call_ensures(decide_save, (exists_already, digest, bytes, verify), step),
    ensures
        step == SaveStep::Done(SaveSummary::AlreadyPresent) <==> exists_already,
        step is Write <==> !exists_already && (!verify || digest::digest_of(bytes@) == digest@),
        !exists_already && verify && digest::digest_of(bytes@) != digest@ ==> {
            &&& step matches SaveStep::Done(SaveSummary::DigestMismatch { actual_digest })
            &&& actual_digest@ == digest::digest_of(bytes@)
        },
{
}

/// A publication that fails because the file is there already counts as content that is present, unless the
/// file was published all the same; any other failure is handed on.
pub proof fn law_lost_races_are_no_failures(
    published: Result<(), PublicationFailure>,
    result: Result<SaveSummary, PublicationFailure>,
)
    requires
        call_ensures(conclude_save, (published,), result),
    ensures
        published is Ok ==> result == Ok::<SaveSummary, PublicationFailure>(SaveSummary::Success),
        published matches Err(failure) ==> {
            &&& failure.already_exists && !failure.is_published ==> result == Ok::<
                SaveSummary,
                PublicationFailure,
            >(SaveSummary::AlreadyPresent)
            &&& !failure.already_exists || failure.is_published ==> result == Err::<
                SaveSummary,
                PublicationFailure,
            >(failure)
        },
{
}

/// A copy gives the target the content of every digest of the source that it did not have, unless it is to be
/// verified and has another digest, and changes nothing else.
pub proof fn law_copy_is_exact(
    source: Map<nat, Seq<u8>>,
    target: Map<nat, Seq<u8>>,
    digests: Seq<nat>,
    verify: bool,
    digest: nat,
)
    requires
        lists_digests(digests, source),
    ensures
        ({
            let after = copied_contents(target, source, digests, digests.len(), verify);
            let is_refused = verify && digest::digest_of(source[digest]) != digest;
            &&& target.contains_key(digest) ==> after.contains_key(digest) && after[digest]
                == target[digest]
            &&& !target.contains_key(digest) ==> (after.contains_key(digest) <==> source.contains_key(
                digest,
            ) && !is_refused)
            &&& !target.contains_key(digest) && after.contains_key(digest) ==> after[digest]
                == source[digest]
        }),
{
    lemma_copied_content(source, target, digests, digests.len(), verify, digest);
    if source.contains_key(digest) {
        let i = choose|i: int| 0 <= i < digests.len() && #[trigger] digests[i] == digest;
        assert(digests[i] == digest);
    }
}

/// What the target holds of a digest after the first of the source were saved.
proof fn lemma_copied_content(
    source: Map<nat, Seq<u8>>,
    target: Map<nat, Seq<u8>>,
    digests: Seq<nat>,
    n: nat,
    verify: bool,
    digest: nat,
)
    requires
        n <= digests.len(),
    ensures
        ({
            let after = copied_contents(target, source, digests, n, verify);
            let is_refused = verify && digest::digest_of(source[digest]) != digest;
            let is_listed = exists|i: int| 0 <= i < n && #[trigger] digests[i] == digest;
            &&& target.contains_key(digest) ==> after.contains_key(digest) && after[digest]
                == target[digest]
            &&& !target.contains_key(digest) ==> (after.contains_key(digest) <==> is_listed
                && !is_refused)
            &&& !target.contains_key(digest) && after.contains_key(digest) ==> after[digest]
                == source[digest]
        }),
    decreases n,
{
    if n > 0 {
        lemma_copied_content(source, target, digests, (n - 1) as nat, verify, digest);
        assert(digests[n - 1] == digests[n - 1]);
        if exists|i: int| 0 <= i < n && #[trigger] digests[i] == digest {
            let i = choose|i: int| 0 <= i < n && #[trigger] digests[i] == digest;
            if i < n - 1 {
                assert(digests[i] == digest);
            }
        }
    }
}

/// A copy counts what it did for each digest: copied where the target did not have it and it could be stored,
/// skipped where the target had it, and mismatched otherwise.
pub proof fn law_copies_are_counted(
    summary: CopySummary,
    target: Map<nat, Seq<u8>>,
    source: Map<nat, Seq<u8>>,
    digests: Seq<nat>,
    verify: bool,
    i: int,
)
    requires
        lists_digests(digests, source),
        is_copy_summary(summary, target, source, digests, digests.len(), verify),
        0 <= i < digests.len(),
    ensures
        summary.copied + summary.skipped + summary.mismatched == digests.len(),
        target.contains_key(digests[i]) ==> copy_outcome(target, source, digests, i, verify) is AlreadyPresent,
        !target.contains_key(digests[i]) && (!verify || digest::digest_of(source[digests[i]])
            == digests[i]) ==> copy_outcome(target, source, digests, i, verify) is Success,
        !target.contains_key(digests[i]) && verify && digest::digest_of(source[digests[i]])
            != digests[i] ==> copy_outcome(target, source, digests, i, verify) is Mismatch,
{
    lemma_copied_content(source, target, digests, i as nat, verify, digests[i]);
    assert forall|k: int| 0 <= k < i implies #[trigger] digests[k] != digests[i] by {}
}

/// A layout can be made exactly if its prefix takes up no more than the 32 characters of a digest.
pub proof fn law_which_layouts_there_are(
    prefix_part_lengths: Vec<usize>,
    is_compressed: bool,
    layout: Result<Layout, PrefixTooLong>,
)
    requires
        call_ensures(Layout::new, (prefix_part_lengths, is_compressed), layout),
    ensures
        layout is Ok <==> sum(prefix_part_lengths@, prefix_part_lengths@.len()) <= 32,
        layout matches Ok(layout) ==> layout.lengths() == prefix_part_lengths@ && layout.compressed()
            == is_compressed,
{
}

/// A file is read by its name: a temporary one is passed over, one that is named by a digest as the layout names
/// it gives that digest, and any other is an error.
pub proof fn law_names_are_read(
    layout: &Layout,
    name: &str,
    digest: nat,
    read: Result<Option<Sha1Digest>, InvalidName>,
)
    requires
        call_ensures(Layout::read_name, (layout, name), read),
        digest < digest::digest_limit(),
    ensures
        read matches Ok(None) <==> is_temporary(name@),
        name@ == digest::digest_text(digest) + (if layout.compressed() {
            ".zst"@
        } else {
            ""@
        }) ==> (read matches Ok(Some(found)) && found@ == digest),
{
    reveal_strlit(".zst");
    reveal_strlit("zst");
    reveal_strlit("");
    assert(".zst"@ =~= seq!['.'] + "zst"@);
    assert(""@ =~= Seq::empty());
    let file = digest::digest_text(digest) + (if layout.compressed() {
        ".zst"@
    } else {
        ""@
    });
    assert(file =~= file_name(layout.extension(), digest));
    if name@ == file {
        law_names_read_back(digest, digest, layout.compressed());
        if let Ok(Some(found)) = read {
            digest::lemma_digest_unique(found, found);
            law_names_read_back(digest, found@, layout.compressed());
        }
    }
}

/// A copy records each save in one count: a success as copied, content that was there as skipped, and content of
/// another digest as mismatched.
pub proof fn law_saves_are_recorded(counts: &mut CopySummary, saved: SaveSummary)
    requires
        call_ensures(CopySummary::record, (counts, saved), ()),
        old(counts).total() < usize::MAX,
    ensures
        final(counts).copied == old(counts).copied + if saved is Success {
            1int
        } else {
            0
        },
        final(counts).skipped == old(counts).skipped + if saved is AlreadyPresent {
            1int
        } else {
            0
        },
        final(counts).mismatched == old(counts).mismatched + if saved is DigestMismatch {
            1int
        } else {
            0
        },
{
}

} // verus!
