//! Files of a legacy content-addressed tree.
//!
//! The name of a file is a digest, optionally followed by the extension of a compression format. The
//! content of a file can be checked against the digest in its name.
use vstd::prelude::*;

use crate::digest;
use crate::digest::Sha1Digest;
use crate::digest_table::DigestTable;
use crate::text;
use crate::text::{chars_of, comes_before, same_chars, split_chars};

verus! {

/// The compression applied to a legacy file's content, inferred from its extension.
#[derive(Clone, Copy, Debug, PartialEq, Eq, Hash, Structural)]
pub enum CompressionType {
    /// A `.zst` file.
    Zstd,
    /// A `.gz` file.
    Gzip,
}

/// A file found in a legacy directory tree.
#[derive(Debug, PartialEq, Eq)]
pub enum File {
    /// A file whose name is a digest, optionally followed by a recognized compression extension.
    Valid {
        /// The file's location.
        path: String,
        /// The compression inferred from the extension, or `None` for an extensionless file.
        compression_type: Option<CompressionType>,
        /// The digest parsed from the file name.
        digest: Sha1Digest,
    },
    /// A file whose name is not a digest with a recognized (or absent) compression extension.
    Skipped {
        /// The file's location.
        path: String,
    },
}

/// A character with an ASCII letter in upper case.
pub open spec fn upper(c: char) -> char {
    if 'a' <= c <= 'z' {
        (c as u32 - 32) as char
    } else {
        c
    }
}

/// A text with its ASCII letters in upper case.
pub open spec fn uppercase(s: Seq<char>) -> Seq<char> {
    s.map_values(|c: char| upper(c))
}

/// A text with its ASCII letters in upper case.
fn to_uppercase(s: &[char]) -> (out: Vec<char>)
    ensures
        out@ == uppercase(s@),
{
    let mut out: Vec<char> = Vec::new();
    let mut i: usize = 0;
    assert(out@ =~= uppercase(s@).take(0));
    while i < s.len()
        invariant
            i <= s@.len(),
            out@ == uppercase(s@).take(i as int),
        decreases s@.len() - i,
    {
        let c = s[i];
        if 'a' <= c && c <= 'z' {
            out.push(((c as u32 - 32) as u8) as char);
        } else {
            out.push(c);
        }
        assert(uppercase(s@).take(i + 1) =~= uppercase(s@).take(i as int).push(upper(c)));
        i = i + 1;
    }
    assert(uppercase(s@).take(i as int) =~= uppercase(s@));
    out
}

/// The extension of a compression format.
pub open spec fn compression_of(extension: Seq<char>) -> Option<CompressionType> {
    if uppercase(extension) == "ZST"@ {
        Some(CompressionType::Zstd)
    } else if uppercase(extension) == "GZ"@ {
        Some(CompressionType::Gzip)
    } else {
        None
    }
}

/// What a file name says: the digest and the compression, or `None` if it is not a digest with a
/// recognized (or absent) extension. Letters are matched case-insensitively.
pub open spec fn name_parts(name: Seq<char>) -> Option<(nat, Option<CompressionType>)> {
    let parts = text::split(name, '.');
    let stem = uppercase(parts[0]);
    if parts.len() > 2 || (parts.len() == 2 && compression_of(parts[1]) is None)
        || !digest::is_digest_text(stem) {
        None
    } else {
        Some(
            (
                digest::digest_value(stem),
                if parts.len() == 2 {
                    compression_of(parts[1])
                } else {
                    None
                },
            ),
        )
    }
}

/// Whether a path component names nothing.
pub open spec fn is_void(component: Seq<char>) -> bool {
    component.len() == 0 || component == "."@
}

/// The last component of a path, passing over empty ones and `.`, or `None` if there is none or it is
/// `..`.
pub open spec fn last_name(components: Seq<Seq<char>>) -> Option<Seq<char>>
    decreases components.len(),
{
    if components.len() == 0 {
        None
    } else if is_void(components.last()) {
        last_name(components.drop_last())
    } else if components.last() == ".."@ {
        None
    } else {
        Some(components.last())
    }
}

/// The file name at the end of a path.
pub open spec fn file_name(path: Seq<char>) -> Option<Seq<char>> {
    last_name(text::split(path, '/'))
}

/// The file name at the end of a path.
pub fn find_file_name(path: &str) -> (name: Option<Vec<char>>)
    ensures
        match name {
            Some(name) => file_name(path@) == Some(name@),
            None => file_name(path@) is None,
        },
{
    let chars = chars_of(path);
    let components = split_chars(&chars, '/');
    let ghost views = text::char_views(components@);
    let current = chars_of(".");
    let parent = chars_of("..");
    let mut n: usize = components.len();
    assert(views.take(n as int) =~= views);
    while n > 0
        invariant
            n <= components@.len(),
            views == text::char_views(components@),
            current@ == "."@,
            parent@ == ".."@,
            last_name(views.take(n as int)) == file_name(path@),
        decreases n,
    {
        let component = &components[n - 1];
        proof {
            assert(views.take(n as int).last() == component@);
            assert(views.take(n as int).drop_last() =~= views.take(n - 1));
        }
        if component.len() > 0 && !same_chars(component, &current) {
            if same_chars(component, &parent) {
                return None;
            }
            return Some(vstd::slice::slice_to_vec(component.as_slice()));
        }
        n = n - 1;
    }
    None
}

/// What a file name says.
fn read_name(name: &[char]) -> (parts: Option<(Sha1Digest, Option<CompressionType>)>)
    ensures
        match parts {
            Some((digest, compression)) => name_parts(name@) == Some((digest@, compression)),
            None => name_parts(name@) is None,
        },
{
    let parts = split_chars(name, '.');
    let ghost views = text::char_views(parts@);
    proof {
        text::law_split_joins_back(name@, '.');
        assert(views[0] == parts@[0]@);
    }
    if parts.len() > 2 {
        return None;
    }
    let mut compression: Option<CompressionType> = None;
    if parts.len() == 2 {
        assert(views[1] == parts@[1]@);
        let extension = to_uppercase(&parts[1]);
        let zst = chars_of("ZST");
        let gz = chars_of("GZ");
        if same_chars(&extension, &zst) {
            compression = Some(CompressionType::Zstd);
        } else if same_chars(&extension, &gz) {
            compression = Some(CompressionType::Gzip);
        } else {
            return None;
        }
    }
    let stem = to_uppercase(&parts[0]);
    match Sha1Digest::from_chars(&stem) {
        Ok(digest) => Some((digest, compression)),
        Err(_) => None,
    }
}

impl File {
    /// Classifies a path by its file name.
    ///
    /// A name is [`Valid`](Self::Valid) when it is a Base32-encoded SHA-1 digest (matched
    /// case-insensitively, like the extensions), optionally followed by a single `.zst` or `.gz`
    /// extension. Everything else is [`Skipped`](Self::Skipped).
    pub fn new(path: &str) -> (file: File)
        ensures
            match file {
                File::Valid { path: at, compression_type, digest } => {
                    &&& at@ == path@
                    &&& file_name(path@) matches Some(name) && name_parts(name) == Some(
                        (digest@, compression_type),
                    )
                },
                File::Skipped { path: at } => {
                    &&& at@ == path@
                    &&& file_name(path@) matches Some(name) ==> name_parts(name) is None
                },
            },
    {
        if let Some(name) = find_file_name(path) {
            if let Some((digest, compression_type)) = read_name(&name) {
                return File::Valid { path: path.to_owned(), compression_type, digest };
            }
        }
        File::Skipped { path: path.to_owned() }
    }

    /// The file's location, whether or not it was recognized.
    pub fn path(&self) -> (path: &str)
        ensures
            path@ == match self {
                File::Valid { path, .. } => path@,
                File::Skipped { path } => path@,
            },
    {
        match self {
            File::Valid { path, .. } => path.as_str(),
            File::Skipped { path } => path.as_str(),
        }
    }

    /// The digest parsed from the file name, or `None` for a skipped file.
    pub fn digest(&self) -> (digest: Option<Sha1Digest>)
        ensures
            digest == match *self {
                File::Valid { digest, .. } => Some(digest),
                File::Skipped { .. } => None,
            },
    {
        match self {
            File::Valid { digest, .. } => Some(*digest),
            File::Skipped { .. } => None,
        }
    }
}

/// What an entry of a directory is.
#[derive(Clone, Copy, Debug, PartialEq, Eq, Structural)]
pub enum EntryKind {
    /// A symbolic link.
    Symlink,
    /// A directory.
    Directory,
    /// Anything else.
    File,
}

/// What a walk does with an entry of a directory.
#[derive(Debug, PartialEq, Eq)]
pub enum Step {
    /// The walk descends into the directory.
    Descend,
    /// The walk reports the entry.
    Report(File),
}

/// Decides what a walk of a legacy tree does with an entry. Symbolic links are never followed: each
/// one is reported as skipped, so a link to an ancestor cannot loop the walk and a link into a foreign
/// tree cannot pull in its files.
pub fn visit(kind: EntryKind, path: &str) -> (step: Step)
    ensures
        match step {
            Step::Descend => kind is Directory,
            Step::Report(File::Valid { path: at, compression_type, digest }) => {
                &&& kind is File
                &&& at@ == path@
                &&& file_name(path@) matches Some(name) && name_parts(name) == Some(
                    (digest@, compression_type),
                )
            },
            Step::Report(File::Skipped { path: at }) => {
                &&& !(kind is Directory)
                &&& at@ == path@
                &&& kind is File ==> (file_name(path@) matches Some(name) ==> name_parts(
                    name,
                ) is None)
            },
        },
{
    match kind {
        EntryKind::Symlink => Step::Report(File::Skipped { path: path.to_owned() }),
        EntryKind::Directory => Step::Descend,
        EntryKind::File => Step::Report(File::new(path)),
    }
}

/// The content of a gzip file, or `None` if it cannot be decoded.
pub uninterp spec fn gunzipped(bytes: Seq<u8>) -> Option<Seq<u8>>;

/// The content of a Zstandard file, or `None` if it cannot be decoded.
pub uninterp spec fn unzstded(bytes: Seq<u8>) -> Option<Seq<u8>>;

/// `flate2::read::GzDecoder` and `read_to_end`: the content of a gzip file.
#[verifier::external_body]
fn gunzip(bytes: &[u8]) -> (content: Option<Vec<u8>>)
    ensures
        match content {
            Some(content) => gunzipped(bytes@) == Some(content@),
            None => gunzipped(bytes@) is None,
        },
{
    let mut content = Vec::new();
    std::io::Read::read_to_end(&mut flate2::read::GzDecoder::new(bytes), &mut content).ok()?;
    Some(content)
}

/// `zstd::decode_all`: the content of a Zstandard file.
#[verifier::external_body]
fn unzstd(bytes: &[u8]) -> (content: Option<Vec<u8>>)
    ensures
        match content {
            Some(content) => unzstded(bytes@) == Some(content@),
            None => unzstded(bytes@) is None,
        },
{
    zstd::decode_all(bytes).ok()
}

/// The content of a file, or `None` if it cannot be decoded.
pub open spec fn decoded(bytes: Seq<u8>, compression: Option<CompressionType>) -> Option<Seq<u8>> {
    match compression {
        None => Some(bytes),
        Some(CompressionType::Gzip) => gunzipped(bytes),
        Some(CompressionType::Zstd) => unzstded(bytes),
    }
}

/// The bytes of a file cannot be decoded.
#[derive(Clone, Copy, Debug, PartialEq, Eq, Structural)]
pub struct Undecodable;

/// Decodes the content of a file.
pub fn decode_content(bytes: &[u8], compression_type: Option<CompressionType>) -> (result: Result<
    Vec<u8>,
    Undecodable,
>)
    ensures
        match result {
            Ok(content) => decoded(bytes@, compression_type) == Some(content@),
            Err(_) => decoded(bytes@, compression_type) is None,
        },
{
    let content: Option<Vec<u8>> = match compression_type {
        None => Some(vstd::slice::slice_to_vec(bytes)),
        Some(CompressionType::Gzip) => gunzip(bytes),
        Some(CompressionType::Zstd) => unzstd(bytes),
    };
    match content {
        Some(content) => Ok(content),
        None => Err(Undecodable),
    }
}

/// Computes the SHA-1 digest of a file's decoded content.
pub fn digest_content(bytes: &[u8], compression_type: Option<CompressionType>) -> (result: Result<
    Sha1Digest,
    Undecodable,
>)
    ensures
        match result {
            Ok(digest) => decoded(bytes@, compression_type) matches Some(content) && digest@
                == digest::digest_of(content),
            Err(_) => decoded(bytes@, compression_type) is None,
        },
{
    match decode_content(bytes, compression_type) {
        Ok(content) => Ok(Sha1Digest::compute(&content)),
        Err(error) => Err(error),
    }
}

/// A file is not what its name says.
#[derive(Debug, PartialEq, Eq)]
pub enum Error {
    /// The file cannot be decoded.
    Undecodable {
        /// The file's location.
        path: String,
    },
    /// The decoded content does not hash to the digest in the name.
    InvalidDigest {
        /// The digest taken from the file name.
        expected: Sha1Digest,
        /// The digest computed from the file's decoded content.
        found: Sha1Digest,
    },
}

/// Checks a file against the digest of its decoded content. A skipped file is passed through.
pub fn check_found(file: File, found: Result<Sha1Digest, Undecodable>) -> (result: Result<
    File,
    Error,
>)
    ensures
        match file {
            File::Skipped { .. } => result == Ok::<File, Error>(file),
            File::Valid { path, digest, .. } => match found {
                Err(_) => result == Err::<File, Error>(Error::Undecodable { path }),
                Ok(found) => if found@ == digest@ {
                    result == Ok::<File, Error>(file)
                } else {
                    result == Err::<File, Error>(Error::InvalidDigest { expected: digest, found })
                },
            },
        },
{
    match file {
        File::Skipped { path } => Ok(File::Skipped { path }),
        File::Valid { path, compression_type, digest } => match found {
            Err(_) => Err(Error::Undecodable { path }),
            Ok(found) => {
                proof {
                    digest::lemma_digest_unique(found, digest);
                }
                if found == digest {
                    Ok(File::Valid { path, compression_type, digest })
                } else {
                    Err(Error::InvalidDigest { expected: digest, found })
                }
            },
        },
    }
}

/// Checks a file's bytes against the digest in its name: a file whose decoded content does not match is
/// an error.
pub fn verify(file: File, bytes: &[u8]) -> (result: Result<File, Error>)
    ensures
        match file {
            File::Skipped { .. } => result == Ok::<File, Error>(file),
            File::Valid { path, compression_type, digest } => match decoded(
                bytes@,
                compression_type,
            ) {
                None => result == Err::<File, Error>(Error::Undecodable { path }),
                Some(content) => if digest::digest_of(content) == digest@ {
                    result == Ok::<File, Error>(file)
                } else {
                    result matches Err(Error::InvalidDigest { expected, found }) && expected
                        == digest && found@ == digest::digest_of(content)
                },
            },
        },
{
    let compression: Option<CompressionType> = match &file {
        File::Valid { compression_type, .. } => *compression_type,
        File::Skipped { path } => return Ok(File::Skipped { path: path.clone() }),
    };
    let found = digest_content(bytes, compression);
    check_found(file, found)
}

/// Whether a file is named by a digest.
pub open spec fn is_named(file: File, named: nat) -> bool {
    file matches File::Valid { digest, .. } && digest@ == named
}

/// The location of a file.
pub open spec fn location(file: File) -> Seq<char> {
    match file {
        File::Valid { path, .. } => path@,
        File::Skipped { path } => path@,
    }
}

/// Whether file `i` is named by a digest, and none that is has a location that comes before its own.
pub open spec fn stands_first(files: Seq<File>, named: nat, i: int) -> bool {
    &&& 0 <= i < files.len()
    &&& is_named(files[i], named)
    &&& forall|j: int|
        0 <= j < files.len() && is_named(#[trigger] files[j], named) ==> !text::lex_less(
            location(files[j]),
            location(files[i]),
        )
}

/// Whether a table maps each digest that names a file to the first of the files that it names.
pub open spec fn keeps_first(kept: Map<nat, File>, files: Seq<File>) -> bool {
    &&& forall|named: nat| #[trigger]
        kept.contains_key(named) ==> exists|i: int|
            #[trigger] stands_first(files, named, i) && kept[named] == files[i]
    &&& forall|i: int, named: nat|
        0 <= i < files.len() && #[trigger] is_named(files[i], named) ==> kept.contains_key(named)
}

/// A file that no digest names changes nothing.
proof fn lemma_unnamed(kept: Map<nat, File>, later: Seq<File>, file: File)
    requires
        keeps_first(kept, later),
        file is Skipped,
    ensures
        keeps_first(kept, seq![file] + later),
{
    let files = seq![file] + later;
    assert forall|named: nat| #[trigger] kept.contains_key(named) implies exists|i: int|
        #[trigger] stands_first(files, named, i) && kept[named] == files[i] by {
        let i = choose|i: int| #[trigger] stands_first(later, named, i) && kept[named] == later[i];
        lemma_still_first(later, file, named, i);
    }
    assert forall|i: int, named: nat|
        0 <= i < files.len() && #[trigger] is_named(files[i], named) implies kept.contains_key(
        named,
    ) by {
        assert(i > 0);
        assert(is_named(later[i - 1], named));
    }
}

/// The first file of a digest stays the first behind a file that does not come before it.
proof fn lemma_still_first(later: Seq<File>, file: File, named: nat, i: int)
    requires
        stands_first(later, named, i),
        is_named(file, named) ==> !text::lex_less(location(file), location(later[i])),
    ensures
        stands_first(seq![file] + later, named, i + 1),
{
    let files = seq![file] + later;
    assert forall|j: int|
        0 <= j < files.len() && is_named(#[trigger] files[j], named) implies !text::lex_less(
        location(files[j]),
        location(files[i + 1]),
    ) by {
        if j > 0 {
            assert(files[j] == later[j - 1]);
        }
    }
}

/// A named file is kept if there is none of its digest yet or it comes before that.
proof fn lemma_named(kept: Map<nat, File>, later: Seq<File>, file: File, digest: nat)
    requires
        keeps_first(kept, later),
        is_named(file, digest),
    ensures
        keeps_first(
            if kept.contains_key(digest) && !text::lex_less(location(file), location(kept[digest])) {
                kept
            } else {
                kept.insert(digest, file)
            },
            seq![file] + later,
        ),
{
    let files = seq![file] + later;
    let stays = kept.contains_key(digest) && !text::lex_less(
        location(file),
        location(kept[digest]),
    );
    let after = if stays {
        kept
    } else {
        kept.insert(digest, file)
    };
    assert forall|named: nat| #[trigger] after.contains_key(named) implies exists|i: int|
        #[trigger] stands_first(files, named, i) && after[named] == files[i] by {
        if named != digest || stays {
            assert(kept.contains_key(named));
            let i = choose|i: int|
                #[trigger] stands_first(later, named, i) && kept[named] == later[i];
            lemma_still_first(later, file, named, i);
        } else {
            assert forall|j: int|
                0 <= j < files.len() && is_named(#[trigger] files[j], named) implies !text::lex_less(
                location(files[j]),
                location(files[0]),
            ) by {
                if j == 0 {
                    text::lemma_lex_total(location(file), location(file));
                } else {
                    assert(files[j] == later[j - 1]);
                    assert(is_named(later[j - 1], named));
                    let i = choose|i: int|
                        #[trigger] stands_first(later, named, i) && kept[named] == later[i];
                    if text::lex_less(location(files[j]), location(file)) {
                        text::lemma_lex_transitive(
                            location(files[j]),
                            location(file),
                            location(kept[named]),
                        );
                    }
                }
            }
            assert(stands_first(files, named, 0));
        }
    }
    assert forall|i: int, named: nat|
        0 <= i < files.len() && #[trigger] is_named(files[i], named) implies after.contains_key(
        named,
    ) by {
        if i > 0 {
            assert(is_named(later[i - 1], named));
        }
    }
}

/// Keeps one file for each digest.
///
/// A digest may be present in more than one directory. Of the files that it names, the one whose
/// location comes first in the order of its characters is kept. A skipped file is dropped.
pub fn keep_first(files: Vec<File>) -> (kept: DigestTable<File>)
    ensures
        keeps_first(kept@, files@),
{
    let ghost all = files@;
    let mut files = files;
    let mut kept: DigestTable<File> = DigestTable::new();
    while files.len() > 0
        invariant
            files@.len() <= all.len(),
            files@ == all.take(files@.len() as int),
            keeps_first(kept@, all.skip(files@.len() as int)),
        decreases files@.len(),
    {
        let ghost n = files@.len() - 1;
        let ghost later = all.skip(n + 1);
        let ghost before = kept@;
        let file = files.pop().unwrap();
        proof {
            assert(file == all[n]);
            assert(files@ =~= all.take(n));
            assert(all.skip(n) =~= seq![file] + later);
        }
        if let Some(digest) = file.digest() {
            let comes_first: bool = match kept.get(&digest) {
                Some(other) => comes_before(&chars_of(file.path()), &chars_of(other.path())),
                None => true,
            };
            if comes_first {
                kept.insert(digest, file);
            }
            proof {
                lemma_named(before, later, all[n], digest@);
            }
        } else {
            proof {
                lemma_unnamed(before, later, all[n]);
            }
        }
    }
    assert(all.skip(0) =~= all);
    kept
}

/// Letters from a to z are put in upper case, and every other character stays.
pub proof fn law_upper_case(c: char)
    ensures
        0x61 <= c as int <= 0x7a ==> upper(c) as int == c as int - 0x20,
        !(0x61 <= c as int <= 0x7a) ==> upper(c) == c,
{
}

/// A file is compressed as its extension says, in upper or lower case: `zst` or `gz`, and no other.
pub proof fn law_compression_by_extension(extension: Seq<char>)
    ensures
        compression_of(extension) == Some(CompressionType::Zstd) <==> extension.len() == 3 && (
        extension[0] == 'z' || extension[0] == 'Z') && (extension[1] == 's' || extension[1] == 'S') && (
        extension[2] == 't' || extension[2] == 'T'),
        compression_of(extension) == Some(CompressionType::Gzip) <==> extension.len() == 2 && (
        extension[0] == 'g' || extension[0] == 'G') && (extension[1] == 'z' || extension[1] == 'Z'),
{
    reveal_strlit("ZST");
    reveal_strlit("GZ");
    let upper_case = uppercase(extension);
    assert(upper_case.len() == extension.len());
    assert forall|i: int| 0 <= i < extension.len() implies upper_case[i] == upper(extension[i]) by {}
    if extension.len() == 3 && (extension[0] == 'z' || extension[0] == 'Z') && (extension[1] == 's'
        || extension[1] == 'S') && (extension[2] == 't' || extension[2] == 'T') {
        assert(upper_case =~= "ZST"@);
    }
    if extension.len() == 2 && (extension[0] == 'g' || extension[0] == 'G') && (extension[1] == 'z'
        || extension[1] == 'Z') {
        assert(upper_case =~= "GZ"@);
    }
    if upper_case == "ZST"@ {
        assert(upper_case[0] == 'Z' && upper_case[1] == 'S' && upper_case[2] == 'T');
        assert(upper(extension[0]) == 'Z' && upper(extension[1]) == 'S' && upper(extension[2]) == 'T');
    }
    if upper_case == "GZ"@ {
        assert(upper_case[0] == 'G' && upper_case[1] == 'Z');
        assert(upper(extension[0]) == 'G' && upper(extension[1]) == 'Z');
    }
}

/// A file name is that of a digest exactly if it is a digest in upper or lower case, alone or with one known
/// extension behind it.
pub proof fn law_which_names_are_digests(stem: Seq<char>, extension: Seq<char>, more: Seq<char>)
    requires
        !stem.contains('.'),
        !extension.contains('.'),
        !more.contains('.'),
    ensures
        ({
            let digest = uppercase(stem);
            let is_digest = digest::is_digest_text(digest);
            &&& name_parts(stem) == if is_digest {
                Some((digest::digest_value(digest), None::<CompressionType>))
            } else {
                None
            }
            &&& name_parts(stem + seq!['.'] + extension) == if is_digest && compression_of(
                extension,
            ) is Some {
                Some((digest::digest_value(digest), compression_of(extension)))
            } else {
                None
            }
            &&& name_parts(stem + seq!['.'] + extension + seq!['.'] + more) is None
        }),
{
    text::law_last_part(stem, stem, '.');
    text::law_last_part(stem, extension, '.');
    text::law_last_part(stem + seq!['.'] + extension, more, '.');
    let two = text::split(stem + seq!['.'] + extension, '.');
    assert(two =~= seq![stem, extension]);
}

/// The file name of a path is what stands behind its last slash. A slash or a dot at the end does not count, and
/// a path that ends in two dots has none.
pub proof fn law_file_name_is_the_last_component(path: Seq<char>, name: Seq<char>)
    requires
        !name.contains('/'),
        name.len() > 0,
        name != "."@,
        name != ".."@,
    ensures
        file_name(name) == Some(name),
        file_name(path + seq!['/'] + name) == Some(name),
        file_name(path + seq!['/']) == file_name(path),
        file_name(path + seq!['/', '.']) == file_name(path),
        file_name(path + seq!['/', '.', '.']) is None,
{
    reveal_strlit(".");
    reveal_strlit("..");
    assert("."@ =~= seq!['.']);
    assert(".."@ =~= seq!['.', '.']);
    text::law_last_part(path, name, '/');
    let empty = Seq::<char>::empty();
    assert(!empty.contains('/'));
    text::law_last_part(path, empty, '/');
    assert(path + seq!['/'] + empty =~= path + seq!['/']);
    let parts = text::split(path, '/');
    assert(parts.push(empty).drop_last() =~= parts);
    let dot = seq!['.'];
    assert(!dot.contains('/'));
    text::law_last_part(path, dot, '/');
    assert(path + seq!['/'] + dot =~= path + seq!['/', '.']);
    assert(parts.push(dot).drop_last() =~= parts);
    let dots = seq!['.', '.'];
    assert(!dots.contains('/'));
    text::law_last_part(path, dots, '/');
    assert(path + seq!['/'] + dots =~= path + seq!['/', '.', '.']);
    assert(dots != dot) by {
        assert(dots.len() != dot.len());
    }
}

/// Content is taken as it is, or decoded by what its file is compressed with.
pub proof fn law_content_is_decoded(bytes: Seq<u8>)
    ensures
        decoded(bytes, None) == Some(bytes),
        decoded(bytes, Some(CompressionType::Gzip)) == gunzipped(bytes),
        decoded(bytes, Some(CompressionType::Zstd)) == unzstded(bytes),
{
}

/// Of the files that are named by a digest, the one that is kept is named by it, and no other has a path that
/// comes before its path.
pub proof fn law_first_file_is_kept(kept: Map<nat, File>, files: Seq<File>, named: nat, j: int)
    requires
        keeps_first(kept, files),
        0 <= j < files.len(),
    ensures
        files[j] matches File::Valid { digest, path: other, .. } ==> (digest@ == named ==> {
            &&& kept.contains_key(named)
            &&& files.contains(kept[named])
            &&& kept[named] matches File::Valid { digest: first, path: at, .. }
            &&& first@ == named
            &&& !text::lex_less(other@, at@)
        }),
{
    if is_named(files[j], named) {
        let i = choose|i: int| #[trigger] stands_first(files, named, i) && kept[named] == files[i];
        assert(is_named(files[i], named));
        assert(files.contains(files[i]));
    }
}

/// A directory is walked into and everything else is reported: a file whose name is that of a digest with what
/// its name says, and any other file or link as skipped.
pub proof fn law_entries_are_visited(kind: EntryKind, at: &str, step: Step)
    requires
        call_ensures(visit, (kind, at), step),
    ensures
        step is Descend <==> kind is Directory,
        kind is Symlink ==> step->Report_0 is Skipped,
        kind is File ==> {
            let name = file_name(at@);
            let parts = name_parts(name.unwrap());
            &&& step matches Step::Report(file)
            &&& file is Valid <==> name is Some && parts is Some
            &&& file matches File::Valid { path: reported, compression_type, digest } ==> reported@
                == at@ && parts == Some((digest@, compression_type))
            &&& file matches File::Skipped { path: reported } ==> reported@ == at@
        },
{
}

/// A file is verified by the content that its compression decodes: it passes exactly if that has the digest in
/// its name. A skipped file passes as it is.
pub proof fn law_files_are_verified(file: File, bytes: &[u8], result: Result<File, Error>)
    requires
        call_ensures(verify, (file, bytes), result),
    ensures
        file is Skipped ==> result == Ok::<File, Error>(file),
        file matches File::Valid { path: at, compression_type, digest } ==> {
            let content = match compression_type {
                None => Some(bytes@),
                Some(CompressionType::Gzip) => gunzipped(bytes@),
                Some(CompressionType::Zstd) => unzstded(bytes@),
            };
            &&& content is None ==> result == Err::<File, Error>(Error::Undecodable { path: at })
            &&& content matches Some(content) ==> {
                &&& digest::digest_of(content) == digest@ ==> result == Ok::<File, Error>(file)
                &&& digest::digest_of(content) != digest@ ==> {
                    &&& result matches Err(Error::InvalidDigest { expected, found })
                    &&& expected == digest
                    &&& found@ == digest::digest_of(content)
                }
            }
        },
{
}

} // verus!
