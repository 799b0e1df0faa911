use std::io::Write;

use archivindex_wbm::digest::Sha1Digest;
use archivindex_wbm::gzip::{fits, split_chunks, MAX_CONTENT_LEN};
use archivindex_wbm::legacy::{
    decode_content, digest_content, keep_first, verify, visit, CompressionType, EntryKind, Error,
    File, Step, Undecodable,
};
use archivindex_wbm::store::{
    conclude_save, copy_store, decide_save, verify_store, Buffered, Compressed, CopySummary,
    InvalidName, Layout, MemoryStore, PrefixTooLong, PublicationFailure, SaveStep, SaveSummary,
    Store,
};
use archivindex_wbm::verification;

const DIGEST: &str = "BN4XMPASWOOKCS6N3LOIGAAQ2N7NY3BK";

fn digest(text: &str) -> Sha1Digest {
    Sha1Digest::parse_str(text).unwrap()
}

fn store() -> MemoryStore {
    MemoryStore::new(Layout::new(vec![2, 2], false).expect("valid layout"))
}

/// Asserts that `file` was recognized and carries the given compression type.
fn assert_valid(file: &File, expected: Option<CompressionType>) {
    match file {
        File::Valid { compression_type, .. } => assert_eq!(*compression_type, expected),
        File::Skipped { path } => panic!("expected a valid file at {path}"),
    }
}

#[test]
fn file_new_classification() {
    assert_eq!(File::new(DIGEST).digest(), Some(digest(DIGEST)));
    // An extensionless digest is uncompressed.
    assert_valid(&File::new(DIGEST), None);
    assert_valid(&File::new(&format!("{DIGEST}.zst")), Some(CompressionType::Zstd));
    // Extensions are matched case-insensitively.
    assert_valid(&File::new(&format!("{DIGEST}.GZ")), Some(CompressionType::Gzip));

    // Unrecognized extensions, extra extensions, and non-digest stems are all skipped.
    assert_eq!(File::new(&format!("{DIGEST}.bz2")).digest(), None);
    assert_eq!(File::new(&format!("{DIGEST}.gz.zst")).digest(), None);
    assert_eq!(File::new("not-a-digest.gz").digest(), None);
    assert_eq!(File::new("").digest(), None);
}

#[test]
fn file_new_parses_lowercase_digest_stems() {
    let lower = DIGEST.to_ascii_lowercase();

    assert_eq!(File::new(&lower).digest(), Some(digest(DIGEST)));
    assert_valid(&File::new(&lower), None);
    assert_valid(&File::new(&format!("{lower}.zst")), Some(CompressionType::Zstd));
    assert_valid(&File::new(&format!("{lower}.GZ")), Some(CompressionType::Gzip));
}

#[test]
fn file_names_stand_at_the_end_of_a_path() {
    let path = format!("base/BN/4X/{DIGEST}.gz");
    let file = File::new(&path);
    assert_eq!(file.path(), path);
    assert_valid(&file, Some(CompressionType::Gzip));
    assert_valid(&File::new(&format!("{DIGEST}/./")), None);
    assert_eq!(File::new(&format!("{DIGEST}/..")).digest(), None);
}

#[test]
fn a_walk_skips_symlinks_and_descends_into_directories() {
    assert_eq!(visit(EntryKind::Directory, "base/BN"), Step::Descend);
    assert_eq!(
        visit(EntryKind::Symlink, DIGEST),
        Step::Report(File::Skipped { path: DIGEST.to_string() })
    );
    assert_eq!(visit(EntryKind::File, DIGEST), Step::Report(File::new(DIGEST)));
    assert_eq!(visit(EntryKind::File, "README.md"), Step::Report(File::new("README.md")));
}

#[test]
fn the_first_file_of_a_digest_is_kept() {
    let first = "AAAAAAAAAAAAAAAAAAAAAAAAAAAAAAA2";
    let files = [
        format!("b/{DIGEST}"),
        "a/README.md".to_string(),
        format!("a/{DIGEST}.zst"),
        format!("c/{first}.gz"),
        format!("c/{DIGEST}"),
    ];
    let kept = keep_first(files.iter().map(|path| File::new(path)).collect());
    let kept = kept
        .entries()
        .iter()
        .map(|(digest, file)| (digest.to_string(), file.path().to_string()))
        .collect::<Vec<_>>();

    assert_eq!(
        kept,
        vec![
            (first.to_string(), format!("c/{first}.gz")),
            (DIGEST.to_string(), format!("a/{DIGEST}.zst")),
        ]
    );
    assert!(keep_first(vec![]).entries().is_empty());
}

#[test]
fn verifying_importer_detects_a_digest_mismatch() {
    let content = b"example content\n";
    let name = Sha1Digest::compute(content).to_string();

    assert_eq!(verify(File::new(&name), content), Ok(File::new(&name)));
    assert_eq!(
        verify(File::new(DIGEST), b"content that does not match its name"),
        Err(Error::InvalidDigest {
            expected: digest(DIGEST),
            found: Sha1Digest::compute(b"content that does not match its name"),
        })
    );
    // A skipped file is passed through.
    assert_eq!(verify(File::new("README.md"), b"anything"), Ok(File::new("README.md")));
}

#[test]
fn verifying_importer_reads_gzip_content() {
    let content = b"example content\n";
    let path = format!("{}.gz", Sha1Digest::compute(content).to_string());

    let mut encoder = flate2::write::GzEncoder::new(Vec::new(), flate2::Compression::default());
    encoder.write_all(content).expect("write");
    let archived = encoder.finish().expect("finish");

    assert_eq!(verify(File::new(&path), &archived), Ok(File::new(&path)));
    assert_eq!(
        digest_content(&archived, Some(CompressionType::Gzip)),
        Ok(Sha1Digest::compute(content))
    );
    assert_eq!(
        decode_content(&archived, Some(CompressionType::Gzip)),
        Ok(content.to_vec())
    );
    assert_eq!(decode_content(&archived, None), Ok(archived));
}

#[test]
fn verifying_importer_reads_zstd_content() {
    let content = b"example content\n";
    let path = format!("{}.zst", Sha1Digest::compute(content).to_string());
    let archived = zstd::encode_all(content.as_slice(), 0).expect("encode");

    let file = verify(File::new(&path), &archived).expect("content matches");

    assert_eq!(file.digest(), Some(Sha1Digest::compute(content)));
    assert_valid(&file, Some(CompressionType::Zstd));
}

#[test]
fn verifying_importer_detects_a_zstd_digest_mismatch() {
    // Valid zstd data whose decompressed content does not hash to the digest in the name.
    let content = b"content that does not match its name";
    let archived = zstd::encode_all(content.as_slice(), 0).expect("encode");

    match verify(File::new(&format!("{DIGEST}.zst")), &archived) {
        Err(Error::InvalidDigest { expected, found }) => {
            assert_eq!(expected, digest(DIGEST));
            assert_eq!(found, Sha1Digest::compute(content));
        }
        other => panic!("expected a digest mismatch, found {other:?}"),
    }
}

#[test]
fn what_cannot_be_decoded_is_an_error() {
    for extension in ["gz", "zst"] {
        let path = format!("{DIGEST}.{extension}");
        assert_eq!(
            verify(File::new(&path), b"not compressed"),
            Err(Error::Undecodable { path: path.clone() })
        );
    }
    assert_eq!(digest_content(b"x", Some(CompressionType::Zstd)), Err(Undecodable));
    assert_eq!(decode_content(b"x", Some(CompressionType::Gzip)), Err(Undecodable));
}

#[test]
fn save_get_and_mismatch_behavior() {
    let bytes = b"example content\n";
    let digest = Sha1Digest::compute(bytes);
    let absent = Sha1Digest::from_bytes(&[9; 20]);
    let mut store = store();

    assert_eq!(store.get(&digest), Ok(None));

    // Mismatched bytes with verification are rejected and nothing is persisted.
    let mismatch = store.save(digest, b"other content", true);
    assert!(matches!(mismatch, Ok(SaveSummary::DigestMismatch { .. })));
    assert_eq!(store.get(&digest), Ok(None));

    assert_eq!(store.save(digest, bytes, true), Ok(SaveSummary::Success));
    assert_eq!(store.get(&digest), Ok(Some(bytes.to_vec())));

    assert_eq!(store.save(digest, bytes, true), Ok(SaveSummary::AlreadyPresent));
    assert_eq!(store.get(&absent), Ok(None));
}

#[test]
fn verify_reports_corrupted_entries() {
    let mut store = store();

    let intact = b"intact content\n";
    let intact_digest = Sha1Digest::compute(intact);
    let corrupted_digest = Sha1Digest::compute(b"original content\n");

    store.save(intact_digest, intact, true).expect("save");
    // Written without verification, so the store indexes it under a digest it does not match.
    store.save(corrupted_digest, b"replacement content\n", false).expect("save");

    let summary = verify_store(&store).expect("verify");

    // The reported path is the entry's location in the prefix tree.
    let corrupted_name = corrupted_digest.to_string();
    let corrupted_path =
        format!("{}/{}/{corrupted_name}", &corrupted_name[..2], &corrupted_name[2..4]);

    assert_eq!(summary.verified_count, 1);
    assert_eq!(
        summary.errors,
        vec![verification::Error {
            expected: corrupted_digest,
            actual: Sha1Digest::compute(b"replacement content\n"),
            path: corrupted_path.clone(),
        }]
    );
    assert_eq!(
        summary.errors[0].message(),
        format!(
            "digest mismatch at {corrupted_path}: expected {corrupted_name}, actual {}",
            Sha1Digest::compute(b"replacement content\n").to_string()
        )
    );
}

#[test]
fn new_rejects_prefixes_longer_than_a_digest() {
    // An encoded digest is 32 characters, so these prefixes cannot be carved out of one.
    assert_eq!(Layout::new(vec![20, 20], false), Err(PrefixTooLong));
    assert_eq!(Layout::new(vec![usize::MAX, usize::MAX], false), Err(PrefixTooLong));
    assert!(Layout::new(vec![16, 16], false).is_ok());
}

#[test]
fn layouts_give_paths_and_read_names() {
    let digest = digest(DIGEST);
    let flat = Layout::new(vec![], false).unwrap();
    let nested = Layout::new(vec![2, 2], true).unwrap();

    assert_eq!(flat.path(&digest), DIGEST);
    // An empty prefix part gives no directory.
    assert_eq!(Layout::new(vec![0, 3], false).unwrap().path(&digest), format!("BN4/{DIGEST}"));
    assert_eq!(nested.path(&digest), format!("BN/4X/{DIGEST}.zst"));

    assert_eq!(flat.read_name(DIGEST), Ok(Some(digest)));
    assert_eq!(nested.read_name(&format!("{DIGEST}.zst")), Ok(Some(digest)));
    assert_eq!(nested.read_name(DIGEST), Err(InvalidName));
    assert_eq!(flat.read_name(&DIGEST.to_lowercase()), Err(InvalidName));
    // A crash can leave temporary files behind.
    for stale in [format!("{DIGEST}.zst.12345.0.tmp"), ".archivindex-leftover.tmp".to_string()] {
        assert_eq!(nested.read_name(&stale), Ok(None));
    }
    assert_eq!(flat.read_name(".tmp"), Err(InvalidName));
}

#[test]
fn saves_are_decided_before_writing() {
    let digest = Sha1Digest::compute(b"content");

    assert_eq!(
        decide_save(true, digest, b"other", true),
        SaveStep::Done(SaveSummary::AlreadyPresent)
    );
    assert_eq!(
        decide_save(false, digest, b"other", true),
        SaveStep::Done(SaveSummary::DigestMismatch { actual_digest: Sha1Digest::compute(b"other") })
    );
    assert_eq!(decide_save(false, digest, b"other", false), SaveStep::Write);
    assert_eq!(decide_save(false, digest, b"content", true), SaveStep::Write);
}

#[test]
fn a_competing_save_wins() {
    let failure = |is_published: bool, already_exists: bool| PublicationFailure {
        is_published,
        already_exists,
    };

    assert_eq!(conclude_save(Ok(())), Ok(SaveSummary::Success));
    assert_eq!(conclude_save(Err(failure(false, true))), Ok(SaveSummary::AlreadyPresent));
    for failed in [failure(false, false), failure(true, true)] {
        assert_eq!(conclude_save(Err(failed)), Err(failed));
    }
}

#[test]
fn copies_keep_what_the_target_has() {
    let mut source = store();
    let mut target = store();
    let (shared, fresh) = (Sha1Digest::compute(b"shared"), Sha1Digest::compute(b"fresh"));
    let corrupt = Sha1Digest::compute(b"original");
    source.save(shared, b"shared", true).unwrap();
    source.save(fresh, b"fresh", true).unwrap();
    source.save(corrupt, b"replacement", false).unwrap();
    target.save(shared, b"older", false).unwrap();

    let summary = copy_store(&source, &mut target, true).expect("copy");

    assert_eq!(summary, CopySummary { copied: 1, skipped: 1, mismatched: 1 });
    assert_eq!(target.get(&shared), Ok(Some(b"older".to_vec())));
    assert_eq!(target.get(&fresh), Ok(Some(b"fresh".to_vec())));
    assert_eq!(target.get(&corrupt), Ok(None));
    let summary = copy_store(&source, &mut target, false).expect("copy");
    assert_eq!(summary, CopySummary { copied: 1, skipped: 2, mismatched: 0 });
}

#[test]
fn entries_come_in_the_order_of_their_digests() {
    let mut store = store();
    for content in [b"a", b"b", b"c", b"d"] {
        store.save(Sha1Digest::compute(content), content, true).unwrap();
    }
    let digests =
        store.entries().unwrap().iter().map(|entry| entry.digest.to_bytes()).collect::<Vec<_>>();
    let mut sorted = digests.clone();
    sorted.sort();

    assert_eq!(digests, sorted);
    let listed =
        store.digests().unwrap().iter().map(|digest| digest.to_bytes()).collect::<Vec<_>>();
    assert_eq!(listed, sorted);
    assert_eq!(verify_store(&store).unwrap().verified_count, 4);
}

#[test]
fn configurations_have_defaults() {
    assert_eq!(Buffered::default(), Buffered::new(8192));
    assert_eq!(Compressed::default(), Compressed::new(3, 8192));
    assert_eq!(CopySummary::default().copied, 0);
}

#[test]
fn content_fits_up_to_the_limit() {
    assert!(fits(MAX_CONTENT_LEN, 0));
    assert!(!fits(MAX_CONTENT_LEN + 1, 0));
    assert!(!fits(MAX_CONTENT_LEN, 1));
    assert!(fits(MAX_CONTENT_LEN - 3, 1));
    assert!(!fits(usize::MAX, usize::MAX));
}

#[test]
fn chunks_end_where_the_stream_was_flushed() {
    let parts = |flushes: Vec<usize>| split_chunks(b"abcdef", &flushes);

    assert_eq!(parts(vec![]), vec![b"abcdef".to_vec()]);
    assert_eq!(
        parts(vec![2, 2, 5]),
        vec![b"ab".to_vec(), b"".to_vec(), b"cde".to_vec(), b"f".to_vec()]
    );
    assert_eq!(parts(vec![1, 6]).concat(), b"abcdef");
}
