use archivindex_wbm::context::Context;
use archivindex_wbm::contexts::wxj;
use archivindex_wbm::digest::Sha1Digest;
use archivindex_wbm::format::Format;
use archivindex_wbm::reader::SnapshotReader;
use archivindex_wbm::export::{check_exported, ExportPlan};
use archivindex_wbm::merge::{merge_loose, DrainError, Merge, Merged};
use archivindex_wbm::transfer::{classify_loose, copy_through, LooseContent};
use archivindex_wbm::writer::SnapshotWriter;

/// Serialized snapshot lines and their digests, sorted strictly ascending by digest, one per distinct
/// generated content value.
fn sorted_entries(context: &Context, count: usize) -> Vec<(Sha1Digest, String)> {
    let mut entries: Vec<(Sha1Digest, String)> = (0..count)
        .map(|id| {
            let bytes = format!("{{\"created_at\":\"day {id}\"}}\n");
            let snapshot = context
                .unprocessed_snapshot(&Format::Utf8, bytes.as_bytes())
                .expect("snapshot from bytes");
            (snapshot.digest, snapshot.display(context, None).to_string().expect("a line"))
        })
        .collect();
    entries.sort_by_key(|(digest, _)| *digest);
    entries
}

/// A snapshot reader over the given serialized lines.
fn input_reader(entries: &[&(Sha1Digest, String)]) -> SnapshotReader {
    let joined = entries.iter().fold(String::new(), |mut joined, (_, line)| {
        joined.push_str(line);
        joined.push('\n');
        joined
    });
    SnapshotReader::new(&joined)
}

/// The digests of every snapshot in an output, in order.
fn output_digests(output: SnapshotWriter) -> Vec<Sha1Digest> {
    let mut reader = SnapshotReader::new(&output.finish());
    let mut digests = Vec::new();
    while let Some(result) = reader.next() {
        digests.push(result.expect("parse output line").digest);
    }
    digests
}

fn no_urls(count: usize) -> Vec<Option<String>> {
    vec![None; count]
}

#[test]
fn copy_through_copies_up_to_a_present_digest() {
    let context = wxj::context();
    let entries = sorted_entries(&context, 3);

    let mut input = input_reader(&entries.iter().collect::<Vec<_>>());
    let mut output = SnapshotWriter::new(context);

    let found = copy_through(&mut input, &mut output, &entries[1].0, &no_urls(3))
        .expect("copy_through");
    assert!(found, "the target digest is present in the input");

    // The reader is positioned at the entry after the target.
    let next = input.next().expect("an entry remains").expect("parse remaining entry");
    assert_eq!(next.digest, entries[2].0);

    assert_eq!(output_digests(output), vec![entries[0].0, entries[1].0]);
}

#[test]
fn copy_through_reports_an_absent_digest_and_leaves_the_reader_positioned() {
    let context = wxj::context();
    let entries = sorted_entries(&context, 4);

    // The input holds every entry except entries[1], whose digest is then requested.
    let mut input = input_reader(&[&entries[0], &entries[2], &entries[3]]);
    let mut output = SnapshotWriter::new(context);

    let found = copy_through(&mut input, &mut output, &entries[1].0, &no_urls(3))
        .expect("first call");
    assert!(!found, "the target digest is absent from the input");

    // The reader stopped before entries[2], so the next ascending call still finds it.
    let found = copy_through(&mut input, &mut output, &entries[2].0, &no_urls(3))
        .expect("second call");
    assert!(found, "the next digest is present in the input");

    assert_eq!(output_digests(output), vec![entries[0].0, entries[2].0]);
}

#[test]
fn copy_through_interleaves_successive_ascending_digests() {
    let context = wxj::context();
    let entries = sorted_entries(&context, 6);

    let mut input = input_reader(&entries.iter().collect::<Vec<_>>());
    let mut output = SnapshotWriter::new(context);

    assert!(
        copy_through(&mut input, &mut output, &entries[1].0, &no_urls(6)).expect("first call")
    );
    assert!(
        copy_through(&mut input, &mut output, &entries[4].0, &no_urls(6)).expect("second call")
    );

    // Drain the remaining entries.
    while let Some(result) = input.next() {
        output
            .write_snapshot(&result.expect("parse remaining entry"), None)
            .expect("write remaining entry");
    }

    assert_eq!(
        output_digests(output),
        entries.iter().map(|(digest, _)| *digest).collect::<Vec<_>>()
    );
}

#[test]
fn copy_through_leaves_a_line_that_cannot_be_read() {
    let context = wxj::context();
    let entries = sorted_entries(&context, 2);
    let mut input = SnapshotReader::new(&format!("{}\nnothing\n", entries[0].1));
    let mut output = SnapshotWriter::new(context);

    assert_eq!(copy_through(&mut input, &mut output, &entries[1].0, &no_urls(2)), Ok(false));
    assert_eq!(input.position(), 1);
    assert!(input.next().expect("a line remains").is_err());
}

#[test]
fn loose_content_is_told_apart_by_its_start() {
    assert_eq!(classify_loose("{\"created_at\":\"x\"}\r\r\n"), LooseContent::Flat);
    assert_eq!(classify_loose("{\"data\":{}}"), LooseContent::Data);
    assert_eq!(classify_loose(" {\"data\":{}}"), LooseContent::Other);
    assert_eq!(classify_loose("{\"data\":\n{}}"), LooseContent::InternalLineBreak);
    assert_eq!(classify_loose("\u{3000}\n{\"data\":{}}\n"), LooseContent::Other);
    assert_eq!(classify_loose(""), LooseContent::Other);
}

#[test]
fn an_export_passes_over_what_is_absent() {
    let digests = sorted_entries(&wxj::context(), 5)
        .into_iter()
        .map(|(digest, _)| digest)
        .collect::<Vec<_>>();
    // Requested out of order and twice.
    let mut plan = ExportPlan::new(&vec![digests[4], digests[1], digests[0], digests[1]]);

    assert_eq!(plan.advance(&digests[0]), (vec![], true));
    assert_eq!(plan.advance(&digests[2]), (vec![digests[1]], false));
    assert!(!plan.is_done());
    assert_eq!(plan.rest(), vec![digests[4]]);
    assert_eq!(plan.advance(&digests[4]), (vec![], true));
    assert!(plan.is_done());
}

#[test]
fn an_exported_file_is_checked_against_its_digest() {
    let digest = Sha1Digest::compute(b"content");

    assert_eq!(check_exported(digest, b"content"), Ok(()));
    let mismatch = check_exported(digest, b"contents").unwrap_err();
    assert_eq!(mismatch.expected, digest);
    assert_eq!(mismatch.actual, Sha1Digest::compute(b"contents"));
}

/// The tweets of a format with four digests each, in digest order.
fn tweets(start: &str) -> Vec<(Sha1Digest, String)> {
    let mut tweets = (0..4)
        .map(|id| {
            let content = format!("{{\"{start}\":{id}}}\n");
            (Sha1Digest::compute(content.as_bytes()), content)
        })
        .collect::<Vec<_>>();
    tweets.sort_by_key(|(digest, _)| digest.to_bytes());
    tweets
}

fn merge_of(contents: &[&(Sha1Digest, String)]) -> Merge {
    let mut writer = SnapshotWriter::new(wxj::context());
    for (digest, content) in contents {
        writer.write(*digest, content.as_bytes()).expect("a line");
    }
    Merge {
        reader: SnapshotReader::new(&writer.finish()),
        writer: SnapshotWriter::new(wxj::context()),
        inferred_urls: no_urls(contents.len()),
    }
}

#[test]
fn loose_files_are_merged_in_digest_order() {
    let flat_tweets = tweets("created_at");
    let data_tweets = tweets("data");
    let mut flat = merge_of(&[&flat_tweets[1], &flat_tweets[3]]);
    let mut data = merge_of(&[&data_tweets[0], &data_tweets[2]]);
    let mut loose = flat_tweets.iter().chain(&data_tweets).cloned().collect::<Vec<_>>();
    let other = (Sha1Digest::compute(b"[]"), "[]".to_string());
    let broken = "{\"data\":\n0}".to_string();
    loose.push(other.clone());
    loose.push((Sha1Digest::compute(broken.as_bytes()), broken.clone()));
    loose.sort_by_key(|(digest, _)| digest.to_bytes());

    for (digest, content) in &loose {
        let expected = if [&flat_tweets[1], &flat_tweets[3], &data_tweets[0], &data_tweets[2]]
            .iter()
            .any(|tweet| tweet.0 == *digest)
        {
            Merged::Found
        } else if *content == other.1 {
            Merged::Other
        } else if *content == broken {
            Merged::InternalLineBreak
        } else if content.starts_with("{\"data\":") {
            Merged::Data
        } else {
            Merged::Flat
        };
        assert_eq!(merge_loose(&mut flat, &mut data, digest, Some(content)), Ok(expected));
    }
    flat.drain().expect("the rest is copied");
    data.drain().expect("the rest is copied");

    let all = |tweets: &[(Sha1Digest, String)]| {
        tweets.iter().map(|(digest, _)| *digest).collect::<Vec<_>>()
    };
    assert_eq!(output_digests(flat.writer), all(&flat_tweets));
    assert_eq!(output_digests(data.writer), all(&data_tweets));
}

#[test]
fn a_loose_file_that_cannot_be_read_is_left_out() {
    let flat_tweets = tweets("created_at");
    let mut flat = merge_of(&[&flat_tweets[1], &flat_tweets[2]]);
    let mut data = merge_of(&[]);

    assert_eq!(
        merge_loose(&mut flat, &mut data, &flat_tweets[0].0, None),
        Ok(Merged::Unreadable)
    );
    // Where a file has the digest, the content does not matter.
    assert_eq!(merge_loose(&mut flat, &mut data, &flat_tweets[1].0, None), Ok(Merged::Found));
    flat.drain().expect("the rest is copied");
    assert_eq!(output_digests(flat.writer), vec![flat_tweets[1].0, flat_tweets[2].0]);
}

#[test]
fn a_merge_ends_at_a_line_that_cannot_be_read() {
    let flat_tweets = tweets("created_at");
    let mut writer = SnapshotWriter::new(wxj::context());
    writer.write(flat_tweets[0].0, flat_tweets[0].1.as_bytes()).expect("a line");
    let mut merge = Merge {
        reader: SnapshotReader::new(&format!("{}nothing\n", writer.finish())),
        writer: SnapshotWriter::new(wxj::context()),
        inferred_urls: no_urls(2),
    };

    assert!(matches!(merge.drain(), Err(DrainError::Read(_))));
    assert_eq!(output_digests(merge.writer), vec![flat_tweets[0].0]);
}
