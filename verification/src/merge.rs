//! Merging loose content into digest-ordered snapshot files.
use vstd::prelude::*;

use crate::digest;
use crate::digest::Sha1Digest;
use crate::exact;
use crate::exact::LineView;
use crate::reader;
use crate::reader::SnapshotReader;
use crate::text;
use crate::transfer;
use crate::transfer::{borrow_url, classify_loose, copy_through, Copied, LooseContent};
use crate::validation;
use crate::writer;
use crate::writer::{SnapshotWriter, WriterView};

verus! {

/// A digest-ordered snapshot file that loose content is merged into.
#[derive(Debug)]
pub struct Merge {
    /// What is left of the file.
    pub reader: SnapshotReader,
    /// The file with the loose content.
    pub writer: SnapshotWriter,
    /// For each line of the file, what the URL query of the writer's context gives for its content.
    pub inferred_urls: Vec<Option<String>>,
}

/// A snapshot file that loose content is merged into, as texts.
#[verifier::ext_equal]
pub struct MergeView {
    /// The lines of the file.
    pub all: Seq<Seq<char>>,
    /// The URLs that their content implies.
    pub urls: Seq<Option<Seq<char>>>,
    /// How many lines were copied.
    pub count: nat,
    /// What was written.
    pub output: WriterView,
}

impl View for Merge {
    type V = MergeView;

    open spec fn view(&self) -> MergeView {
        MergeView {
            all: self.reader.all(),
            urls: transfer::url_views(self.inferred_urls@),
            count: self.reader.read_count(),
            output: self.writer@,
        }
    }
}

impl WriterView {
    /// The writer after loose content that is named by a digest, which is passed over if it has the digest
    /// of the last line.
    pub open spec fn added(self, named: nat, content: Seq<char>) -> WriterView {
        let bytes = vstd::utf8::encode_utf8(content);
        let view = validation::unprocessed_view(content, bytes);
        if self.last == Some(named) {
            self
        } else {
            WriterView {
                output: self.output + exact::line_text(self.line(view, None)) + seq!['\n'],
                last: Some(view.digest),
                ..self
            }
        }
    }
}

impl MergeView {
    /// How a copy up to and including a digest ends, and the file then.
    pub open spec fn copied(self, digest: nat) -> (Copied, MergeView) {
        let (copied, count, output) = transfer::copy(self.all, self.urls, self.count, self.output, digest);
        (copied, MergeView { count, output, ..self })
    }

    /// The file with loose content.
    pub open spec fn added(self, named: nat, content: Seq<char>) -> MergeView {
        MergeView { output: self.output.added(named, content), ..self }
    }
}

/// What became of a loose file.
#[derive(Clone, Copy, Debug, PartialEq, Eq, Structural)]
pub enum Merged {
    /// One of the snapshot files has its digest.
    Found,
    /// It was added to the file of tweets in the flat format.
    Flat,
    /// It was added to the file of tweets in the data format.
    Data,
    /// It has a line break inside, and is left out.
    InternalLineBreak,
    /// It is no tweet, and is left out.
    Other,
    /// It cannot be read.
    Unreadable,
}

/// What becomes of a loose file, and the files of tweets in the flat and in the data format then. `None` is
/// for a snapshot that cannot be written.
pub open spec fn merged(
    flat: MergeView,
    data: MergeView,
    named: nat,
    content: Option<Seq<char>>,
) -> (Option<Merged>, MergeView, MergeView) {
    let (in_flat, next_flat) = flat.copied(named);
    let (in_data, next_data) = data.copied(named);
    if in_flat is Refused {
        (None, next_flat, data)
    } else if in_data is Refused {
        (None, next_flat, next_data)
    } else if in_flat is Found || in_data is Found {
        (Some(Merged::Found), next_flat, next_data)
    } else {
        match content {
            None => (Some(Merged::Unreadable), next_flat, next_data),
            Some(content) => match transfer::loose_content(content) {
                LooseContent::Flat => (
                    Some(Merged::Flat),
                    next_flat.added(named, content),
                    next_data,
                ),
                LooseContent::Data => (
                    Some(Merged::Data),
                    next_flat,
                    next_data.added(named, content),
                ),
                LooseContent::InternalLineBreak => (
                    Some(Merged::InternalLineBreak),
                    next_flat,
                    next_data,
                ),
                LooseContent::Other => (Some(Merged::Other), next_flat, next_data),
            },
        }
    }
}

/// A failure to copy the rest of a snapshot file.
#[derive(Debug)]
pub enum DrainError {
    /// A line cannot be read.
    Read(reader::Error),
    /// A snapshot cannot be written.
    Write(writer::Error),
}

/// How a copy of the rest of a file ends.
pub enum Drained {
    /// All lines were copied.
    Done,
    /// A line cannot be read.
    Unreadable,
    /// A snapshot cannot be written.
    Refused,
}

/// How a copy of all lines from one on ends, how many lines are read then, and what the writer holds.
pub open spec fn drain(
    all: Seq<Seq<char>>,
    inferred: Seq<Option<Seq<char>>>,
    count: nat,
    output: WriterView,
) -> (Drained, nat, WriterView)
    decreases all.len() - count,
{
    if count >= all.len() {
        (Drained::Done, count, output)
    } else {
        match transfer::line_view(all[count as int]) {
            None => (Drained::Unreadable, count + 1, output),
            Some(view) => {
                let url = inferred[count as int];
                if output.refuses(view, url) {
                    (Drained::Refused, count + 1, output)
                } else {
                    drain(all, inferred, count + 1, output.wrote(view, url))
                }
            },
        }
    }
}

impl Merge {
    /// Whether there is an inferred URL, or the lack of one, for each line.
    pub open spec fn is_well_formed(&self) -> bool {
        self.inferred_urls@.len() >= self.reader.all().len()
    }

    /// Whether a file differs from this at most in how far it was copied.
    pub open spec fn continues(&self, before: Merge) -> bool {
        &&& self.inferred_urls == before.inferred_urls
        &&& self.reader.source() == before.reader.source()
        &&& self.writer.held_context() == before.writer.held_context()
    }

    /// Copies the snapshots with digests up to and including `digest`, and tells whether there is one with
    /// exactly that digest.
    pub fn copy_through(&mut self, digest: &Sha1Digest) -> (result: Result<bool, writer::Error>)
        requires
            old(self).is_well_formed(),
        ensures
            final(self).is_well_formed(),
            final(self).continues(*old(self)),
            final(self)@ == old(self)@.copied(digest@).1,
            match old(self)@.copied(digest@).0 {
                Copied::Found => result == Ok::<bool, writer::Error>(true),
                Copied::Missing => result == Ok::<bool, writer::Error>(false),
                Copied::Refused => result matches Err(error) && error is Unwritable,
            },
    {
        let result = copy_through(
            &mut self.reader,
            &mut self.writer,
            digest,
            &self.inferred_urls,
        );
        assert(self@ =~= old(self)@.copied(digest@).1);
        result
    }

    /// Adds loose content.
    fn add(&mut self, digest: &Sha1Digest, content: &str)
        requires
            old(self).is_well_formed(),
        ensures
            final(self).is_well_formed(),
            final(self).continues(*old(self)),
            final(self)@ == old(self)@.added(digest@, content@),
    {
        proof {
            vstd::utf8::encode_utf8_valid_utf8(content@);
            vstd::utf8::encode_utf8_decode_utf8(content@);
        }
        let result = self.writer.write(*digest, content.as_bytes());
        assert(result is Ok);
        assert(self@ =~= old(self)@.added(digest@, content@));
    }

    /// Copies the rest of the file.
    pub fn drain(&mut self) -> (result: Result<(), DrainError>)
        requires
            old(self).is_well_formed(),
        ensures
            final(self).is_well_formed(),
            final(self).continues(*old(self)),
            ({
                let (drained, count, output) = drain(
                    old(self)@.all,
                    old(self)@.urls,
                    old(self)@.count,
                    old(self)@.output,
                );
                &&& final(self)@ == (MergeView { count, output, ..old(self)@ })
                &&& match drained {
                    Drained::Done => result is Ok,
                    Drained::Unreadable => result matches Err(DrainError::Read(error))
                        && reader::is_read(
                        Err(error),
                        old(self)@.all[count - 1],
                        count,
                        old(self).reader.source(),
                    ),
                    Drained::Refused => result matches Err(DrainError::Write(error))
                        && error is Unwritable,
                }
            }),
    {
        let ghost start = self@;
        let ghost expected = drain(start.all, start.urls, start.count, start.output);
        loop
            invariant
                start == old(self)@,
                self.is_well_formed(),
                self.continues(*old(self)),
                self@.all == start.all,
                self@.urls == start.urls,
                expected == drain(start.all, start.urls, start.count, start.output),
                drain(start.all, start.urls, self@.count, self@.output) == expected,
            decreases start.all.len() - self@.count,
        {
            let ghost count = self@.count;
            let number: usize = self.reader.position();
            match self.reader.next() {
                Some(Ok(snapshot)) => {
                    proof {
                        reveal(transfer::line_view);
                        assert(transfer::line_view(start.all[count as int]) == Some(
                            exact::snapshot_view(snapshot),
                        ));
                        assert(start.urls[count as int] == transfer::url_view(
                            self.inferred_urls@[number as int],
                        ));
                    }
                    let url = borrow_url(&self.inferred_urls[number]);
                    match self.writer.write_snapshot(&snapshot, url) {
                        Ok(_) => {},
                        Err(error) => return Err(DrainError::Write(error)),
                    }
                },
                Some(Err(error)) => {
                    proof {
                        reveal(transfer::line_view);
                        assert(transfer::line_view(start.all[count as int]) is None);
                    }
                    return Err(DrainError::Read(error));
                },
                None => {
                    return Ok(());
                },
            }
        }
    }
}

/// Merges one loose file into the files of tweets in the flat and in the data format.
///
/// Both are copied up to and including `digest`. A file that one of them has is not added again. Of another,
/// `content` is its text, or `None` if it cannot be read: it is added to the file that its class says, or
/// left out.
pub fn merge_loose(
    flat: &mut Merge,
    data: &mut Merge,
    digest: &Sha1Digest,
    content: Option<&str>,
) -> (result: Result<Merged, writer::Error>)
    requires
        old(flat).is_well_formed(),
        old(data).is_well_formed(),
    ensures
        final(flat).is_well_formed(),
        final(data).is_well_formed(),
        final(flat).continues(*old(flat)),
        final(data).continues(*old(data)),
        ({
            let (becomes, next_flat, next_data) = merged(
                old(flat)@,
                old(data)@,
                digest@,
                text::str_view(content),
            );
            &&& final(flat)@ == next_flat
            &&& final(data)@ == next_data
            &&& match becomes {
                Some(becomes) => result == Ok::<Merged, writer::Error>(becomes),
                None => result matches Err(error) && error is Unwritable,
            }
        }),
{
    let in_flat: bool = match flat.copy_through(digest) {
        Ok(found) => found,
        Err(error) => return Err(error),
    };
    let in_data: bool = match data.copy_through(digest) {
        Ok(found) => found,
        Err(error) => return Err(error),
    };
    if in_flat || in_data {
        return Ok(Merged::Found);
    }
    let content: &str = match content {
        Some(content) => content,
        None => return Ok(Merged::Unreadable),
    };
    match classify_loose(content) {
        LooseContent::Flat => {
            flat.add(digest, content);
            Ok(Merged::Flat)
        },
        LooseContent::Data => {
            data.add(digest, content);
            Ok(Merged::Data)
        },
        LooseContent::InternalLineBreak => Ok(Merged::InternalLineBreak),
        LooseContent::Other => Ok(Merged::Other),
    }
}

/// The snapshots on lines, each with the URL that its content implies.
pub open spec fn snapshots_on(
    all: Seq<Seq<char>>,
    urls: Seq<Option<Seq<char>>>,
    from: nat,
    to: nat,
) -> Seq<(LineView, Option<Seq<char>>)> {
    Seq::new(
        (to - from) as nat,
        |i: int| (transfer::line_view(all[from + i]).unwrap(), urls[from + i]),
    )
}

/// Whether the lines from one on hold snapshots, in strictly ascending digest order.
pub open spec fn is_digest_sorted(all: Seq<Seq<char>>, from: nat) -> bool {
    &&& forall|i: int| from <= i < all.len() ==> transfer::line_view(#[trigger] all[i]) is Some
    &&& forall|i: int, j: int|
        from <= i < j < all.len() ==> transfer::line_view(#[trigger] all[i]).unwrap().digest < transfer::line_view(
            #[trigger] all[j],
        ).unwrap().digest
}

/// Writing the snapshots on lines is writing the first and then the rest.
proof fn lemma_first_snapshot(
    all: Seq<Seq<char>>,
    urls: Seq<Option<Seq<char>>>,
    from: nat,
    to: nat,
    output: WriterView,
)
    requires
        from < to,
    ensures
        output.wrote_all(snapshots_on(all, urls, from, to)) == output.wrote(
            transfer::line_view(all[from as int]).unwrap(),
            urls[from as int],
        ).wrote_all(snapshots_on(all, urls, from + 1, to)),
{
    let first = seq![(transfer::line_view(all[from as int]).unwrap(), urls[from as int])];
    let rest = snapshots_on(all, urls, from + 1, to);
    assert(snapshots_on(all, urls, from, to) =~= first + rest);
    writer::law_written_in_parts(output, first, rest);
    assert(first.drop_last() =~= Seq::empty());
    assert(output.wrote_all(first.drop_last()) == output);
}

/// A copy up to a digest writes the snapshots with digests up to it.
proof fn lemma_copy(
    all: Seq<Seq<char>>,
    urls: Seq<Option<Seq<char>>>,
    count: nat,
    output: WriterView,
    digest: nat,
)
    requires
        count <= all.len(),
        !(transfer::copy(all, urls, count, output, digest).0 is Refused),
        is_digest_sorted(all, count),
    ensures
        ({
            let (copied, next, written) = transfer::copy(all, urls, count, output, digest);
            &&& count <= next <= all.len()
            &&& written == output.wrote_all(snapshots_on(all, urls, count, next))
            &&& forall|i: int|
                count <= i < next ==> transfer::line_view(#[trigger] all[i]).unwrap().digest <= digest
            &&& copied is Missing ==> forall|i: int|
                count <= i < next ==> transfer::line_view(#[trigger] all[i]).unwrap().digest != digest
            &&& forall|i: int|
                next <= i < all.len() ==> digest < transfer::line_view(#[trigger] all[i]).unwrap().digest
        }),
    decreases all.len() - count,
{
    if count < all.len() {
        let view = transfer::line_view(all[count as int]).unwrap();
        let url = urls[count as int];
        let next = transfer::copy(all, urls, count, output, digest).1;
        if view.digest > digest {
            assert(snapshots_on(all, urls, count, count) =~= Seq::empty());
        } else if view.digest == digest {
            lemma_first_snapshot(all, urls, count, next, output);
            assert(snapshots_on(all, urls, next, next) =~= Seq::empty());
        } else {
            lemma_copy(all, urls, count + 1, output.wrote(view, url), digest);
            lemma_first_snapshot(all, urls, count, next, output);
        }
    } else {
        assert(snapshots_on(all, urls, count, count) =~= Seq::empty());
    }
}

/// A copy of the rest of a file writes all snapshots that are left.
proof fn lemma_drain(
    all: Seq<Seq<char>>,
    urls: Seq<Option<Seq<char>>>,
    count: nat,
    output: WriterView,
)
    requires
        count <= all.len(),
        drain(all, urls, count, output).0 is Done,
    ensures
        drain(all, urls, count, output).2 == output.wrote_all(
            snapshots_on(all, urls, count, all.len()),
        ),
    decreases all.len() - count,
{
    if count < all.len() {
        let view = transfer::line_view(all[count as int]).unwrap();
        lemma_drain(all, urls, count + 1, output.wrote(view, urls[count as int]));
        lemma_first_snapshot(all, urls, count, all.len(), output);
    } else {
        assert(snapshots_on(all, urls, count, count) =~= Seq::empty());
    }
}

/// Whether snapshots hold those on the lines from one on up to another.
pub open spec fn hold_lines(
    given: Seq<(LineView, Option<Seq<char>>)>,
    file: MergeView,
    from: nat,
    to: nat,
) -> bool {
    forall|i: int|
        from <= i < to ==> given.contains(
            (transfer::line_view(#[trigger] file.all[i]).unwrap(), file.urls[i]),
        )
}

/// Whether a file was merged up to a digest by writing these snapshots.
pub open spec fn is_merged_to(
    start: MergeView,
    now: MergeView,
    given: Seq<(LineView, Option<Seq<char>>)>,
    reached: Option<nat>,
) -> bool {
    &&& now.all == start.all
    &&& now.urls == start.urls
    &&& start.count <= now.count <= now.all.len()
    &&& now.output == start.output.wrote_all(given)
    &&& writer::are_ascending(given)
    &&& hold_lines(given, now, start.count, now.count)
    &&& forall|k: int|
        0 <= k < given.len() ==> (reached matches Some(reached) && (
        #[trigger] given[k]).0.digest <= reached)
    &&& reached matches Some(reached) ==> forall|i: int|
        now.count <= i < now.all.len() ==> reached < transfer::line_view(#[trigger] now.all[i]).unwrap().digest
}

/// What was merged with more snapshots after it.
proof fn lemma_extended(
    start: MergeView,
    now: MergeView,
    next: MergeView,
    given: Seq<(LineView, Option<Seq<char>>)>,
    more: Seq<(LineView, Option<Seq<char>>)>,
)
    requires
        now.output == start.output.wrote_all(given),
        next.output == now.output.wrote_all(more),
        next.all == now.all,
        next.urls == now.urls,
        writer::are_ascending(given),
        writer::are_ascending(more),
        forall|i: int, j: int|
            0 <= i < given.len() && 0 <= j < more.len() ==> (#[trigger] given[i]).0.digest < (
            #[trigger] more[j]).0.digest,
        hold_lines(given, now, start.count, now.count),
        now.count <= next.count <= now.all.len(),
        hold_lines(more, now, now.count, next.count),
    ensures
        next.output == start.output.wrote_all(given + more),
        writer::are_ascending(given + more),
        hold_lines(given + more, next, start.count, next.count),
{
    writer::law_written_in_parts(start.output, given, more);
    let all = given + more;
    assert forall|i: int, j: int| 0 <= i < j < all.len() implies (#[trigger] all[i]).0.digest < (
    #[trigger] all[j]).0.digest by {
        if j < given.len() {
            assert(given[i].0.digest < given[j].0.digest);
        } else if i < given.len() {
            assert(given[i].0.digest < more[j - given.len()].0.digest);
        } else {
            assert(more[i - given.len()].0.digest < more[j - given.len()].0.digest);
        }
    }
    assert forall|i: int| start.count <= i < next.count implies all.contains(
        (transfer::line_view(#[trigger] next.all[i]).unwrap(), next.urls[i]),
    ) by {
        let item = (transfer::line_view(next.all[i]).unwrap(), next.urls[i]);
        if i < now.count {
            assert(given.contains((transfer::line_view(now.all[i]).unwrap(), now.urls[i])));
            let k = choose|k: int| 0 <= k < given.len() && given[k] == item;
            assert(all[k] == item);
        } else {
            assert(more.contains((transfer::line_view(now.all[i]).unwrap(), now.urls[i])));
            let k = choose|k: int| 0 <= k < more.len() && more[k] == item;
            assert(all[given.len() + k] == item);
        }
    }
}

/// The snapshots on lines in ascending order come in ascending order.
proof fn lemma_snapshots_on(file: MergeView, from: nat, to: nat)
    requires
        from <= to <= file.all.len(),
        is_digest_sorted(file.all, from),
    ensures
        writer::are_ascending(snapshots_on(file.all, file.urls, from, to)),
        hold_lines(snapshots_on(file.all, file.urls, from, to), file, from, to),
{
    let more = snapshots_on(file.all, file.urls, from, to);
    assert forall|i: int, j: int| 0 <= i < j < more.len() implies (#[trigger] more[i]).0.digest < (
    #[trigger] more[j]).0.digest by {
        assert(transfer::line_view(file.all[from + i]).unwrap().digest < transfer::line_view(
            file.all[from + j],
        ).unwrap().digest);
    }
    assert forall|i: int| from <= i < to implies more.contains(
        (transfer::line_view(#[trigger] file.all[i]).unwrap(), file.urls[i]),
    ) by {
        assert(more[i - from] == (transfer::line_view(file.all[i]).unwrap(), file.urls[i]));
    }
}

/// A copy up to a greater digest.
proof fn lemma_copied_to(
    start: MergeView,
    now: MergeView,
    given: Seq<(LineView, Option<Seq<char>>)>,
    reached: Option<nat>,
    digest: nat,
) -> (more: Seq<(LineView, Option<Seq<char>>)>)
    requires
        is_merged_to(start, now, given, reached),
        is_digest_sorted(start.all, start.count),
        reached matches Some(reached) ==> reached < digest,
        !(now.copied(digest).0 is Refused),
    ensures
        is_merged_to(start, now.copied(digest).1, given + more, Some(digest)),
        now.copied(digest).0 is Missing ==> forall|k: int|
            0 <= k < (given + more).len() ==> (#[trigger] (given + more)[k]).0.digest < digest,
{
    let next = now.copied(digest).1;
    let more = snapshots_on(now.all, now.urls, now.count, next.count);
    lemma_copy(now.all, now.urls, now.count, now.output, digest);
    lemma_snapshots_on(now, now.count, next.count);
    assert forall|i: int, j: int| 0 <= i < given.len() && 0 <= j < more.len() implies (
    #[trigger] given[i]).0.digest < (#[trigger] more[j]).0.digest by {
        assert(more[j].0 == transfer::line_view(now.all[now.count + j]).unwrap());
    }
    lemma_extended(start, now, next, given, more);
    let all = given + more;
    assert forall|k: int| 0 <= k < all.len() implies {
        &&& (#[trigger] all[k]).0.digest <= digest
        &&& now.copied(digest).0 is Missing ==> all[k].0.digest < digest
    } by {
        if k < given.len() {
            assert(given[k].0.digest <= reached.unwrap());
        } else {
            assert(all[k].0 == transfer::line_view(now.all[now.count + (k - given.len())]).unwrap());
        }
    }
    more
}

/// Loose content behind everything that was written.
proof fn lemma_added(
    start: MergeView,
    now: MergeView,
    given: Seq<(LineView, Option<Seq<char>>)>,
    digest: nat,
    content: Seq<char>,
)
    requires
        is_merged_to(start, now, given, Some(digest)),
        start.output.last is None,
        forall|k: int| 0 <= k < given.len() ==> (#[trigger] given[k]).0.digest < digest,
        digest::digest_of(vstd::utf8::encode_utf8(content)) == digest,
    ensures
        is_merged_to(
            start,
            now.added(digest, content),
            given.push(loose_snapshot(content)),
            Some(digest),
        ),
{
    let view = validation::unprocessed_view(content, vstd::utf8::encode_utf8(content));
    let more = seq![loose_snapshot(content)];
    writer::law_ascending_all_kept(start.output, given);
    writer::law_output_is_kept_lines(start.output, given);
    assert(!now.output.skips(view));
    assert(more.drop_last() =~= Seq::empty());
    assert(now.output.wrote_all(more.drop_last()) == now.output);
    assert(now.added(digest, content).output =~= now.output.wrote_all(more));
    lemma_extended(start, now, now.added(digest, content), given, more);
    assert(given + more =~= given.push(loose_snapshot(content)));
}

/// The files after loose files are merged into them one after the other, or `None` if a snapshot cannot be
/// written.
pub open spec fn merged_all(
    flat: MergeView,
    data: MergeView,
    loose: Seq<(nat, Option<Seq<char>>)>,
) -> Option<(MergeView, MergeView)>
    decreases loose.len(),
{
    if loose.len() == 0 {
        Some((flat, data))
    } else {
        match merged_all(flat, data, loose.drop_last()) {
            None => None,
            Some((flat, data)) => {
                let (becomes, flat, data) = merged(flat, data, loose.last().0, loose.last().1);
                if becomes is Some {
                    Some((flat, data))
                } else {
                    None
                }
            },
        }
    }
}

/// The digest of the last loose file.
pub open spec fn last_digest(loose: Seq<(nat, Option<Seq<char>>)>) -> Option<nat> {
    if loose.len() == 0 {
        None
    } else {
        Some(loose.last().0)
    }
}

/// Whether loose files come in strictly ascending digest order, and each has the digest that it is named
/// by.
pub open spec fn are_sound(loose: Seq<(nat, Option<Seq<char>>)>) -> bool {
    &&& forall|i: int, j: int|
        0 <= i < j < loose.len() ==> (#[trigger] loose[i]).0 < (#[trigger] loose[j]).0
    &&& forall|i: int|
        0 <= i < loose.len() ==> ((#[trigger] loose[i]).1 matches Some(content)
            ==> digest::digest_of(vstd::utf8::encode_utf8(content)) == loose[i].0)
}

/// What becomes of loose file `i` when it is merged after those before it.
pub open spec fn becomes(
    flat: MergeView,
    data: MergeView,
    loose: Seq<(nat, Option<Seq<char>>)>,
    i: int,
) -> Option<Merged> {
    match merged_all(flat, data, loose.take(i)) {
        Some((flat, data)) => merged(flat, data, loose[i].0, loose[i].1).0,
        None => None,
    }
}

/// The snapshot of loose content.
pub open spec fn loose_snapshot(content: Seq<char>) -> (LineView, Option<Seq<char>>) {
    (validation::unprocessed_view(content, vstd::utf8::encode_utf8(content)), None)
}

/// Whether snapshots hold the loose files that were merged as `class`.
pub open spec fn hold_loose(
    given: Seq<(LineView, Option<Seq<char>>)>,
    flat: MergeView,
    data: MergeView,
    loose: Seq<(nat, Option<Seq<char>>)>,
    class: Merged,
) -> bool {
    forall|i: int|
        0 <= i < loose.len() && #[trigger] becomes(flat, data, loose, i) == Some(class)
            ==> loose[i].1 is Some && given.contains(loose_snapshot(loose[i].1.unwrap()))
}

/// Snapshots that hold the loose files but for the last hold all, if the last is among them or becomes
/// something else.
proof fn lemma_hold_loose(
    front: Seq<(LineView, Option<Seq<char>>)>,
    given: Seq<(LineView, Option<Seq<char>>)>,
    flat: MergeView,
    data: MergeView,
    loose: Seq<(nat, Option<Seq<char>>)>,
    class: Merged,
)
    requires
        loose.len() > 0,
        hold_loose(front, flat, data, loose.drop_last(), class),
        front.len() <= given.len(),
        forall|k: int| 0 <= k < front.len() ==> #[trigger] given[k] == front[k],
        becomes(flat, data, loose, loose.len() - 1) == Some(class) ==> loose.last().1 is Some
            && given.contains(loose_snapshot(loose.last().1.unwrap())),
    ensures
        hold_loose(given, flat, data, loose, class),
{
    assert forall|i: int|
        0 <= i < loose.len() && #[trigger] becomes(flat, data, loose, i) == Some(
            class,
        ) implies loose[i].1 is Some && given.contains(loose_snapshot(loose[i].1.unwrap())) by {
        if i < loose.len() - 1 {
            assert(loose.drop_last().take(i) =~= loose.take(i));
            assert(becomes(flat, data, loose.drop_last(), i) == Some(class));
            let item = loose_snapshot(loose[i].1.unwrap());
            let k = choose|k: int| 0 <= k < front.len() && front[k] == item;
            assert(given[k] == item);
        }
    }
}

/// Merging loose files keeps both files in order.
proof fn lemma_merged_all(
    flat: MergeView,
    data: MergeView,
    loose: Seq<(nat, Option<Seq<char>>)>,
) -> (given: (Seq<(LineView, Option<Seq<char>>)>, Seq<(LineView, Option<Seq<char>>)>))
    requires
        flat.count <= flat.all.len(),
        data.count <= data.all.len(),
        is_digest_sorted(flat.all, flat.count),
        is_digest_sorted(data.all, data.count),
        flat.output.last is None,
        data.output.last is None,
        are_sound(loose),
        merged_all(flat, data, loose) is Some,
    ensures
        is_merged_to(
            flat,
            merged_all(flat, data, loose).unwrap().0,
            given.0,
            last_digest(loose),
        ),
        is_merged_to(
            data,
            merged_all(flat, data, loose).unwrap().1,
            given.1,
            last_digest(loose),
        ),
        hold_loose(given.0, flat, data, loose, Merged::Flat),
        hold_loose(given.1, flat, data, loose, Merged::Data),
    decreases loose.len(),
{
    if loose.len() == 0 {
        (Seq::empty(), Seq::empty())
    } else {
        let front = loose.drop_last();
        assert(forall|i: int| 0 <= i < front.len() ==> #[trigger] front[i] == loose[i]);
        let (flat_given, data_given) = lemma_merged_all(flat, data, front);
        let (flat_now, data_now) = merged_all(flat, data, front).unwrap();
        let (digest, content) = loose.last();
        assert(loose[loose.len() - 1] == loose.last());
        let flat_more = lemma_copied_to(flat, flat_now, flat_given, last_digest(front), digest);
        let data_more = lemma_copied_to(data, data_now, data_given, last_digest(front), digest);
        let flat_next = flat_now.copied(digest).1;
        let data_next = data_now.copied(digest).1;
        assert(loose.take(loose.len() - 1) =~= front);
        let mut flat_all = flat_given + flat_more;
        let mut data_all = data_given + data_more;
        match merged(flat_now, data_now, digest, content).0.unwrap() {
            Merged::Flat => {
                lemma_added(flat, flat_next, flat_all, digest, content.unwrap());
                flat_all = flat_all.push(loose_snapshot(content.unwrap()));
                assert(flat_all.last() == loose_snapshot(content.unwrap()));
            },
            Merged::Data => {
                lemma_added(data, data_next, data_all, digest, content.unwrap());
                data_all = data_all.push(loose_snapshot(content.unwrap()));
                assert(data_all.last() == loose_snapshot(content.unwrap()));
            },
            _ => {},
        }
        lemma_hold_loose(flat_given, flat_all, flat, data, loose, Merged::Flat);
        lemma_hold_loose(data_given, data_all, flat, data, loose, Merged::Data);
        (flat_all, data_all)
    }
}

/// Whether what was written for a file is snapshots in strictly ascending digest order, each written once,
/// and those of the file are among them.
pub open spec fn is_sorted_merge(
    file: MergeView,
    output: WriterView,
    given: Seq<(LineView, Option<Seq<char>>)>,
) -> bool {
    &&& output == file.output.wrote_all(given)
    &&& file.output.kept(given) == given
    &&& writer::are_ascending(given)
    &&& hold_lines(given, file, file.count, file.all.len())
}

/// A file that was merged up to a digest is merged when its rest is copied.
proof fn lemma_sorted_merge(
    start: MergeView,
    now: MergeView,
    given: Seq<(LineView, Option<Seq<char>>)>,
    reached: Option<nat>,
) -> (more: Seq<(LineView, Option<Seq<char>>)>)
    requires
        is_merged_to(start, now, given, reached),
        is_digest_sorted(start.all, start.count),
        start.output.last is None,
        drain(now.all, now.urls, now.count, now.output).0 is Done,
    ensures
        is_sorted_merge(
            start,
            drain(now.all, now.urls, now.count, now.output).2,
            given + more,
        ),
{
    let end = MergeView {
        count: now.all.len(),
        output: drain(now.all, now.urls, now.count, now.output).2,
        ..now
    };
    let more = snapshots_on(now.all, now.urls, now.count, now.all.len());
    lemma_drain(now.all, now.urls, now.count, now.output);
    lemma_snapshots_on(now, now.count, now.all.len());
    assert forall|i: int, j: int| 0 <= i < given.len() && 0 <= j < more.len() implies (
    #[trigger] given[i]).0.digest < (#[trigger] more[j]).0.digest by {
        assert(more[j].0 == transfer::line_view(now.all[now.count + j]).unwrap());
    }
    lemma_extended(start, now, end, given, more);
    writer::law_ascending_all_kept(start.output, given + more);
    more
}

/// Snapshots that hold loose files hold them with more behind.
proof fn lemma_hold_more(
    given: Seq<(LineView, Option<Seq<char>>)>,
    more: Seq<(LineView, Option<Seq<char>>)>,
    flat: MergeView,
    data: MergeView,
    loose: Seq<(nat, Option<Seq<char>>)>,
    class: Merged,
)
    requires
        hold_loose(given, flat, data, loose, class),
    ensures
        hold_loose(given + more, flat, data, loose, class),
{
    assert forall|i: int|
        0 <= i < loose.len() && #[trigger] becomes(flat, data, loose, i) == Some(
            class,
        ) implies loose[i].1 is Some && (given + more).contains(
        loose_snapshot(loose[i].1.unwrap()),
    ) by {
        let item = loose_snapshot(loose[i].1.unwrap());
        let k = choose|k: int| 0 <= k < given.len() && given[k] == item;
        assert((given + more)[k] == item);
    }
}

/// Merging keeps files sorted by digest: where the lines of both files and the loose files come in strictly
/// ascending digest order, and the rest of both files is copied at the end, what was written for each is
/// snapshots in strictly ascending digest order, among them those of the file and the loose files that were
/// added to it.
pub proof fn law_merge_is_digest_sorted(
    flat: MergeView,
    data: MergeView,
    loose: Seq<(nat, Option<Seq<char>>)>,
)
    requires
        flat.count <= flat.all.len(),
        data.count <= data.all.len(),
        is_digest_sorted(flat.all, flat.count),
        is_digest_sorted(data.all, data.count),
        flat.output.last is None,
        data.output.last is None,
        are_sound(loose),
    ensures
        merged_all(flat, data, loose) matches Some((merged_flat, merged_data)) ==> {
            let (in_flat, _, flat_output) = drain(
                merged_flat.all,
                merged_flat.urls,
                merged_flat.count,
                merged_flat.output,
            );
            let (in_data, _, data_output) = drain(
                merged_data.all,
                merged_data.urls,
                merged_data.count,
                merged_data.output,
            );
            &&& in_flat is Done ==> exists|given: Seq<(LineView, Option<Seq<char>>)>|
                {
                    &&& #[trigger] is_sorted_merge(flat, flat_output, given)
                    &&& hold_loose(given, flat, data, loose, Merged::Flat)
                }
            &&& in_data is Done ==> exists|given: Seq<(LineView, Option<Seq<char>>)>|
                {
                    &&& #[trigger] is_sorted_merge(data, data_output, given)
                    &&& hold_loose(given, flat, data, loose, Merged::Data)
                }
        },
{
    if let Some((merged_flat, merged_data)) = merged_all(flat, data, loose) {
        let given = lemma_merged_all(flat, data, loose);
        if drain(merged_flat.all, merged_flat.urls, merged_flat.count, merged_flat.output).0 is Done {
            let more = lemma_sorted_merge(flat, merged_flat, given.0, last_digest(loose));
            lemma_hold_more(given.0, more, flat, data, loose, Merged::Flat);
        }
        if drain(merged_data.all, merged_data.urls, merged_data.count, merged_data.output).0 is Done {
            let more = lemma_sorted_merge(data, merged_data, given.1, last_digest(loose));
            lemma_hold_more(given.1, more, flat, data, loose, Merged::Data);
        }
    }
}

/// Whether one of the lines of a file that were not copied yet has a digest.
pub open spec fn has_digest(file: MergeView, digest: nat) -> bool {
    exists|i: int|
        file.count <= i < file.all.len() && transfer::line_view(
            #[trigger] file.all[i],
        ).unwrap().digest == digest
}

/// A copy from a sorted file finds a digest exactly if a line of the file has it, and none is refused where
/// every line can be written.
proof fn lemma_copy_finds(
    all: Seq<Seq<char>>,
    urls: Seq<Option<Seq<char>>>,
    count: nat,
    output: WriterView,
    digest: nat,
)
    requires
        count <= all.len(),
        is_digest_sorted(all, count),
    ensures
        ({
            let copied = transfer::copy(all, urls, count, output, digest).0;
            &&& !(copied is Refused) ==> (copied is Found <==> exists|i: int|
                count <= i < all.len() && transfer::line_view(#[trigger] all[i]).unwrap().digest
                    == digest)
            &&& (forall|i: int|
                count <= i < all.len() ==> exact::is_writable(
                    output.line(transfer::line_view(#[trigger] all[i]).unwrap(), urls[i]),
                )) ==> !(copied is Refused)
        }),
    decreases all.len() - count,
{
    if count < all.len() {
        let view = transfer::line_view(all[count as int]).unwrap();
        let url = urls[count as int];
        if view.digest < digest && !output.refuses(view, url) {
            lemma_copy_finds(all, urls, count + 1, output.wrote(view, url), digest);
            assert forall|i: int| count + 1 <= i < all.len() implies output.line(
                transfer::line_view(#[trigger] all[i]).unwrap(),
                urls[i],
            ) == output.wrote(view, url).line(
                transfer::line_view(all[i]).unwrap(),
                urls[i],
            ) by {}
        }
    }
}

/// What becomes of a loose file depends on nothing but whether a snapshot file has its digest, and on its
/// content: a file that neither has is left out if it cannot be read or has a line break inside, and is
/// otherwise merged as the tweet that its start makes it, however many lines are left in the files. Only a
/// snapshot that cannot be written stands in the way.
pub proof fn law_loose_files_are_told_by_content(
    flat: MergeView,
    data: MergeView,
    named: nat,
    content: Option<Seq<char>>,
)
    requires
        flat.count <= flat.all.len(),
        data.count <= data.all.len(),
        is_digest_sorted(flat.all, flat.count),
        is_digest_sorted(data.all, data.count),
    ensures
        merged(flat, data, named, content).0 matches Some(becomes) ==> {
            if has_digest(flat, named) || has_digest(data, named) {
                becomes is Found
            } else if content is None {
                becomes is Unreadable
            } else {
                let inner = text::trimmed(content.unwrap());
                if inner.contains('\n') || inner.contains('\r') {
                    becomes is InternalLineBreak
                } else if "{\"created_at\":"@.is_prefix_of(content.unwrap()) {
                    becomes is Flat
                } else if "{\"data\":"@.is_prefix_of(content.unwrap()) {
                    becomes is Data
                } else {
                    becomes is Other
                }
            }
        },
        (forall|i: int|
            flat.count <= i < flat.all.len() ==> exact::is_writable(
                flat.output.line(
                    transfer::line_view(#[trigger] flat.all[i]).unwrap(),
                    flat.urls[i],
                ),
            )) && (forall|i: int|
            data.count <= i < data.all.len() ==> exact::is_writable(
                data.output.line(
                    transfer::line_view(#[trigger] data.all[i]).unwrap(),
                    data.urls[i],
                ),
            )) ==> merged(flat, data, named, content).0 is Some,
{
    lemma_copy_finds(flat.all, flat.urls, flat.count, flat.output, named);
    lemma_copy_finds(data.all, data.urls, data.count, data.output, named);
    if let Some(content) = content {
        transfer::law_loose_content_by_start(content);
        reveal_strlit("{\"created_at\":");
        reveal_strlit("{\"data\":");
        let flat_start = "{\"created_at\":"@;
        let data_start = "{\"data\":"@;
        if flat_start.is_prefix_of(content) && data_start.is_prefix_of(content) {
            assert(content[2] == flat_start[2] && content[2] == data_start[2]);
        }
    }
}

/// Where loose files were merged, something became of each.
proof fn lemma_all_become(
    flat: MergeView,
    data: MergeView,
    loose: Seq<(nat, Option<Seq<char>>)>,
    i: int,
)
    requires
        merged_all(flat, data, loose) is Some,
        0 <= i < loose.len(),
    ensures
        merged_all(flat, data, loose.take(i)) is Some,
        becomes(flat, data, loose, i) is Some,
    decreases loose.len(),
{
    let front = loose.drop_last();
    if i == loose.len() - 1 {
        assert(loose.take(i) =~= front);
    } else {
        lemma_all_become(flat, data, front, i);
        assert(front.take(i) =~= loose.take(i));
        assert(front[i] == loose[i]);
    }
}

/// What becomes of a loose file in a run follows from its content and the files as they were at the start.
proof fn lemma_becomes_by_content(
    flat: MergeView,
    data: MergeView,
    loose: Seq<(nat, Option<Seq<char>>)>,
    i: int,
)
    requires
        flat.count <= flat.all.len(),
        data.count <= data.all.len(),
        is_digest_sorted(flat.all, flat.count),
        is_digest_sorted(data.all, data.count),
        flat.output.last is None,
        data.output.last is None,
        are_sound(loose),
        merged_all(flat, data, loose) is Some,
        0 <= i < loose.len(),
        loose[i].1 is Some,
        !has_digest(flat, loose[i].0),
        !has_digest(data, loose[i].0),
        !text::trimmed(loose[i].1.unwrap()).contains('\n'),
        !text::trimmed(loose[i].1.unwrap()).contains('\r'),
    ensures
        "{\"created_at\":"@.is_prefix_of(loose[i].1.unwrap()) ==> becomes(flat, data, loose, i)
            == Some(Merged::Flat),
        "{\"data\":"@.is_prefix_of(loose[i].1.unwrap()) && !"{\"created_at\":"@.is_prefix_of(
            loose[i].1.unwrap(),
        ) ==> becomes(flat, data, loose, i) == Some(Merged::Data),
{
    lemma_all_become(flat, data, loose, i);
    let before = loose.take(i);
    assert(are_sound(before)) by {
        assert forall|a: int, b: int| 0 <= a < b < before.len() implies (#[trigger] before[a]).0 < (
        #[trigger] before[b]).0 by {
            assert(loose[a].0 < loose[b].0);
        }
        assert forall|a: int| 0 <= a < before.len() implies ((#[trigger] before[a]).1 matches Some(
            content,
        ) ==> digest::digest_of(vstd::utf8::encode_utf8(content)) == before[a].0) by {
            assert(before[a] == loose[a]);
        }
    }
    let given = lemma_merged_all(flat, data, before);
    let (flat_now, data_now) = merged_all(flat, data, before).unwrap();
    assert(!has_digest(flat_now, loose[i].0));
    assert(!has_digest(data_now, loose[i].0));
    law_loose_files_are_told_by_content(flat_now, data_now, loose[i].0, loose[i].1);
}

/// Whether snapshots hold one of a content, under its digest, with the white space at its end kept apart.
pub open spec fn hold_content(
    given: Seq<(LineView, Option<Seq<char>>)>,
    digest: nat,
    content: Seq<char>,
) -> bool {
    exists|k: int|
        {
            &&& 0 <= k < given.len()
            &&& (#[trigger] given[k]).0.digest == digest
            &&& given[k].0.format.name is None
            &&& given[k].0.format.closing_whitespace matches Some(whitespace)
            &&& given[k].0.content + whitespace == content
        }
}

/// After the run, each loose tweet is in the file of its kind: the snapshots that were written hold every loose
/// file that can be read, that neither file had, that has no line break inside, and that starts as the tweets
/// of the file do.
pub proof fn law_every_loose_tweet_is_written(
    flat: MergeView,
    data: MergeView,
    loose: Seq<(nat, Option<Seq<char>>)>,
    i: int,
)
    requires
        flat.count <= flat.all.len(),
        data.count <= data.all.len(),
        is_digest_sorted(flat.all, flat.count),
        is_digest_sorted(data.all, data.count),
        flat.output.last is None,
        data.output.last is None,
        are_sound(loose),
        merged_all(flat, data, loose) is Some,
        0 <= i < loose.len(),
        loose[i].1 is Some,
        !has_digest(flat, loose[i].0),
        !has_digest(data, loose[i].0),
        !text::trimmed(loose[i].1.unwrap()).contains('\n'),
        !text::trimmed(loose[i].1.unwrap()).contains('\r'),
    ensures
        ({
            let (merged_flat, merged_data) = merged_all(flat, data, loose).unwrap();
            let (in_flat, _, flat_output) = drain(
                merged_flat.all,
                merged_flat.urls,
                merged_flat.count,
                merged_flat.output,
            );
            let (in_data, _, data_output) = drain(
                merged_data.all,
                merged_data.urls,
                merged_data.count,
                merged_data.output,
            );
            let content = loose[i].1.unwrap();
            let is_flat = "{\"created_at\":"@.is_prefix_of(content);
            let is_data = "{\"data\":"@.is_prefix_of(content);
            &&& is_flat && in_flat is Done ==> exists|given: Seq<(LineView, Option<Seq<char>>)>|
                {
                    &&& flat_output == #[trigger] flat.output.wrote_all(given)
                    &&& flat.output.kept(given) == given
                    &&& hold_content(given, loose[i].0, content)
                }
            &&& is_data && in_data is Done ==> exists|given: Seq<(LineView, Option<Seq<char>>)>|
                {
                    &&& data_output == #[trigger] data.output.wrote_all(given)
                    &&& data.output.kept(given) == given
                    &&& hold_content(given, loose[i].0, content)
                }
        }),
{
    let content = loose[i].1.unwrap();
    reveal_strlit("{\"created_at\":");
    reveal_strlit("{\"data\":");
    let flat_start = "{\"created_at\":"@;
    let data_start = "{\"data\":"@;
    if flat_start.is_prefix_of(content) && data_start.is_prefix_of(content) {
        assert(content[2] == flat_start[2] && content[2] == data_start[2]);
    }
    lemma_becomes_by_content(flat, data, loose, i);
    law_merge_is_digest_sorted(flat, data, loose);
    let (merged_flat, merged_data) = merged_all(flat, data, loose).unwrap();
    let (in_flat, _, flat_output) = drain(
        merged_flat.all,
        merged_flat.urls,
        merged_flat.count,
        merged_flat.output,
    );
    let (in_data, _, data_output) = drain(
        merged_data.all,
        merged_data.urls,
        merged_data.count,
        merged_data.output,
    );
    if flat_start.is_prefix_of(content) && in_flat is Done {
        let given = choose|given: Seq<(LineView, Option<Seq<char>>)>|
            {
                &&& #[trigger] is_sorted_merge(flat, flat_output, given)
                &&& hold_loose(given, flat, data, loose, Merged::Flat)
            };
        assert(becomes(flat, data, loose, i) == Some(Merged::Flat));
        lemma_held_content(given, loose[i].0, content);
    }
    if data_start.is_prefix_of(content) && in_data is Done {
        let given = choose|given: Seq<(LineView, Option<Seq<char>>)>|
            {
                &&& #[trigger] is_sorted_merge(data, data_output, given)
                &&& hold_loose(given, flat, data, loose, Merged::Data)
            };
        assert(becomes(flat, data, loose, i) == Some(Merged::Data));
        lemma_held_content(given, loose[i].0, content);
    }
}

/// Snapshots with that of loose content hold the content.
proof fn lemma_held_content(
    given: Seq<(LineView, Option<Seq<char>>)>,
    digest: nat,
    content: Seq<char>,
)
    requires
        given.contains(loose_snapshot(content)),
        digest::digest_of(vstd::utf8::encode_utf8(content)) == digest,
    ensures
        hold_content(given, digest, content),
{
    let k = choose|k: int| 0 <= k < given.len() && given[k] == loose_snapshot(content);
    validation::law_content_and_whitespace(content, vstd::utf8::encode_utf8(content));
    assert(given[k].0.digest == digest);
}

/// A copy up to a digest writes the snapshots of the file one after the other, from the first that was not
/// copied to the last whose digest is not greater, and nothing else.
pub proof fn law_copies_write_the_lines(file: MergeView, digest: nat)
    requires
        file.count <= file.all.len(),
        is_digest_sorted(file.all, file.count),
        !(file.copied(digest).0 is Refused),
    ensures
        ({
            let after = file.copied(digest).1;
            let given = Seq::new(
                (after.count - file.count) as nat,
                |i: int|
                    (
                        transfer::line_view(file.all[file.count + i]).unwrap(),
                        file.urls[file.count + i],
                    ),
            );
            &&& after.all == file.all
            &&& after.urls == file.urls
            &&& file.count <= after.count <= file.all.len()
            &&& after.output == file.output.wrote_all(given)
            &&& forall|i: int|
                file.count <= i < after.count ==> transfer::line_view(
                    #[trigger] file.all[i],
                ).unwrap().digest <= digest
            &&& forall|i: int|
                after.count <= i < file.all.len() ==> transfer::line_view(
                    #[trigger] file.all[i],
                ).unwrap().digest > digest
        }),
{
    lemma_copy(file.all, file.urls, file.count, file.output, digest);
    let after = file.copied(digest).1;
    let given = Seq::new(
        (after.count - file.count) as nat,
        |i: int|
            (transfer::line_view(file.all[file.count + i]).unwrap(), file.urls[file.count + i]),
    );
    assert(given =~= snapshots_on(file.all, file.urls, file.count, after.count));
}

/// A loose file adds a snapshot of its content to the file of its kind, and to no other: a file that it does not
/// belong to holds what was copied up to its digest and nothing more.
pub proof fn law_loose_files_go_to_one_file(
    flat: MergeView,
    data: MergeView,
    named: nat,
    content: Option<Seq<char>>,
)
    ensures
        ({
            let (becomes, next_flat, next_data) = merged(flat, data, named, content);
            let copied_flat = flat.copied(named).1;
            let copied_data = data.copied(named).1;
            becomes matches Some(becomes) ==> {
                &&& !(becomes is Flat) ==> next_flat == copied_flat
                &&& !(becomes is Data) ==> next_data == copied_data
                &&& becomes is Flat ==> next_flat == (MergeView {
                    output: next_flat.output,
                    ..copied_flat
                })
                &&& becomes is Flat && copied_flat.output.last != Some(named) ==> next_flat.output.output
                    == copied_flat.output.output + exact::line_text(
                    exact::written_view(
                        validation::unprocessed_view(
                            content.unwrap(),
                            vstd::utf8::encode_utf8(content.unwrap()),
                        ),
                        copied_flat.output.default,
                        None,
                    ),
                ) + seq!['\n']
                &&& becomes is Data ==> next_data == (MergeView {
                    output: next_data.output,
                    ..copied_data
                })
                &&& becomes is Data && copied_data.output.last != Some(named) ==> next_data.output.output
                    == copied_data.output.output + exact::line_text(
                    exact::written_view(
                        validation::unprocessed_view(
                            content.unwrap(),
                            vstd::utf8::encode_utf8(content.unwrap()),
                        ),
                        copied_data.output.default,
                        None,
                    ),
                ) + seq!['\n']
            }
        }),
{
}

/// The rest of a file is copied to its end: every line that is left is written, in order, unless one cannot be
/// read or written, which ends it there.
pub proof fn law_the_rest_is_copied(file: MergeView)
    requires
        file.count <= file.all.len(),
    ensures
        ({
            let (drained, count, output) = drain(file.all, file.urls, file.count, file.output);
            let given = Seq::new(
                (file.all.len() - file.count) as nat,
                |i: int|
                    (
                        transfer::line_view(file.all[file.count + i]).unwrap(),
                        file.urls[file.count + i],
                    ),
            );
            &&& drained is Done ==> count == file.all.len() && output == file.output.wrote_all(given)
            &&& drained is Unreadable ==> file.count < count <= file.all.len() && transfer::line_view(
                file.all[count - 1],
            ) is None
            &&& drained is Refused ==> file.count < count <= file.all.len() && transfer::line_view(
                file.all[count - 1],
            ) is Some
            &&& drained is Done <==> forall|i: int|
                file.count <= i < file.all.len() ==> transfer::line_view(#[trigger] file.all[i]) is Some
                    && !is_refused_at(file, i)
        }),
{
    lemma_drain_ends(file, file.count, file.output);
    let given = Seq::new(
        (file.all.len() - file.count) as nat,
        |i: int|
            (transfer::line_view(file.all[file.count + i]).unwrap(), file.urls[file.count + i]),
    );
    assert(given =~= snapshots_on(file.all, file.urls, file.count, file.all.len()));
    if drain(file.all, file.urls, file.count, file.output).0 is Done {
        lemma_drain(file.all, file.urls, file.count, file.output);
    }
    assert(snapshots_on(file.all, file.urls, file.count, file.count) =~= Seq::empty());
}

/// Whether a line of a file could not be written after those before it.
pub open spec fn is_refused_at(file: MergeView, i: int) -> bool {
    file.output.wrote_all(snapshots_on(file.all, file.urls, file.count, i as nat)).refuses(
        transfer::line_view(file.all[i]).unwrap(),
        file.urls[i],
    )
}

/// How the copy of the rest of a file goes on from a line.
proof fn lemma_drain_ends(file: MergeView, count: nat, output: WriterView)
    requires
        file.count <= count <= file.all.len(),
        output == file.output.wrote_all(snapshots_on(file.all, file.urls, file.count, count)),
    ensures
        ({
            let (drained, end, _) = drain(file.all, file.urls, count, output);
            &&& drained is Done ==> end == file.all.len()
            &&& drained is Unreadable ==> count < end <= file.all.len() && transfer::line_view(
                file.all[end - 1],
            ) is None
            &&& drained is Refused ==> count < end <= file.all.len() && transfer::line_view(
                file.all[end - 1],
            ) is Some
            &&& drained is Done <==> forall|i: int|
                count <= i < file.all.len() ==> transfer::line_view(#[trigger] file.all[i]) is Some
                    && !is_refused_at(file, i)
        }),
    decreases file.all.len() - count,
{
    if count < file.all.len() {
        if let Some(view) = transfer::line_view(file.all[count as int]) {
            let url = file.urls[count as int];
            if !output.refuses(view, url) {
                let before = snapshots_on(file.all, file.urls, file.count, count);
                let after = snapshots_on(file.all, file.urls, file.count, count + 1);
                assert(after.drop_last() =~= before);
                assert(after.last() == (view, url));
                lemma_drain_ends(file, count + 1, output.wrote(view, url));
            }
        }
    }
}

/// A loose file is merged by what it holds: where neither file has its digest, content without a line break
/// inside that starts as a tweet is merged as one, whatever is left of the files.
pub proof fn law_loose_tweets_are_merged(
    flat: &mut Merge,
    data: &mut Merge,
    digest: &Sha1Digest,
    content: Option<&str>,
    result: Result<Merged, writer::Error>,
)
    requires
        call_ensures(merge_loose, (flat, data, digest, content), result),
        old(flat)@.count <= old(flat)@.all.len(),
        old(data)@.count <= old(data)@.all.len(),
        is_digest_sorted(old(flat)@.all, old(flat)@.count),
        is_digest_sorted(old(data)@.all, old(data)@.count),
        !has_digest(old(flat)@, digest@),
        !has_digest(old(data)@, digest@),
        content is Some,
        !text::trimmed(content.unwrap()@).contains('\n'),
        !text::trimmed(content.unwrap()@).contains('\r'),
        result is Ok,
    ensures
        "{\"created_at\":"@.is_prefix_of(content.unwrap()@) ==> result == Ok::<Merged, writer::Error>(
            Merged::Flat,
        ),
        "{\"data\":"@.is_prefix_of(content.unwrap()@) ==> result == Ok::<Merged, writer::Error>(
            Merged::Data,
        ),
{
    law_loose_files_are_told_by_content(old(flat)@, old(data)@, digest@, text::str_view(content));
    reveal_strlit("{\"created_at\":");
    reveal_strlit("{\"data\":");
    let text = content.unwrap()@;
    let flat_start = "{\"created_at\":"@;
    let data_start = "{\"data\":"@;
    if flat_start.is_prefix_of(text) && data_start.is_prefix_of(text) {
        assert(text[2] == flat_start[2] && text[2] == data_start[2]);
    }
}

} // verus!
