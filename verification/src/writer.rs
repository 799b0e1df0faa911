//! Writing snapshots as JSON Lines.
//!
//! [`SnapshotWriter`] serializes snapshots as canonical JSONL (one per line) under a [`Context`],
//! which supplies the default closing whitespace. Consecutive values with the same digest are
//! skipped. What is written is kept until it is taken or the writer is finished.
use vstd::prelude::*;

use crate::context::Context;
use crate::digest;
use crate::digest::Sha1Digest;
use crate::exact;
use crate::exact::{ExactSnapshot, LineView};
use crate::format::Format;
use crate::lines;
use crate::stream;
use crate::text;
use crate::text::append;
use crate::validation;
use crate::validation::UnprocessedError;

verus! {

/// Errors writing a snapshot line.
#[derive(Debug, PartialEq, Eq)]
pub enum Error {
    /// The snapshot holds a value that cannot be written.
    Unwritable,
    /// The bytes could not be represented as a snapshot under the writer's [`Context`].
    Snapshot(UnprocessedError),
}

/// An output that is complete only after a consuming finalization step.
pub trait Finish: Sized {
    /// What finishing yields.
    type Output;

    /// Consume the output, completing it.
    fn finish(self) -> (output: Self::Output);
}

/// An in-memory target: finishing hands over what was written.
impl Finish for String {
    type Output = String;

    fn finish(self) -> (output: String)
        ensures
            output == self,
    {
        self
    }
}

/// Writes snapshots as canonical JSONL under a [`Context`].
#[derive(Debug)]
pub struct SnapshotWriter {
    last_written: Option<Sha1Digest>,
    underlying: String,
    context: Context,
}

/// What a writer holds.
#[verifier::ext_equal]
pub struct WriterView {
    /// What was written and not yet taken.
    pub output: Seq<char>,
    /// The digest of the last line written.
    pub last: Option<nat>,
    /// The default closing whitespace that lines are written under.
    pub default: Seq<char>,
}

impl WriterView {
    /// What is written of a snapshot, given the URL that its content implies.
    pub open spec fn line(self, view: LineView, inferred: Option<Seq<char>>) -> LineView {
        exact::written_view(view, self.default, inferred)
    }

    /// Whether a snapshot is passed over.
    pub open spec fn skips(self, view: LineView) -> bool {
        self.last == Some(view.digest)
    }

    /// Whether a snapshot is neither passed over nor can be written.
    pub open spec fn refuses(self, view: LineView, inferred: Option<Seq<char>>) -> bool {
        !self.skips(view) && !exact::is_writable(self.line(view, inferred))
    }

    /// The writer after a snapshot that it does not refuse.
    pub open spec fn wrote(self, view: LineView, inferred: Option<Seq<char>>) -> WriterView {
        if self.skips(view) {
            self
        } else {
            WriterView {
                output: self.output + exact::line_text(self.line(view, inferred)) + seq!['\n'],
                last: Some(view.digest),
                ..self
            }
        }
    }
}

impl View for SnapshotWriter {
    type V = WriterView;

    closed spec fn view(&self) -> WriterView {
        WriterView {
            output: self.underlying@,
            last: stream::digest_view(self.last_written),
            default: self.context@,
        }
    }
}

impl SnapshotWriter {
    /// The context that snapshots are created and serialized under.
    pub closed spec fn held_context(&self) -> Context {
        self.context
    }

    /// A writer that serializes snapshots under `context`.
    pub fn new(context: Context) -> (writer: SnapshotWriter)
        ensures
            writer@ == (WriterView { output: Seq::empty(), last: None, default: context@ }),
            writer.held_context() == context,
    {
        let writer = SnapshotWriter { last_written: None, underlying: String::new(), context };
        assert(writer@.output =~= Seq::empty());
        writer
    }

    /// The [`Context`] this writer uses to create and serialize snapshots.
    pub fn context(&self) -> (context: &Context)
        ensures
            *context == self.held_context(),
            context@ == self@.default,
    {
        &self.context
    }

    /// Writes `bytes` as a new snapshot, returning whether a line was written.
    ///
    /// `digest` lets a consecutive duplicate be skipped without decoding the bytes again, so it is
    /// expected to be the SHA-1 of those bytes (as it is for a content-addressed store). The digest
    /// recorded for the next comparison is computed from the supplied bytes. An incorrect `digest`
    /// can still cause distinct content to be skipped if it matches the previously written digest.
    pub fn write(&mut self, digest: Sha1Digest, bytes: &[u8]) -> (result: Result<bool, Error>)
        ensures
            final(self).held_context() == old(self).held_context(),
            match result {
                Ok(true) => {
                    let view = validation::unprocessed_view(
                        vstd::utf8::decode_utf8(bytes@),
                        bytes@,
                    );
                    &&& old(self)@.last != Some(digest@)
                    &&& vstd::utf8::valid_utf8(bytes@)
                    &&& final(self)@ == (WriterView {
                        output: old(self)@.output + exact::line_text(old(self)@.line(view, None))
                            + seq!['\n'],
                        last: Some(digest::digest_of(bytes@)),
                        ..old(self)@
                    })
                },
                Ok(false) => {
                    &&& old(self)@.last == Some(digest@)
                    &&& *final(self) == *old(self)
                },
                Err(Error::Snapshot(UnprocessedError::InvalidUtf8)) => {
                    &&& old(self)@.last != Some(digest@)
                    &&& !vstd::utf8::valid_utf8(bytes@)
                    &&& *final(self) == *old(self)
                },
                Err(_) => false,
            },
    {
        if self.is_last(&digest) {
            return Ok(false);
        }
        let snapshot = match self.context.unprocessed_snapshot(&Format::Utf8, bytes) {
            Ok(snapshot) => snapshot,
            Err(error) => return Err(Error::Snapshot(error)),
        };
        assert(exact::is_writable(self@.line(exact::snapshot_view(snapshot), None)));
        match self.write_line(&snapshot, None) {
            Ok(_) => Ok(true),
            Err(error) => Err(error),
        }
    }

    /// Writes `snapshot`, returning whether a line was written. `inferred_url` is what the URL query
    /// of the context gives for the content.
    ///
    /// Ignores consecutive values with the same digest. A line that is canonical reads back as what
    /// was written.
    pub fn write_snapshot(
        &mut self,
        snapshot: &ExactSnapshot<'_>,
        inferred_url: Option<&str>,
    ) -> (result: Result<bool, Error>)
        ensures
            final(self).held_context() == old(self).held_context(),
            match result {
                Ok(written) => {
                    let view = exact::snapshot_view(*snapshot);
                    let inferred = text::str_view(inferred_url);
                    let line = old(self)@.line(view, inferred);
                    &&& !old(self)@.refuses(view, inferred)
                    &&& final(self)@ == old(self)@.wrote(view, inferred)
                    &&& written == !old(self)@.skips(view)
                    &&& written && exact::is_canonical_line(line) ==> exact::parse_line(
                        exact::line_text(line),
                    ) == Some(line)
                },
                Err(error) => {
                    &&& error is Unwritable
                    &&& old(self)@.refuses(
                        exact::snapshot_view(*snapshot),
                        text::str_view(inferred_url),
                    )
                    &&& *final(self) == *old(self)
                },
            },
    {
        if self.is_last(&snapshot.digest) {
            return Ok(false);
        }
        match self.write_line(snapshot, inferred_url) {
            Ok(_) => Ok(true),
            Err(error) => Err(error),
        }
    }

    /// Takes what was written since the last time.
    pub fn take_output(&mut self) -> (output: String)
        ensures
            output@ == old(self)@.output,
            final(self)@ == (WriterView { output: Seq::empty(), ..old(self)@ }),
            final(self).held_context() == old(self).held_context(),
    {
        let mut output = String::new();
        std::mem::swap(&mut output, &mut self.underlying);
        assert(self@.output =~= Seq::empty());
        output
    }

    /// Finishes the output, and hands over what was written and not yet taken.
    pub fn finish(self) -> (output: String)
        ensures
            output@ == self@.output,
    {
        self.underlying.finish()
    }

    /// Whether the last line written has this digest.
    fn is_last(&self, digest: &Sha1Digest) -> (same: bool)
        ensures
            same == (self@.last == Some(digest@)),
    {
        match &self.last_written {
            Some(last) => {
                proof {
                    digest::lemma_digest_unique(*last, *digest);
                }
                *last == *digest
            },
            None => false,
        }
    }

    /// Writes a line.
    fn write_line(&mut self, snapshot: &ExactSnapshot<'_>, inferred_url: Option<&str>) -> (result:
        Result<(), Error>)
        ensures
            final(self).held_context() == old(self).held_context(),
            match result {
                Ok(_) => {
                    let line = old(self)@.line(
                        exact::snapshot_view(*snapshot),
                        text::str_view(inferred_url),
                    );
                    &&& exact::is_writable(line)
                    &&& final(self)@ == (WriterView {
                        output: old(self)@.output + exact::line_text(line) + seq!['\n'],
                        last: Some(snapshot.digest@),
                        ..old(self)@
                    })
                    &&& exact::is_canonical_line(line) ==> exact::parse_line(exact::line_text(line))
                        == Some(line)
                },
                Err(error) => {
                    &&& error is Unwritable
                    &&& !exact::is_writable(
                        old(self)@.line(
                            exact::snapshot_view(*snapshot),
                            text::str_view(inferred_url),
                        ),
                    )
                    &&& *final(self) == *old(self)
                },
            },
    {
        match snapshot.display(&self.context, inferred_url).to_string() {
            Ok(line) => {
                append(&mut self.underlying, line.as_str());
                self.underlying.push('\n');
                self.last_written = Some(snapshot.digest);
                assert(self@.output =~= old(self)@.output + line@ + seq!['\n']);
                Ok(())
            },
            Err(_) => Err(Error::Unwritable),
        }
    }
}

impl WriterView {
    /// The writer after snapshots, each with the URL that its content implies, none of which it refuses.
    pub open spec fn wrote_all(self, given: Seq<(LineView, Option<Seq<char>>)>) -> WriterView
        decreases given.len(),
    {
        if given.len() == 0 {
            self
        } else {
            self.wrote_all(given.drop_last()).wrote(given.last().0, given.last().1)
        }
    }

    /// The snapshots that are not passed over.
    pub open spec fn kept(self, given: Seq<(LineView, Option<Seq<char>>)>) -> Seq<
        (LineView, Option<Seq<char>>),
    >
        decreases given.len(),
    {
        if given.len() == 0 {
            Seq::empty()
        } else if self.wrote_all(given.drop_last()).skips(given.last().0) {
            self.kept(given.drop_last())
        } else {
            self.kept(given.drop_last()).push(given.last())
        }
    }

    /// What is written of the snapshots that are not passed over.
    pub open spec fn kept_lines(self, given: Seq<(LineView, Option<Seq<char>>)>) -> Seq<LineView> {
        self.kept(given).map_values(
            |snapshot: (LineView, Option<Seq<char>>)| self.line(snapshot.0, snapshot.1),
        )
    }

    /// The lines of the snapshots that are not passed over.
    pub open spec fn texts(self, given: Seq<(LineView, Option<Seq<char>>)>) -> Seq<Seq<char>> {
        self.kept_lines(given).map_values(|line: LineView| exact::line_text(line))
    }
}

/// What is written of snapshots is the lines of those that are not passed over, each ended by a line feed,
/// and the last of them is the last that was written.
pub proof fn law_output_is_kept_lines(writer: WriterView, given: Seq<(LineView, Option<Seq<char>>)>)
    ensures
        ({
            let kept = writer.kept(given);
            let end = writer.wrote_all(given);
            &&& end.default == writer.default
            &&& end.last == if kept.len() == 0 {
                writer.last
            } else {
                Some(kept.last().0.digest)
            }
            &&& end.output == writer.output + lines::written(writer.texts(given))
        }),
    decreases given.len(),
{
    if given.len() == 0 {
        assert(writer.texts(given) =~= Seq::empty());
        assert(writer.output + lines::written(writer.texts(given)) =~= writer.output);
    } else {
        let front = given.drop_last();
        law_output_is_kept_lines(writer, front);
        if !writer.wrote_all(front).skips(given.last().0) {
            let all = writer.texts(given);
            assert(all.drop_last() =~= writer.texts(front));
            assert(all.last() == exact::line_text(
                writer.line(given.last().0, given.last().1),
            ));
            assert(writer.wrote_all(given).output =~= writer.output + lines::written(all));
        }
    }
}

/// Snapshots may be written in two parts.
pub proof fn law_written_in_parts(
    writer: WriterView,
    first: Seq<(LineView, Option<Seq<char>>)>,
    rest: Seq<(LineView, Option<Seq<char>>)>,
)
    ensures
        writer.wrote_all(first + rest) == writer.wrote_all(first).wrote_all(rest),
    decreases rest.len(),
{
    if rest.len() == 0 {
        assert(first + rest =~= first);
    } else {
        assert((first + rest).drop_last() =~= first + rest.drop_last());
        law_written_in_parts(writer, first, rest.drop_last());
    }
}

/// No two snapshots that are written one after the other have the same digest, and the first has
/// another digest than the snapshot that was written before it.
pub proof fn law_no_consecutive_duplicates(
    writer: WriterView,
    given: Seq<(LineView, Option<Seq<char>>)>,
)
    ensures
        forall|i: int|
            0 < i < writer.kept(given).len() ==> writer.kept(given)[i - 1].0.digest != (
            #[trigger] writer.kept(given)[i]).0.digest,
        writer.kept(given).len() > 0 ==> Some(writer.kept(given)[0].0.digest) != writer.last,
    decreases given.len(),
{
    if given.len() > 0 {
        law_no_consecutive_duplicates(writer, given.drop_last());
        law_output_is_kept_lines(writer, given.drop_last());
    }
}

/// Whether snapshots come in strictly ascending digest order.
pub open spec fn are_ascending(given: Seq<(LineView, Option<Seq<char>>)>) -> bool {
    forall|i: int, j: int|
        0 <= i < j < given.len() ==> (#[trigger] given[i]).0.digest < (
        #[trigger] given[j]).0.digest
}

/// Snapshots in strictly ascending digest order, all after the last one that was written, are all
/// written.
pub proof fn law_ascending_all_kept(
    writer: WriterView,
    given: Seq<(LineView, Option<Seq<char>>)>,
)
    requires
        are_ascending(given),
        writer.last matches Some(digest) ==> given.len() > 0 ==> digest < given[0].0.digest,
    ensures
        writer.kept(given) == given,
    decreases given.len(),
{
    if given.len() > 0 {
        let front = given.drop_last();
        assert forall|i: int, j: int| 0 <= i < j < front.len() implies (
        #[trigger] front[i]).0.digest < (#[trigger] front[j]).0.digest by {
            assert(given[i].0.digest < given[j].0.digest);
        }
        law_ascending_all_kept(writer, front);
        law_output_is_kept_lines(writer, front);
        if front.len() > 0 {
            assert(given[front.len() - 1].0.digest < given[given.len() - 1].0.digest);
        }
        assert(front.push(given.last()) =~= given);
    }
}

/// What a new writer wrote reads back, line by line, as the snapshots that were not passed over. Each of
/// their lines has to stand on a line of its own and to read back by itself, as a canonical line does.
pub proof fn law_written_snapshots_read_back(
    writer: WriterView,
    given: Seq<(LineView, Option<Seq<char>>)>,
)
    requires
        writer.output.len() == 0,
        forall|i: int|
            0 <= i < writer.texts(given).len() ==> lines::is_line(#[trigger] writer.texts(given)[i])
                && exact::parse_line(writer.texts(given)[i]) == Some(writer.kept_lines(given)[i]),
    ensures
        lines::lines(writer.wrote_all(given).output).len() == writer.kept(given).len(),
        forall|i: int|
            0 <= i < writer.kept(given).len() ==> exact::parse_line(
                #[trigger] lines::lines(writer.wrote_all(given).output)[i],
            ) == Some(writer.kept_lines(given)[i]),
{
    law_output_is_kept_lines(writer, given);
    assert(writer.wrote_all(given).output =~= lines::written(writer.texts(given)));
    lines::law_lines_read_back(writer.texts(given));
}

/// A snapshot with the digest of the last line is passed over. Any other is written as one line, if it can be,
/// behind everything that was written, and its digest is the last then.
pub proof fn law_snapshots_are_written_once(
    writer: WriterView,
    view: LineView,
    inferred: Option<Seq<char>>,
)
    ensures
        ({
            let line = exact::written_view(view, writer.default, inferred);
            let after = writer.wrote(view, inferred);
            let is_repeated = writer.last == Some(view.digest);
            &&& writer.skips(view) <==> is_repeated
            &&& is_repeated ==> after == writer && !writer.refuses(view, inferred)
            &&& !is_repeated ==> {
                &&& writer.refuses(view, inferred) <==> !exact::is_writable(line)
                &&& after.output == writer.output + exact::line_text(line) + seq!['\n']
                &&& after.last == Some(view.digest)
                &&& after.default == writer.default
            }
        }),
{
}

/// Bytes are written as one line that reproduces them, unless the last line has the digest that they are given
/// with, and bytes that are not UTF-8 are refused.
pub proof fn law_bytes_are_written_once(
    writer: &mut SnapshotWriter,
    digest: Sha1Digest,
    bytes: &[u8],
    result: Result<bool, Error>,
)
    requires
        call_ensures(SnapshotWriter::write, (writer, digest, bytes), result),
    ensures
        result == Ok::<bool, Error>(false) <==> old(writer)@.last == Some(digest@),
        old(writer)@.last != Some(digest@) ==> (result == Ok::<bool, Error>(true)
            <==> vstd::utf8::valid_utf8(bytes@)),
        result == Ok::<bool, Error>(true) ==> {
            let text = vstd::utf8::decode_utf8(bytes@);
            let line = exact::written_view(
                validation::unprocessed_view(text, bytes@),
                old(writer)@.default,
                None,
            );
            &&& vstd::utf8::encode_utf8(text) == bytes@
            &&& final(writer)@.output == old(writer)@.output + exact::line_text(line) + seq!['\n']
            &&& final(writer)@.last == Some(digest::digest_of(bytes@))
            &&& validation::plain_bytes(line, old(writer)@.default) == bytes@
        },
        result != Ok::<bool, Error>(true) ==> final(writer)@ == old(writer)@,
{
    if result == Ok::<bool, Error>(true) {
        let text = vstd::utf8::decode_utf8(bytes@);
        vstd::utf8::decode_utf8_encode_utf8(bytes@);
        let view = validation::unprocessed_view(text, bytes@);
        validation::law_archived_bytes_are_reproduced(bytes@, old(writer)@.default);
        exact::law_lines_leave_out_what_is_implied(view, old(writer)@.default, None);
    }
}

} // verus!
