//! Copying snapshots between files, and telling loose content apart.
use vstd::prelude::*;

use crate::compact::{DATA_START, FLAT_START};
use crate::digest;
use crate::digest::Sha1Digest;
use crate::exact;
use crate::exact::LineView;
use crate::lines;
use crate::reader::SnapshotReader;
use crate::text;
use crate::text::{chars_of, starts_at, trim};
use crate::writer;
use crate::writer::{SnapshotWriter, WriterView};

verus! {

/// The snapshot on a line that is read.
#[verifier::opaque]
pub open spec fn line_view(line: Seq<char>) -> Option<LineView> {
    if lines::is_blank(line) {
        None
    } else {
        exact::parse_line(line)
    }
}

/// How a copy ends.
pub enum Copied {
    /// A snapshot with exactly the digest was written.
    Found,
    /// There is no snapshot with the digest before the next one.
    Missing,
    /// A snapshot could not be written.
    Refused,
}

/// How a copy up to and including a digest ends, how many lines are read then, and what the writer
/// holds. It stops in front of a line that cannot be read.
pub open spec fn copy(
    all: Seq<Seq<char>>,
    inferred: Seq<Option<Seq<char>>>,
    count: nat,
    output: WriterView,
    digest: nat,
) -> (Copied, nat, WriterView)
    decreases all.len() - count,
{
    if count >= all.len() {
        (Copied::Missing, count, output)
    } else {
        match line_view(all[count as int]) {
            None => (Copied::Missing, count, output),
            Some(view) => {
                let url = inferred[count as int];
                if view.digest > digest {
                    (Copied::Missing, count, output)
                } else if output.refuses(view, url) {
                    (Copied::Refused, count + 1, output)
                } else if view.digest == digest {
                    (Copied::Found, count + 1, output.wrote(view, url))
                } else {
                    copy(all, inferred, count + 1, output.wrote(view, url), digest)
                }
            },
        }
    }
}

/// The URLs as texts.
pub open spec fn url_views(urls: Seq<Option<String>>) -> Seq<Option<Seq<char>>> {
    urls.map_values(|url: Option<String>| url_view(url))
}

/// A URL as text.
pub open spec fn url_view(url: Option<String>) -> Option<Seq<char>> {
    match url {
        Some(url) => Some(url@),
        None => None,
    }
}

/// Borrows a URL.
pub(crate) fn borrow_url(url: &Option<String>) -> (borrowed: Option<&str>)
    ensures
        text::str_view(borrowed) == url_view(*url),
{
    match url {
        Some(url) => Some(url.as_str()),
        None => None,
    }
}

/// Writes all snapshots from `input` with digests up to and including `digest` to `output`, returning
/// whether a snapshot with exactly that digest was written.
///
/// A line that cannot be read is left unconsumed, to be surfaced when the reader is drained.
/// `inferred_urls` has, for each line of the input, what the URL query of the output's context gives for
/// its content.
pub fn copy_through(
    input: &mut SnapshotReader,
    output: &mut SnapshotWriter,
    digest: &Sha1Digest,
    inferred_urls: &Vec<Option<String>>,
) -> (result: Result<bool, writer::Error>)
    requires
        inferred_urls@.len() >= old(input).all().len(),
    ensures
        final(input).all() == old(input).all(),
        final(input).source() == old(input).source(),
        final(output).held_context() == old(output).held_context(),
        ({
            let (copied, count, written) = copy(
                old(input).all(),
                url_views(inferred_urls@),
                old(input).read_count(),
                old(output)@,
                digest@,
            );
            &&& final(input).read_count() == count
            &&& final(output)@ == written
            &&& match copied {
                Copied::Found => result == Ok::<bool, writer::Error>(true),
                Copied::Missing => result == Ok::<bool, writer::Error>(false),
                Copied::Refused => result matches Err(error) && error is Unwritable,
            }
        }),
{
    let ghost all = input.all();
    let ghost urls = url_views(inferred_urls@);
    let ghost expected = copy(all, urls, input.read_count(), output@, digest@);
    loop
        invariant
            all == old(input).all(),
            input.all() == all,
            input.source() == old(input).source(),
            output.held_context() == old(output).held_context(),
            urls == url_views(inferred_urls@),
            inferred_urls@.len() >= all.len(),
            expected == copy(
                old(input).all(),
                urls,
                old(input).read_count(),
                old(output)@,
                digest@,
            ),
            copy(all, urls, input.read_count(), output@, digest@) == expected,
        decreases all.len() - input.read_count(),
    {
        let ghost count = input.read_count();
        let next = input.peek();
        match next {
            Some(Ok(snapshot)) => {
                let ghost view = exact::snapshot_view(snapshot);
                proof {
                    reveal(line_view);
                    assert(line_view(all[count as int]) == Some(view));
                }
                if digest.is_before(&snapshot.digest) {
                    return Ok(false);
                }
                let number: usize = input.position();
                assert(urls[count as int] == url_view(inferred_urls@[number as int]));
                let url = borrow_url(&inferred_urls[number]);
                input.skip();
                match output.write_snapshot(&snapshot, url) {
                    Ok(_) => {},
                    Err(error) => return Err(error),
                }
                proof {
                    digest::lemma_digest_unique(snapshot.digest, *digest);
                }
                if snapshot.digest == *digest {
                    return Ok(true);
                }
            },
            Some(Err(_)) => {
                proof {
                    reveal(line_view);
                    assert(line_view(all[count as int]) is None);
                }
                return Ok(false);
            },
            None => {
                return Ok(false);
            },
        }
    }
}

/// A copy up to one digest and then up to a greater one is a copy up to the greater one.
pub proof fn law_copies_chain(
    all: Seq<Seq<char>>,
    inferred: Seq<Option<Seq<char>>>,
    count: nat,
    output: WriterView,
    digest: nat,
    greater: nat,
)
    requires
        digest < greater,
        !(copy(all, inferred, count, output, digest).0 is Refused),
    ensures
        ({
            let (_, next, written) = copy(all, inferred, count, output, digest);
            copy(all, inferred, next, written, greater) == copy(
                all,
                inferred,
                count,
                output,
                greater,
            )
        }),
    decreases all.len() - count,
{
    if count < all.len() {
        if let Some(view) = line_view(all[count as int]) {
            let url = inferred[count as int];
            if view.digest < digest && !output.refuses(view, url) {
                law_copies_chain(
                    all,
                    inferred,
                    count + 1,
                    output.wrote(view, url),
                    digest,
                    greater,
                );
            }
        }
    }
}

/// What loose content is merged as.
#[derive(Clone, Copy, Debug, PartialEq, Eq, Structural)]
pub enum LooseContent {
    /// A tweet in the flat format.
    Flat,
    /// A tweet in the data format.
    Data,
    /// Content with a line break inside, which no line can hold.
    InternalLineBreak,
    /// Anything else, which is skipped.
    Other,
}

/// Whether a text has a line break.
pub open spec fn has_line_break(s: Seq<char>) -> bool {
    exists|i: int| 0 <= i < s.len() && (#[trigger] s[i] == '\n' || s[i] == '\r')
}

/// What loose content is merged as.
pub open spec fn loose_content(content: Seq<char>) -> LooseContent {
    if has_line_break(text::trimmed(content)) {
        LooseContent::InternalLineBreak
    } else if text::has_at(content, 0, FLAT_START@) {
        LooseContent::Flat
    } else if text::has_at(content, 0, DATA_START@) {
        LooseContent::Data
    } else {
        LooseContent::Other
    }
}

/// Loose content is told apart by how it starts, unless there is a line break in what is left of it without the
/// white space at its ends.
pub proof fn law_loose_content_by_start(content: Seq<char>)
    ensures
        ({
            let inner = text::trimmed(content);
            let starts = |start: Seq<char>| start.is_prefix_of(content);
            match loose_content(content) {
                LooseContent::InternalLineBreak => inner.contains('\n') || inner.contains('\r'),
                LooseContent::Flat => {
                    &&& !inner.contains('\n') && !inner.contains('\r')
                    &&& starts("{\"created_at\":"@)
                },
                LooseContent::Data => {
                    &&& !inner.contains('\n') && !inner.contains('\r')
                    &&& starts("{\"data\":"@)
                },
                LooseContent::Other => {
                    &&& !inner.contains('\n') && !inner.contains('\r')
                    &&& !starts("{\"created_at\":"@)
                    &&& !starts("{\"data\":"@)
                },
            }
        }),
{
    let inner = text::trimmed(content);
    if has_line_break(inner) {
        let i = choose|i: int|
            0 <= i < inner.len() && (#[trigger] inner[i] == '\n' || inner[i] == '\r');
        assert(inner.contains(inner[i]));
    }
    let flat = "{\"created_at\":"@;
    let data = "{\"data\":"@;
    if flat.is_prefix_of(content) {
        assert(content.subrange(0, flat.len() as int) =~= flat);
    }
    if data.is_prefix_of(content) {
        assert(content.subrange(0, data.len() as int) =~= data);
    }
    if text::has_at(content, 0, flat) {
        assert(flat.is_prefix_of(content));
    }
    if text::has_at(content, 0, data) {
        assert(data.is_prefix_of(content));
    }
}

/// Decides what loose content is merged as: content with a line break inside is left out, and the format
/// follows from how it starts.
pub fn classify_loose(content: &str) -> (class: LooseContent)
    ensures
        class == loose_content(content@),
{
    let chars = chars_of(content);
    let trimmed = trim(&chars);
    let mut i: usize = 0;
    while i < trimmed.len()
        invariant
            i <= trimmed@.len(),
            trimmed@ == text::trimmed(content@),
            forall|j: int| 0 <= j < i ==> #[trigger] trimmed@[j] != '\n' && trimmed@[j] != '\r',
        decreases trimmed@.len() - i,
    {
        if trimmed[i] == '\n' || trimmed[i] == '\r' {
            assert(has_line_break(trimmed@));
            return LooseContent::InternalLineBreak;
        }
        i = i + 1;
    }
    assert(!has_line_break(trimmed@));
    if starts_at(&chars, 0, FLAT_START) {
        LooseContent::Flat
    } else if starts_at(&chars, 0, DATA_START) {
        LooseContent::Data
    } else {
        LooseContent::Other
    }
}

} // verus!
