//! Limits and chunking for reproducing streamed gzip archives.
//!
//! An archive of this family was produced by deflating each written chunk, followed by a sync marker,
//! and then finishing the stream. A producer that wrote everything at once leaves a single sync marker
//! at the end of the content; one that flushed mid-response leaves interior markers at the content
//! offsets where its chunks ended.
use vstd::prelude::*;

verus! {

/// Fixed slack added to the deflate output buffer beyond twice the content, covering the block framing
/// worst case that the doubling does not already absorb (tiny or incompressible content).
pub const OUT_SLACK: usize = 1024;

/// The maximum encoded size of one sync marker.
pub const FLUSH_MARKER_LEN: usize = 6;

/// The greatest number of trailing empty sync markers.
pub const MAX_EXTRA_FLUSHES: usize = 255;

/// The longest content that can be deflated with no mid-stream flushes: the length of a chunk and that
/// of the output buffer, with room for the marker at the end of the content and the trailing empty
/// ones, must fit in 32 bits.
pub const MAX_CONTENT_LEN: usize = 2_147_482_367;

/// Whether `content_len` bytes of content with `mid_flushes` interior sync markers fit the 32-bit
/// deflate counters, with the worst-case trailing markers (the content-end flush plus 255 empties)
/// reserved.
pub open spec fn does_fit(content_len: int, mid_flushes: int) -> bool {
    content_len * 2 + mid_flushes * FLUSH_MARKER_LEN <= 2 * MAX_CONTENT_LEN
}

/// Whether `content_len` bytes of content with `mid_flushes` interior sync markers fit the 32-bit
/// deflate counters, with the worst-case trailing markers (the content-end flush plus 255 empties)
/// reserved. With no mid-stream flushes this is exactly `content_len <= MAX_CONTENT_LEN`.
pub fn fits(content_len: usize, mid_flushes: usize) -> (fits: bool)
    ensures
        fits == does_fit(content_len as int, mid_flushes as int),
{
    match (content_len.checked_mul(2), mid_flushes.checked_mul(FLUSH_MARKER_LEN)) {
        (Some(doubled), Some(markers)) => match doubled.checked_add(markers) {
            Some(needed) => needed <= 2 * MAX_CONTENT_LEN,
            None => false,
        },
        _ => false,
    }
}

/// With no mid-stream flushes, content fits exactly up to [`MAX_CONTENT_LEN`], which is as long as the
/// counters allow.
pub proof fn law_limit_without_flushes(content_len: int)
    requires
        content_len >= 0,
    ensures
        does_fit(content_len, 0) <==> content_len <= MAX_CONTENT_LEN,
        MAX_CONTENT_LEN == (u32::MAX - OUT_SLACK - FLUSH_MARKER_LEN * (MAX_EXTRA_FLUSHES + 1)) / 2,
{
}

/// Where content fits, the output buffer that it needs has a length of 32 bits, whatever the number of
/// trailing empty markers.
pub proof fn law_buffer_fits(content_len: int, mid_flushes: int, extra_flushes: int)
    requires
        content_len >= 0,
        mid_flushes >= 0,
        0 <= extra_flushes <= MAX_EXTRA_FLUSHES,
        does_fit(content_len, mid_flushes),
    ensures
        content_len * 2 + OUT_SLACK + FLUSH_MARKER_LEN * (mid_flushes + 1 + extra_flushes)
            <= u32::MAX,
{
}

/// Whether offsets do not descend and lie inside the content.
pub open spec fn are_offsets(flushes: Seq<usize>, len: nat) -> bool {
    &&& forall|i: int, j: int|
        0 <= i < j < flushes.len() ==> (#[trigger] flushes[i]) <= (#[trigger] flushes[j])
    &&& forall|i: int| 0 <= i < flushes.len() ==> #[trigger] flushes[i] <= len
}

/// Where chunk `k` starts.
pub open spec fn chunk_start(flushes: Seq<usize>, k: int) -> int {
    if k == 0 {
        0
    } else {
        flushes[k - 1] as int
    }
}

/// Where chunk `k` ends.
pub open spec fn chunk_end(flushes: Seq<usize>, len: nat, k: int) -> int {
    if k < flushes.len() {
        flushes[k] as int
    } else {
        len as int
    }
}

/// The content split at the offsets of the mid-stream flushes.
pub open spec fn chunks_of(content: Seq<u8>, flushes: Seq<usize>) -> Seq<Seq<u8>> {
    Seq::new(
        (flushes.len() + 1) as nat,
        |k: int|
            content.subrange(chunk_start(flushes, k), chunk_end(flushes, content.len(), k)),
    )
}

/// The bytes of chunks.
pub open spec fn byte_views(chunks: Seq<Vec<u8>>) -> Seq<Seq<u8>> {
    chunks.map_values(|chunk: Vec<u8>| chunk@)
}

/// Splits the content at the mid-stream flush offsets; every chunk (including the last) ends in a sync
/// marker, matching the write-then-flush boundaries of the source stream.
pub fn split_chunks(content: &[u8], flushes: &Vec<usize>) -> (chunks: Vec<Vec<u8>>)
    requires
        are_offsets(flushes@, content@.len()),
    ensures
        byte_views(chunks@) == chunks_of(content@, flushes@),
{
    let ghost expected = chunks_of(content@, flushes@);
    let mut chunks: Vec<Vec<u8>> = Vec::new();
    let mut start: usize = 0;
    let mut k: usize = 0;
    assert(byte_views(chunks@) =~= expected.take(0));
    while k < flushes.len()
        invariant
            k <= flushes@.len(),
            are_offsets(flushes@, content@.len()),
            expected == chunks_of(content@, flushes@),
            start == chunk_start(flushes@, k as int),
            byte_views(chunks@) == expected.take(k as int),
        decreases flushes@.len() - k,
    {
        let end: usize = flushes[k];
        assert(start <= end <= content.len());
        let ghost before = chunks@;
        chunks.push(vstd::slice::slice_to_vec(vstd::slice::slice_subrange(content, start, end)));
        proof {
            assert(byte_views(chunks@) =~= byte_views(before).push(expected[k as int]));
            assert(expected.take(k + 1) =~= expected.take(k as int).push(expected[k as int]));
        }
        start = end;
        k = k + 1;
    }
    let ghost before = chunks@;
    assert(start <= content@.len());
    chunks.push(
        vstd::slice::slice_to_vec(vstd::slice::slice_subrange(content, start, content.len())),
    );
    proof {
        assert(byte_views(chunks@) =~= byte_views(before).push(expected[k as int]));
        assert(expected.take(k + 1) =~= expected.take(k as int).push(expected[k as int]));
        assert(expected.take(k + 1) =~= expected);
    }
    chunks
}

/// The first chunks make up the content up to where the last of them ends.
proof fn lemma_chunks_join(content: Seq<u8>, flushes: Seq<usize>, n: nat)
    requires
        are_offsets(flushes, content.len()),
        n <= flushes.len() + 1,
    ensures
        chunks_of(content, flushes).take(n as int).flatten() == content.take(
            if n == 0 {
                0
            } else {
                chunk_end(flushes, content.len(), n - 1)
            },
        ),
    decreases n,
{
    let chunks = chunks_of(content, flushes);
    if n == 0 {
        assert(chunks.take(0) =~= Seq::empty());
        assert(chunks.take(0).flatten() =~= Seq::<u8>::empty());
        assert(content.take(0) =~= Seq::empty());
    } else {
        lemma_chunks_join(content, flushes, (n - 1) as nat);
        let front = chunks.take(n - 1);
        let last = chunks[n - 1];
        assert(chunks.take(n as int) =~= front.push(last));
        front.lemma_flatten_push(last);
        let start = chunk_start(flushes, n - 1);
        let end = chunk_end(flushes, content.len(), n - 1);
        assert(start <= end <= content.len());
        assert(content.take(start) + last =~= content.take(end));
    }
}

/// The chunks, one after the other, are the content.
pub proof fn law_chunks_are_content(content: Seq<u8>, flushes: Seq<usize>)
    requires
        are_offsets(flushes, content.len()),
    ensures
        chunks_of(content, flushes).flatten() == content,
{
    let chunks = chunks_of(content, flushes);
    lemma_chunks_join(content, flushes, (flushes.len() + 1) as nat);
    assert(chunks.take((flushes.len() + 1) as int) =~= chunks);
    assert(content.take(content.len() as int) =~= content);
}

/// Content fits exactly if twice its length and six bytes for each flush inside it stay within the greatest
/// length of a buffer, with room for its own margin and for 256 flushes more.
pub proof fn law_what_fits(content_len: int, mid_flushes: int)
    ensures
        does_fit(content_len, mid_flushes) <==> 2 * content_len + 6 * mid_flushes <= 0xffff_ffff - 1
            - 1024 - 6 * 256,
{
}

/// Chunk by chunk, content is cut at each offset: a chunk starts where the one before it ends.
pub proof fn law_chunks_meet_at_offsets(content: Seq<u8>, flushes: Seq<usize>, k: int)
    requires
        are_offsets(flushes, content.len()),
        0 <= k <= flushes.len(),
    ensures
        chunks_of(content, flushes).len() == flushes.len() + 1,
        ({
            let start: int = if k == 0 {
                0
            } else {
                flushes[k - 1] as int
            };
            let end: int = if k == flushes.len() {
                content.len() as int
            } else {
                flushes[k] as int
            };
            chunks_of(content, flushes)[k] == content.subrange(start, end)
        }),
{
}

} // verus!
