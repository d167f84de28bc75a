use vstd::prelude::*;
use vstd::string::StringExecFns;

use super::error::DownloadError;
use super::segment::SegmentState;
use super::url::view_of;
use super::state::{all_done, bytes_written_sum, fresh_segments, lemma_sum_update, DownloadState};
use crate::text::{decimal, eq_ignore_ascii_case, eq_ignoring_ascii_case, push_decimal};

verus! {

/// The number of connections actually used: at least one.
pub fn effective_connections(connections: usize) -> (n: usize)
    ensures
        n == if connections == 0 { 1 } else { connections },
{
    if connections == 0 {
        1
    } else {
        connections
    }
}

/// The server's `Accept-Ranges` header says it serves byte ranges.
pub open spec fn accepts_byte_ranges(accept_ranges: Option<Seq<char>>) -> bool {
    match accept_ranges {
        Some(v) => eq_ignoring_ascii_case(v, "bytes"@),
        None => false,
    }
}

/// Check the answer to the HEAD request: the server must advertise
/// `Accept-Ranges: bytes` (case-insensitively) and give a `Content-Length`,
/// which is returned.
///
/// `accept_ranges` is the header's value where it is present and readable as
/// text.
pub fn check_head(accept_ranges: Option<&str>, content_length: Option<u64>) -> (size: Result<
    u64,
    DownloadError,
>)
    ensures
        !accepts_byte_ranges(view_of(accept_ranges)) ==> size matches Err(
            DownloadError::RangeNotSupported,
        ),
        accepts_byte_ranges(view_of(accept_ranges)) && content_length is None
            ==> size matches Err(DownloadError::UnknownContentLength),
        accepts_byte_ranges(view_of(accept_ranges)) && content_length is Some
            ==> size == Ok::<u64, DownloadError>(content_length.unwrap()),
{
    let accepts = match accept_ranges {
        Some(v) => eq_ignore_ascii_case(v, "bytes"),
        None => false,
    };
    if !accepts {
        return Err(DownloadError::RangeNotSupported);
    }
    match content_length {
        Some(n) => Ok(n),
        None => Err(DownloadError::UnknownContentLength),
    }
}

/// A saved state can be resumed: it belongs to the same URL, the file has the
/// same size, and the download is not finished.
pub open spec fn can_resume(existing: Option<DownloadState>, url: Seq<char>, total_size: u64) -> bool {
    match existing {
        Some(s) => s.url@ == url && s.total_size == total_size && !all_done(s.segments@),
        None => false,
    }
}

/// Resume from the saved state when it can be resumed; otherwise start a
/// fresh state. The flag tells whether the download resumes.
pub fn resume_or_new(
    existing: Option<DownloadState>,
    url: &str,
    filename: &str,
    total_size: u64,
    connections: usize,
) -> (chosen: (DownloadState, bool))
    requires
        connections > 0,
    ensures
        chosen.1 == can_resume(existing, url@, total_size),
        chosen.1 == (existing is Some && existing.unwrap().url@ == url@
            && existing.unwrap().total_size == total_size && exists|i: int|
            0 <= i < existing.unwrap().segments@.len()
                && #[trigger] existing.unwrap().segments@[i].bytes_written < (
            existing.unwrap().segments@[i].end - existing.unwrap().segments@[i].start + 1) % 0x1_0000_0000_0000_0000),
        chosen.1 ==> chosen.0 == existing.unwrap(),
        !chosen.1 ==> {
            &&& chosen.0.url@ == url@
            &&& chosen.0.filename@ == filename@
            &&& chosen.0.total_size == total_size
            &&& chosen.0.segments@ == fresh_segments(total_size as nat, connections as nat)
        },
{
    proof {
        lemma_resume_iff_unfinished(existing, url@, total_size);
    }
    match existing {
        Some(s) => {
            let url_owned = String::from_str(url);
            if s.url == url_owned && s.total_size == total_size && !s.is_complete() {
                (s, true)
            } else {
                (DownloadState::new(url, filename, total_size, connections), false)
            }
        },
        None => (DownloadState::new(url, filename, total_size, connections), false),
    }
}

/// The unfinished segments of `segs`, each with its index, in order.
pub open spec fn pending_of(segs: Seq<SegmentState>) -> Seq<(usize, SegmentState)>
    decreases segs.len(),
{
    if segs.len() == 0 {
        Seq::empty()
    } else if segs.last().is_done() {
        pending_of(segs.drop_last())
    } else {
        pending_of(segs.drop_last()).push(((segs.len() - 1) as usize, segs.last()))
    }
}

/// The segments that still need downloading, each with its index, in order;
/// finished segments are skipped.
pub fn pending_segments(state: &DownloadState) -> (pending: Vec<(usize, SegmentState)>)
    ensures
        pending@ == pending_of(state.segments@),
        forall|k: int|
            0 <= k < pending@.len() ==> {
                let (i, seg) = #[trigger] pending@[k];
                &&& 0 <= i < state.segments@.len()
                &&& state.segments@[i as int] == seg
                &&& seg.bytes_written < (seg.end - seg.start + 1) % 0x1_0000_0000_0000_0000
            },
        forall|i: int|
            0 <= i < state.segments@.len() && #[trigger] state.segments@[i].bytes_written < (
            state.segments@[i].end - state.segments@[i].start + 1) % 0x1_0000_0000_0000_0000 ==> exists|k: int|
                0 <= k < pending@.len() && pending@[k] == (i as usize, state.segments@[i]),
        forall|a: int, b: int|
            0 <= a < b < pending@.len() ==> (#[trigger] pending@[a]).0 < (#[trigger] pending@[b]).0,
{
    let mut pending: Vec<(usize, SegmentState)> = Vec::new();
    let mut i: usize = 0;
    while i < state.segments.len()
        invariant
            i <= state.segments@.len(),
            pending@ == pending_of(state.segments@.take(i as int)),
        decreases state.segments@.len() - i,
    {
        let seg = state.segments[i];
        proof {
            assert(state.segments@.take(i + 1).drop_last() =~= state.segments@.take(i as int));
        }
        if !seg.is_complete() {
            pending.push((i, seg));
        }
        i = i + 1;
    }
    assert(state.segments@.take(i as int) =~= state.segments@);
    proof {
        lemma_pending_is_every_unfinished_segment(state.segments@);
    }
    pending
}

/// The segments to fetch are exactly the unfinished ones: every listed
/// entry is an unfinished segment with its own index, every unfinished
/// segment (fewer bytes written than `end - start + 1` in `u64` arithmetic)
/// is listed, and the indices increase.
pub proof fn lemma_pending_is_every_unfinished_segment(segs: Seq<SegmentState>)
    requires
        segs.len() <= usize::MAX,
    ensures
        forall|k: int|
            0 <= k < pending_of(segs).len() ==> {
                let (i, seg) = #[trigger] pending_of(segs)[k];
                &&& 0 <= i < segs.len()
                &&& segs[i as int] == seg
                &&& seg.bytes_written < (seg.end - seg.start + 1) % 0x1_0000_0000_0000_0000
            },
        forall|i: int|
            0 <= i < segs.len() && #[trigger] segs[i].bytes_written < (segs[i].end - segs[i].start
                + 1) % 0x1_0000_0000_0000_0000 ==> exists|k: int|
                0 <= k < pending_of(segs).len() && pending_of(segs)[k] == (i as usize, segs[i]),
        forall|a: int, b: int|
            0 <= a < b < pending_of(segs).len() ==> (#[trigger] pending_of(segs)[a]).0 < (
            #[trigger] pending_of(segs)[b]).0,
    decreases segs.len(),
{
    lemma_nothing_pending_iff_complete(segs);
    if segs.len() > 0 {
        let init = segs.drop_last();
        let n = segs.len();
        lemma_pending_is_every_unfinished_segment(init);
        lemma_nothing_pending_iff_complete(init);
        let p = pending_of(init);
        let q = pending_of(segs);
        assert forall|k: int| 0 <= k < p.len() implies q[k] == p[k] && (p[k].0 as int) < n - 1 by {
            let (i, seg) = p[k];
            assert(0 <= i < init.len());
        }
        assert forall|i: int|
            0 <= i < segs.len() && #[trigger] segs[i].bytes_written < (segs[i].end - segs[i].start
                + 1) % 0x1_0000_0000_0000_0000 implies exists|k: int|
            0 <= k < q.len() && q[k] == (i as usize, segs[i]) by {
            if i < n - 1 {
                assert(init[i] == segs[i]);
                assert(init[i].bytes_written < (init[i].end - init[i].start + 1) % 0x1_0000_0000_0000_0000);
                let k = choose|k: int| 0 <= k < p.len() && p[k] == (i as usize, init[i]);
                assert(q[k] == p[k]);
            } else {
                assert(!segs.last().is_done());
                assert(q[q.len() - 1] == ((n - 1) as usize, segs.last()));
            }
        }
        assert forall|a: int, b: int| 0 <= a < b < q.len() implies (#[trigger] q[a]).0 < (
        #[trigger] q[b]).0 by {
            if b < p.len() {
                assert(q[a] == p[a] && q[b] == p[b]);
            } else {
                assert(q[a] == p[a]);
                assert(q[b] == ((n - 1) as usize, segs.last()));
            }
        }
    }
}

/// A saved state is resumed exactly when it is for the same URL and size
/// and some segment has fewer bytes written than it covers.
pub proof fn lemma_resume_iff_unfinished(
    existing: Option<DownloadState>,
    url: Seq<char>,
    total_size: u64,
)
    ensures
        can_resume(existing, url, total_size) == (existing is Some && existing.unwrap().url@ == url
            && existing.unwrap().total_size == total_size && exists|i: int|
            0 <= i < existing.unwrap().segments@.len()
                && #[trigger] existing.unwrap().segments@[i].bytes_written < (
            existing.unwrap().segments@[i].end - existing.unwrap().segments@[i].start + 1) % 0x1_0000_0000_0000_0000),
{
    if let Some(s) = existing {
        if !all_done(s.segments@) {
            let i = choose|i: int| 0 <= i < s.segments@.len() && !(#[trigger] s.segments@[i].is_done());
            assert(s.segments@[i].bytes_written < (s.segments@[i].end - s.segments@[i].start + 1)
                % 0x1_0000_0000_0000_0000);
        }
        if exists|i: int|
            0 <= i < s.segments@.len() && #[trigger] s.segments@[i].bytes_written < (
            s.segments@[i].end - s.segments@[i].start + 1) % 0x1_0000_0000_0000_0000 {
            let i = choose|i: int|
                0 <= i < s.segments@.len() && #[trigger] s.segments@[i].bytes_written < (
                s.segments@[i].end - s.segments@[i].start + 1) % 0x1_0000_0000_0000_0000;
            assert(!s.segments@[i].is_done());
        }
    }
}

/// Nothing is left to fetch exactly when every segment is done: the
/// segments [`pending_segments`] hands out are the ones that keep
/// [`DownloadState::is_complete`] false.
pub proof fn lemma_nothing_pending_iff_complete(segs: Seq<SegmentState>)
    requires
        segs.len() <= usize::MAX,
    ensures
        pending_of(segs).len() == 0 <==> all_done(segs),
        forall|k: int|
            0 <= k < pending_of(segs).len() ==> {
                let (i, seg) = #[trigger] pending_of(segs)[k];
                &&& 0 <= i < segs.len()
                &&& segs[i as int] == seg
                &&& !seg.is_done()
            },
    decreases segs.len(),
{
    if segs.len() > 0 {
        let init = segs.drop_last();
        lemma_nothing_pending_iff_complete(init);
        if all_done(segs) {
            assert(all_done(init)) by {
                assert forall|i: int| 0 <= i < init.len() implies #[trigger] init[i].is_done() by {
                    assert(segs[i].is_done());
                }
            }
        }
        if all_done(init) && segs.last().is_done() {
            assert forall|i: int| 0 <= i < segs.len() implies #[trigger] segs[i].is_done() by {
                if i < init.len() {
                    assert(init[i].is_done());
                }
            }
        }
        if !all_done(init) {
            let i = choose|i: int| 0 <= i < init.len() && !(#[trigger] init[i].is_done());
            assert(!segs[i].is_done());
        }
        assert forall|k: int| 0 <= k < pending_of(segs).len() implies {
            let (i, seg) = #[trigger] pending_of(segs)[k];
            &&& 0 <= i < segs.len()
            &&& segs[i as int] == seg
            &&& !seg.is_done()
        } by {
            if k < pending_of(init).len() {
                assert(pending_of(segs)[k] == pending_of(init)[k]);
                let (i, seg) = pending_of(init)[k];
                assert(init[i as int] == segs[i as int]);
            } else {
                assert(pending_of(segs)[k] == ((segs.len() - 1) as usize, segs.last()));
            }
        }
    }
}

/// The `Range` header value that requests the rest of a segment:
/// `bytes=<resume offset>-<end>`.
pub open spec fn range_header_text(seg: SegmentState) -> Seq<char> {
    "bytes="@ + decimal((seg.start + seg.bytes_written) as nat) + "-"@ + decimal(seg.end as nat)
}

/// Builds the `Range` header value for the rest of `seg`.
pub fn range_header(seg: &SegmentState) -> (header: String)
    requires
        seg.start + seg.bytes_written <= u64::MAX,
    ensures
        header@ == range_header_text(*seg),
{
    let resume_from = seg.resume_offset();
    let mut header = String::from_str("bytes=");
    push_decimal(&mut header, resume_from);
    header.append("-");
    push_decimal(&mut header, seg.end);
    header
}

/// Record that `len` more bytes of segment `index` were written at `offset`;
/// returns the offset where the next chunk goes.
pub fn record_chunk(state: &mut DownloadState, index: usize, offset: u64, len: u64) -> (next: u64)
    requires
        index < old(state).segments@.len(),
        old(state).segments@[index as int].bytes_written + len <= u64::MAX,
        offset + len <= u64::MAX,
    ensures
        next == offset + len,
        final(state).url == old(state).url,
        final(state).filename == old(state).filename,
        final(state).total_size == old(state).total_size,
        final(state).segments@ == old(state).segments@.update(
            index as int,
            SegmentState {
                bytes_written: (old(state).segments@[index as int].bytes_written + len) as u64,
                ..old(state).segments@[index as int]
            },
        ),
        bytes_written_sum(final(state).segments@) == bytes_written_sum(old(state).segments@) + len,
{
    let mut seg = state.segments[index];
    seg.bytes_written = seg.bytes_written + len;
    state.segments.set(index, seg);
    proof {
        lemma_sum_update(old(state).segments@, index as int, seg);
    }
    offset + len
}

/// What happened while a segment's response body streamed in.
pub enum StreamEvent {
    /// The download was cancelled.
    Cancelled,
    /// A chunk of this many bytes was written at the current offset.
    Chunk(u64),
    /// Reading the body failed.
    Failed(reqwest::Error),
    /// The body ended: the segment is complete.
    Finished,
}

/// What a segment task does next.
pub enum SegmentStep {
    /// Keep streaming; the next chunk goes at `offset`.
    Next { offset: u64 },
    /// Stop: save the state first when `save` is set, then end the task with
    /// `result`.
    Stop { save: bool, result: Result<(), DownloadError> },
}

/// One step of a segment task. A written chunk is recorded (see
/// [`record_chunk`]) and streaming goes on; cancellation and a failed body
/// save the state and stop with `Cancelled` or the HTTP error; the end of
/// the body stops with success, without saving.
pub fn segment_step(state: &mut DownloadState, index: usize, offset: u64, event: StreamEvent) -> (step:
    SegmentStep)
    requires
        event matches StreamEvent::Chunk(len) ==> {
            &&& index < old(state).segments@.len()
            &&& old(state).segments@[index as int].bytes_written + len <= u64::MAX
            &&& offset + len <= u64::MAX
        },
    ensures
        match event {
            StreamEvent::Cancelled => {
                &&& step == (SegmentStep::Stop {
                    save: true,
                    result: Err(DownloadError::Cancelled),
                })
                &&& *final(state) == *old(state)
            },
            StreamEvent::Chunk(len) => {
                &&& step == (SegmentStep::Next { offset: (offset + len) as u64 })
                &&& final(state).url == old(state).url
                &&& final(state).filename == old(state).filename
                &&& final(state).total_size == old(state).total_size
                &&& final(state).segments@ == old(state).segments@.update(
                    index as int,
                    SegmentState {
                        bytes_written: (old(state).segments@[index as int].bytes_written
                            + len) as u64,
                        ..old(state).segments@[index as int]
                    },
                )
            },
            StreamEvent::Failed(e) => {
                &&& step == (SegmentStep::Stop { save: true, result: Err(DownloadError::Http(e)) })
                &&& *final(state) == *old(state)
            },
            StreamEvent::Finished => {
                &&& step == (SegmentStep::Stop { save: false, result: Ok(()) })
                &&& *final(state) == *old(state)
            },
        },
{
    match event {
        StreamEvent::Cancelled => SegmentStep::Stop {
            save: true,
            result: Err(DownloadError::Cancelled),
        },
        StreamEvent::Chunk(len) => {
            let next = record_chunk(state, index, offset, len);
            SegmentStep::Next { offset: next }
        },
        StreamEvent::Failed(e) => SegmentStep::Stop {
            save: true,
            result: Err(DownloadError::Http(e)),
        },
        StreamEvent::Finished => SegmentStep::Stop { save: false, result: Ok(()) },
    }
}

/// What to do after one segment task has been awaited.
pub enum AwaitStep {
    /// Go on with the next task; `cancelled` records whether any task so far
    /// stopped because of cancellation.
    Continue { cancelled: bool },
    /// Save the state and fail the whole download with this error.
    Fail(DownloadError),
}

/// Fold one segment task's outcome into the running result: a cancelled
/// segment is remembered and the others are still awaited, any other error
/// fails the download as `SegmentFailed` for that segment.
pub fn after_segment(cancelled: bool, segment: usize, outcome: Result<(), DownloadError>) -> (step:
    AwaitStep)
    ensures
        match outcome {
            Ok(()) => step == (AwaitStep::Continue { cancelled }),
            Err(DownloadError::Cancelled) => step == (AwaitStep::Continue { cancelled: true }),
            Err(e) => step == AwaitStep::Fail(
                DownloadError::SegmentFailed { segment, source: Box::new(e) },
            ),
        },
{
    match outcome {
        Ok(()) => AwaitStep::Continue { cancelled },
        Err(DownloadError::Cancelled) => AwaitStep::Continue { cancelled: true },
        Err(e) => AwaitStep::Fail(DownloadError::SegmentFailed { segment, source: Box::new(e) }),
    }
}

/// How a download ends once every segment task has been awaited.
#[derive(Debug, Clone, Copy, PartialEq, Eq)]
pub enum Finish {
    /// Save the state and report the download as cancelled.
    SaveAndCancel,
    /// The file is complete: remove the state file.
    Cleanup,
    /// Not complete although no task failed: save the state.
    Save,
}

/// Decide how the download ends: cancelled beats everything; otherwise a
/// complete download cleans up its state file, an incomplete one saves it.
pub fn finish(cancelled: bool, state: &DownloadState) -> (end: Finish)
    ensures
        cancelled ==> end == Finish::SaveAndCancel,
        !cancelled && all_done(state.segments@) ==> end == Finish::Cleanup,
        !cancelled && !all_done(state.segments@) ==> end == Finish::Save,
        !cancelled && (forall|i: int|
            0 <= i < state.segments@.len() ==> #[trigger] state.segments@[i].bytes_written >= (
            state.segments@[i].end - state.segments@[i].start + 1) % 0x1_0000_0000_0000_0000)
            ==> end == Finish::Cleanup,
        !cancelled && (exists|i: int|
            0 <= i < state.segments@.len() && #[trigger] state.segments@[i].bytes_written < (
            state.segments@[i].end - state.segments@[i].start + 1) % 0x1_0000_0000_0000_0000)
            ==> end == Finish::Save,
{
    if cancelled {
        Finish::SaveAndCancel
    } else if state.is_complete() {
        Finish::Cleanup
    } else {
        Finish::Save
    }
}

} // verus!
