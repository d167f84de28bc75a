use vstd::prelude::*;
use vstd::string::StringExecFns;

use super::ranges::{
    lemma_segment_bounds, segment_end, segment_len, segment_start, split_ranges, ByteRange,
};
use super::segment::{u64_modulus, SegmentState};
use vstd::arithmetic::div_mod::{lemma_add_mod_noop, lemma_small_mod};

verus! {

/// Tracks the progress of every segment so a download can be resumed.
///
/// Kept on disk as `<filename>.idm.json` beside the output file.
#[derive(Debug, Clone)]
pub struct DownloadState {
    /// The URL the file is downloaded from.
    pub url: String,
    /// Total file size in bytes.
    pub total_size: u64,
    /// Output filename (basename only).
    pub filename: String,
    /// Per-segment progress.
    pub segments: Vec<SegmentState>,
}

/// Bytes written across all segments of `segs`.
pub open spec fn bytes_written_sum(segs: Seq<SegmentState>) -> int
    decreases segs.len(),
{
    if segs.len() == 0 {
        0
    } else {
        bytes_written_sum(segs.drop_last()) + segs.last().bytes_written
    }
}

/// Every segment of `segs` is done.
pub open spec fn all_done(segs: Seq<SegmentState>) -> bool {
    forall|i: int| 0 <= i < segs.len() ==> #[trigger] segs[i].is_done()
}

/// The segments of a fresh download of `total` bytes over `n` connections:
/// the ranges of [`split_ranges`], nothing written yet.
pub open spec fn fresh_segments(total: nat, n: nat) -> Seq<SegmentState> {
    Seq::new(
        n,
        |i: int|
            SegmentState {
                start: segment_start(total, n, i as nat) as u64,
                end: segment_end(total, n, i as nat) as u64,
                bytes_written: 0,
            },
    )
}

/// The segments cover the file `[0, total)` one after another, without gap
/// or overlap, and each one's size is its true size (empty ones included).
pub open spec fn tiles_file(segs: Seq<SegmentState>, total: nat) -> bool {
    &&& segs.len() > 0
    &&& segs[0].start == 0
    &&& segs.last().end + 1 == total
    &&& forall|i: int| 0 <= i < segs.len() - 1 ==> #[trigger] segs[i + 1].start == segs[i].end + 1
    &&& forall|i: int| 0 <= i < segs.len() ==> #[trigger] segs[i].has_exact_size()
}

/// No segment records more bytes than it covers.
pub open spec fn written_within(segs: Seq<SegmentState>) -> bool {
    forall|i: int| 0 <= i < segs.len() ==> #[trigger] segs[i].bytes_written <= segs[i].byte_count()
}

/// `segs` with every segment marked as fully written.
pub open spec fn mark_all_done(segs: Seq<SegmentState>) -> Seq<SegmentState> {
    segs.map_values(
        |s: SegmentState| SegmentState { bytes_written: s.byte_count() as u64, ..s },
    )
}

proof fn lemma_sum_prefix_le(segs: Seq<SegmentState>, k: int)
    requires
        0 <= k <= segs.len(),
    ensures
        bytes_written_sum(segs.take(k)) <= bytes_written_sum(segs),
    decreases segs.len(),
{
    if k < segs.len() {
        assert(segs.drop_last().take(k) =~= segs.take(k));
        lemma_sum_prefix_le(segs.drop_last(), k);
    } else {
        assert(segs.take(k) =~= segs);
    }
}

proof fn lemma_sum_nonneg(segs: Seq<SegmentState>)
    ensures
        bytes_written_sum(segs) >= 0,
    decreases segs.len(),
{
    if segs.len() > 0 {
        lemma_sum_nonneg(segs.drop_last());
    }
}

/// Replacing one segment changes the sum by the difference of the two
/// segments' written bytes.
pub proof fn lemma_sum_update(segs: Seq<SegmentState>, i: int, seg: SegmentState)
    requires
        0 <= i < segs.len(),
    ensures
        bytes_written_sum(segs.update(i, seg)) == bytes_written_sum(segs) - segs[i].bytes_written
            + seg.bytes_written,
    decreases segs.len(),
{
    let upd = segs.update(i, seg);
    if i == segs.len() - 1 {
        assert(upd.drop_last() =~= segs.drop_last());
    } else {
        assert(upd.drop_last() =~= segs.drop_last().update(i, seg));
        lemma_sum_update(segs.drop_last(), i, seg);
    }
}

proof fn lemma_fresh_sum_zero(total: nat, n: nat, k: nat)
    requires
        k <= n,
    ensures
        bytes_written_sum(fresh_segments(total, n).take(k as int)) == 0,
    decreases k,
{
    if k > 0 {
        assert(fresh_segments(total, n).take(k as int).drop_last() =~= fresh_segments(
            total,
            n,
        ).take(k - 1));
        lemma_fresh_sum_zero(total, n, (k - 1) as nat);
    }
}

/// The segments of a fresh download have exact sizes: segment `i` covers
/// `segment_len(total, n, i)` bytes.
proof fn lemma_fresh_byte_count(total: nat, n: nat, i: nat)
    requires
        0 < n,
        total <= u64::MAX,
        i < n,
    ensures
        fresh_segments(total, n)[i as int].byte_count() == segment_len(total, n, i),
        total > 0 ==> fresh_segments(total, n)[i as int].has_exact_size(),
        fresh_segments(total, n)[i as int].start == segment_start(total, n, i),
{
    lemma_segment_bounds(total, n, i);
}

proof fn lemma_done_sum(total: nat, n: nat, k: nat)
    requires
        0 < n,
        total <= u64::MAX,
        k <= n,
    ensures
        bytes_written_sum(mark_all_done(fresh_segments(total, n)).take(k as int)) == segment_start(
            total,
            n,
            k,
        ),
    decreases k,
{
    let done = mark_all_done(fresh_segments(total, n));
    if k > 0 {
        assert(done.take(k as int).drop_last() =~= done.take(k - 1));
        lemma_done_sum(total, n, (k - 1) as nat);
        lemma_segment_bounds(total, n, (k - 1) as nat);
        lemma_fresh_byte_count(total, n, (k - 1) as nat);
    }
}

/// A fresh download of a non-empty file is not complete and has nothing
/// written.
pub proof fn lemma_fresh_state_not_complete(total: u64, n: usize)
    requires
        0 < n,
        0 < total,
    ensures
        !all_done(fresh_segments(total as nat, n as nat)),
        bytes_written_sum(fresh_segments(total as nat, n as nat)) == 0,
{
    let segs = fresh_segments(total as nat, n as nat);
    lemma_segment_bounds(total as nat, n as nat, 0);
    lemma_fresh_byte_count(total as nat, n as nat, 0);
    assert(!segs[0].is_done());
    lemma_fresh_sum_zero(total as nat, n as nat, n as nat);
    assert(segs.take(n as int) =~= segs);
}

/// The segments of a fresh download of a non-empty file tile the file.
pub proof fn lemma_fresh_segments_tile(total: u64, n: usize)
    requires
        0 < n,
        0 < total,
    ensures
        tiles_file(fresh_segments(total as nat, n as nat), total as nat),
{
    let segs = fresh_segments(total as nat, n as nat);
    assert forall|i: int| 0 <= i < segs.len() implies #[trigger] segs[i].has_exact_size() by {
        lemma_fresh_byte_count(total as nat, n as nat, i as nat);
    }
    assert forall|i: int| 0 <= i < segs.len() - 1 implies #[trigger] segs[i + 1].start
        == segs[i].end + 1 by {
        lemma_segment_bounds(total as nat, n as nat, i as nat);
        lemma_segment_bounds(total as nat, n as nat, (i + 1) as nat);
    }
    lemma_segment_bounds(total as nat, n as nat, 0);
    lemma_segment_bounds(total as nat, n as nat, (n - 1) as nat);
}

/// Marking every segment of a fresh download as fully written completes the
/// download, and the bytes written then add up to the file's size.
pub proof fn lemma_all_segments_written_completes(total: u64, n: usize)
    requires
        0 < n,
    ensures
        all_done(mark_all_done(fresh_segments(total as nat, n as nat))),
        bytes_written_sum(mark_all_done(fresh_segments(total as nat, n as nat))) == total,
{
    let segs = fresh_segments(total as nat, n as nat);
    let done = mark_all_done(segs);
    assert forall|i: int| 0 <= i < done.len() implies #[trigger] done[i].is_done() by {
        lemma_fresh_byte_count(total as nat, n as nat, i as nat);
    }
    lemma_done_sum(total as nat, n as nat, n as nat);
    lemma_segment_bounds(total as nat, n as nat, 0);
    assert(done.take(n as int) =~= done);
}

proof fn lemma_prefix_progress(segs: Seq<SegmentState>)
    requires
        segs.len() > 0,
        segs[0].start == 0,
        forall|i: int| 0 <= i < segs.len() - 1 ==> #[trigger] segs[i + 1].start == segs[i].end + 1,
        forall|i: int| 0 <= i < segs.len() ==> #[trigger] segs[i].has_exact_size(),
    ensures
        all_done(segs) ==> bytes_written_sum(segs) >= segs.last().end + 1,
        written_within(segs) ==> bytes_written_sum(segs) <= segs.last().end + 1,
        written_within(segs) ==> (bytes_written_sum(segs) == segs.last().end + 1 <==> all_done(
            segs,
        )),
    decreases segs.len(),
{
    let last = segs.last();
    assert(last.has_exact_size());
    if segs.len() == 1 {
        assert(bytes_written_sum(segs) == bytes_written_sum(segs.drop_last()) + last.bytes_written);
        assert(segs.drop_last().len() == 0);
        if all_done(segs) {
            assert(segs[0].is_done());
        }
        if written_within(segs) && bytes_written_sum(segs) == segs.last().end + 1 {
            assert forall|i: int| 0 <= i < segs.len() implies #[trigger] segs[i].is_done() by {}
        }
        if written_within(segs) {
            assert(segs[0].bytes_written <= segs[0].byte_count());
        }
    } else {
        let init = segs.drop_last();
        assert forall|i: int| 0 <= i < init.len() - 1 implies #[trigger] init[i + 1].start
            == init[i].end + 1 by {
            assert(segs[i + 1].start == segs[i].end + 1);
        }
        assert forall|i: int| 0 <= i < init.len() implies #[trigger] init[i].has_exact_size() by {
            assert(segs[i].has_exact_size());
        }
        lemma_prefix_progress(init);
        let k = segs.len() - 2;
        assert(segs[k + 1].start == segs[k].end + 1);
        assert(init.last() == segs[k]);
        if all_done(segs) {
            assert forall|i: int| 0 <= i < init.len() implies #[trigger] init[i].is_done() by {
                assert(segs[i].is_done());
            }
            assert(segs[k + 1].is_done());
        }
        if written_within(segs) {
            assert forall|i: int| 0 <= i < init.len() implies #[trigger] init[i].bytes_written
                <= init[i].byte_count() by {
                assert(segs[i].bytes_written <= segs[i].byte_count());
            }
            assert(segs[k + 1].bytes_written <= segs[k + 1].byte_count());
            if bytes_written_sum(segs) == segs.last().end + 1 {
                assert forall|i: int| 0 <= i < segs.len() implies #[trigger] segs[i].is_done() by {
                    if i < init.len() {
                        assert(init[i].is_done());
                    }
                }
            }
            if all_done(segs) {
                assert forall|i: int| 0 <= i < init.len() implies #[trigger] init[i].is_done() by {
                    assert(segs[i].is_done());
                }
                assert(segs[k + 1].is_done());
            }
        }
    }
}

/// For segments that tile the file: once all are done, at least the file's
/// size has been written; and where no segment records more than it covers,
/// the bytes written never exceed the file's size and reach it exactly when
/// every segment is done.
pub proof fn lemma_tiling_progress(segs: Seq<SegmentState>, total: nat)
    requires
        tiles_file(segs, total),
    ensures
        all_done(segs) ==> bytes_written_sum(segs) >= total,
        written_within(segs) ==> bytes_written_sum(segs) <= total,
        written_within(segs) ==> (bytes_written_sum(segs) == total <==> all_done(segs)),
{
    lemma_prefix_progress(segs);
}

/// For a state whose segments tile its file and record no more than they
/// cover, [`DownloadState::total_downloaded`] is the exact byte count: at most
/// the file's size, and equal to it exactly when
/// [`DownloadState::is_complete`] holds.
pub proof fn lemma_tiled_state_progress(state: DownloadState)
    requires
        tiles_file(state.segments@, state.total_size as nat),
        written_within(state.segments@),
    ensures
        bytes_written_sum(state.segments@) % u64_modulus() == bytes_written_sum(state.segments@),
        bytes_written_sum(state.segments@) <= state.total_size,
        bytes_written_sum(state.segments@) == state.total_size <==> all_done(state.segments@),
{
    lemma_tiling_progress(state.segments@, state.total_size as nat);
    lemma_sum_nonneg(state.segments@);
    vstd::arithmetic::div_mod::lemma_small_mod(
        bytes_written_sum(state.segments@) as nat,
        u64_modulus() as nat,
    );
}

impl DownloadState {
    /// Build a fresh state for a new download.
    pub fn new(url: &str, filename: &str, total_size: u64, connections: usize) -> (state: Self)
        requires
            connections > 0,
        ensures
            state.url@ == url@,
            state.filename@ == filename@,
            state.total_size == total_size,
            state.segments@ == fresh_segments(total_size as nat, connections as nat),
    {
        let ranges = split_ranges(total_size, connections);
        let mut segments: Vec<SegmentState> = Vec::with_capacity(connections);
        let ghost fresh = fresh_segments(total_size as nat, connections as nat);
        let mut i: usize = 0;
        while i < ranges.len()
            invariant
                ranges@.len() == connections,
                i <= connections,
                segments@.len() == i,
                fresh == fresh_segments(total_size as nat, connections as nat),
                forall|j: int|
                    0 <= j < connections ==> #[trigger] ranges@[j].start as nat == segment_start(
                        total_size as nat,
                        connections as nat,
                        j as nat,
                    ),
                forall|j: int|
                    0 <= j < connections ==> #[trigger] ranges@[j].end as int == segment_end(
                        total_size as nat,
                        connections as nat,
                        j as nat,
                    ),
                forall|j: int| 0 <= j < i ==> #[trigger] segments@[j] == fresh[j],
            decreases connections - i,
        {
            let r: ByteRange = ranges[i];
            segments.push(SegmentState { start: r.start, end: r.end, bytes_written: 0 });
            i = i + 1;
        }
        assert(segments@ =~= fresh);
        DownloadState {
            url: url.to_owned(),
            total_size,
            filename: filename.to_owned(),
            segments,
        }
    }

    /// Path of the sidecar JSON state file: `<filename>.idm.json`.
    pub fn state_path(filename: &str) -> (path: String)
        ensures
            path@ == filename@ + ".idm.json"@,
    {
        let mut path = String::from_str(filename);
        path.append(".idm.json");
        path
    }

    /// Whether every segment is complete.
    pub fn is_complete(&self) -> (done: bool)
        ensures
            done == all_done(self.segments@),
            done == forall|i: int|
                0 <= i < self.segments@.len() ==> #[trigger] self.segments@[i].bytes_written >= (
                self.segments@[i].end - self.segments@[i].start + 1) % 0x1_0000_0000_0000_0000,
    {
        let mut i: usize = 0;
        while i < self.segments.len()
            invariant
                i <= self.segments@.len(),
                forall|j: int| 0 <= j < i ==> #[trigger] self.segments@[j].is_done(),
            decreases self.segments@.len() - i,
        {
            if !self.segments[i].is_complete() {
                return false;
            }
            i = i + 1;
        }
        assert forall|j: int| 0 <= j < self.segments@.len() implies #[trigger] self.segments@[
            j].bytes_written >= (self.segments@[j].end - self.segments@[j].start + 1)
            % 0x1_0000_0000_0000_0000 by {
            assert(self.segments@[j].is_done());
        }
        true
    }

    /// Total bytes already downloaded across all segments, added up in
    /// `u64` arithmetic (which wraps).
    pub fn total_downloaded(&self) -> (total: u64)
        ensures
            total == bytes_written_sum(self.segments@) % u64_modulus(),
    {
        let mut total: u64 = 0;
        let mut i: usize = 0;
        while i < self.segments.len()
            invariant
                i <= self.segments@.len(),
                total == bytes_written_sum(self.segments@.take(i as int)) % u64_modulus(),
            decreases self.segments@.len() - i,
        {
            let written = self.segments[i].bytes_written;
            proof {
                assert(self.segments@.take(i + 1).drop_last() =~= self.segments@.take(i as int));
                lemma_sum_nonneg(self.segments@.take(i as int));
                let s = bytes_written_sum(self.segments@.take(i as int));
                lemma_add_mod_noop(s, written as int, u64_modulus());
                lemma_small_mod(written as nat, u64_modulus() as nat);
            }
            if total <= u64::MAX - written {
                proof {
                    lemma_small_mod((total + written) as nat, u64_modulus() as nat);
                }
                total = total + written;
            } else {
                proof {
                    lemma_mod_sub_modulus(total + written, u64_modulus());
                }
                total = written - (u64::MAX - total) - 1;
            }
            i = i + 1;
        }
        assert(self.segments@.take(i as int) =~= self.segments@);
        total
    }
}

proof fn lemma_mod_sub_modulus(x: int, m: int)
    requires
        0 < m <= x < 2 * m,
    ensures
        x % m == x - m,
{
    let q = x / m;
    let r = x % m;
    vstd::arithmetic::div_mod::lemma_fundamental_div_mod(x, m);
    vstd::arithmetic::div_mod::lemma_mod_pos_bound(x, m);
    assert(q == 1 && r == x - m) by (nonlinear_arith)
        requires
            x == m * q + r,
            0 <= r < m,
            m <= x < 2 * m,
    ;
}

} // verus!
