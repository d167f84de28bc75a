use vstd::prelude::*;

verus! {

/// Progress for a single byte-range segment.
#[derive(Debug, Clone, Copy)]
pub struct SegmentState {
    /// First byte of this segment (inclusive).
    pub start: u64,
    /// Last byte of this segment (inclusive).
    pub end: u64,
    /// Number of bytes successfully written so far.
    pub bytes_written: u64,
}

/// 2^64: `u64` arithmetic wraps modulo this.
pub open spec fn u64_modulus() -> int {
    0x1_0000_0000_0000_0000
}

impl SegmentState {
    /// Number of bytes the segment covers: `end - start + 1`, computed in
    /// `u64` arithmetic, which wraps. An empty range (`end == start - 1`)
    /// covers 0 bytes.
    pub open spec fn byte_count(self) -> int {
        (self.end - self.start + 1) % u64_modulus()
    }

    /// `start <= end` and `end - start + 1` fits in a `u64`: the segment's
    /// size is its true size.
    pub open spec fn is_measurable(self) -> bool {
        &&& self.start <= self.end
        &&& self.end - self.start < u64::MAX
    }

    /// `start <= end + 1` and `end - start + 1` fits in a `u64`: the
    /// segment's size is its true size, possibly 0.
    pub open spec fn has_exact_size(self) -> bool {
        &&& self.start <= self.end + 1
        &&& self.end - self.start + 1 < u64_modulus()
    }

    /// Every byte of the segment has been written.
    pub open spec fn is_done(self) -> bool {
        self.bytes_written >= self.byte_count()
    }

    /// Bytes still missing, never below zero.
    pub open spec fn missing(self) -> int {
        if self.is_done() {
            0
        } else {
            self.byte_count() - self.bytes_written
        }
    }

    /// The byte offset where downloading should resume.
    pub fn resume_offset(&self) -> (offset: u64)
        requires
            self.start + self.bytes_written <= u64::MAX,
        ensures
            offset == self.start + self.bytes_written,
    {
        self.start + self.bytes_written
    }

    /// Number of bytes the segment covers (see [`SegmentState::byte_count`]).
    pub fn byte_len(&self) -> (len: u64)
        ensures
            len == self.byte_count(),
            len == (self.end - self.start + 1) % 0x1_0000_0000_0000_0000,
    {
        if self.start <= self.end {
            let d = self.end - self.start;
            if d < u64::MAX {
                d + 1
            } else {
                0
            }
        } else {
            let d = self.start - self.end;
            if d == 1 {
                0
            } else {
                u64::MAX - d + 2
            }
        }
    }

    /// Remaining bytes to download for this segment.
    pub fn remaining(&self) -> (rest: u64)
        ensures
            rest == self.missing(),
            rest == if self.bytes_written >= (self.end - self.start + 1) % 0x1_0000_0000_0000_0000 {
                0
            } else {
                (self.end - self.start + 1) % 0x1_0000_0000_0000_0000 - self.bytes_written
            },
    {
        self.byte_len().saturating_sub(self.bytes_written)
    }

    /// Whether this segment has been fully downloaded.
    pub fn is_complete(&self) -> (done: bool)
        ensures
            done == self.is_done(),
            done == (self.bytes_written >= (self.end - self.start + 1) % 0x1_0000_0000_0000_0000),
    {
        self.bytes_written >= self.byte_len()
    }
}

/// A segment of exact size covers `end - start + 1` bytes, and an empty
/// range (`end + 1 == start`) covers none.
pub proof fn lemma_byte_count_of_range(seg: SegmentState)
    ensures
        seg.is_measurable() ==> seg.has_exact_size(),
        seg.has_exact_size() ==> seg.byte_count() == seg.end - seg.start + 1,
        seg.end + 1 == seg.start ==> seg.byte_count() == 0,
{
}

/// A segment is complete exactly when nothing remains to be downloaded.
pub proof fn lemma_complete_iff_nothing_remains(seg: SegmentState)
    ensures
        seg.is_done() <==> seg.missing() == 0,
{
}

/// For an unfinished measurable segment, the request that resumes it, from
/// `resume_offset()` through `end`, asks for exactly `remaining()` bytes,
/// and that request lies inside the segment.
pub proof fn lemma_resume_covers_remaining(seg: SegmentState)
    requires
        seg.is_measurable(),
        !seg.is_done(),
    ensures
        seg.start <= seg.start + seg.bytes_written <= seg.end,
        seg.end - (seg.start + seg.bytes_written) + 1 == seg.missing(),
{
}

} // verus!
