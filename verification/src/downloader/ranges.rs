use vstd::prelude::*;

verus! {

/// An inclusive byte range `[start, end]` for a single download segment.
#[derive(Debug, Clone, Copy)]
pub struct ByteRange {
    pub start: u64,
    pub end: u64,
}

/// Number of bytes that segment `i` receives when `total` bytes are split
/// into `n` segments: the quotient, plus one for each of the first
/// `total % n` segments.
pub open spec fn segment_len(total: nat, n: nat, i: nat) -> nat
    recommends
        n > 0,
{
    (total / n) + if i < total % n { 1nat } else { 0nat }
}

/// First byte of segment `i`: the lengths of all earlier segments added up.
pub open spec fn segment_start(total: nat, n: nat, i: nat) -> nat
    recommends
        n > 0,
{
    i * (total / n) + if i < total % n { i } else { total % n }
}

/// Last byte of segment `i`: `start + len - 1`, in `u64` arithmetic. Only
/// when the file is empty is that `0 - 1`, which wraps to `u64::MAX`.
pub open spec fn segment_end(total: nat, n: nat, i: nat) -> int
    recommends
        n > 0,
{
    if segment_start(total, n, i) + segment_len(total, n, i) == 0 {
        u64::MAX as int
    } else {
        segment_start(total, n, i) + segment_len(total, n, i) - 1
    }
}

pub(crate) proof fn lemma_segment_bounds(total: nat, n: nat, i: nat)
    requires
        n > 0,
        i < n,
    ensures
        segment_start(total, n, i) + segment_len(total, n, i) == segment_start(total, n, i + 1),
        segment_start(total, n, i + 1) <= total,
        segment_start(total, n, n) == total,
        n <= total ==> segment_len(total, n, i) >= 1,
        total > 0 ==> segment_start(total, n, i) + segment_len(total, n, i) >= 1,
{
    let q = total / n;
    let r = total % n;
    assert(total == n * q + r) by (nonlinear_arith)
        requires
            n > 0,
            q == total / n,
            r == total % n,
    ;
    assert(r < n) by (nonlinear_arith)
        requires
            n > 0,
            r == total % n,
    ;
    assert((i + 1) * q == i * q + q) by (nonlinear_arith);
    assert((i + 1) * q <= n * q) by (nonlinear_arith)
        requires
            i + 1 <= n,
    ;
    if n <= total && q == 0 {
        assert(n * q == 0) by (nonlinear_arith)
            requires
                q == 0,
        ;
    }
    if total > 0 && q == 0 {
        assert(n * q == 0) by (nonlinear_arith)
            requires
                q == 0,
        ;
        assert(r == total);
    }
}

/// The ranges are balanced: an earlier segment is never shorter than a later
/// one, and never more than one byte longer.
pub proof fn lemma_segment_lengths_balanced(total: nat, n: nat, i: nat, j: nat)
    requires
        i <= j < n,
    ensures
        segment_len(total, n, j) <= segment_len(total, n, i) <= segment_len(total, n, j) + 1,
{
}

/// Split `total_bytes` into `n` roughly equal ranges.
///
/// The ranges follow one another without gap or overlap, the first starts at
/// byte 0 and the last ends at byte `total_bytes - 1`; every range holds
/// `total_bytes / n` bytes, and the first `total_bytes % n` ranges hold one
/// byte more. Where `n > total_bytes` the trailing ranges are empty
/// (`end == start - 1`); for an empty file every range is `[0, u64::MAX]`,
/// whose size wraps to 0 in `u64` arithmetic.
pub fn split_ranges(total_bytes: u64, n: usize) -> (ranges: Vec<ByteRange>)
    requires
        n > 0,
    ensures
        ranges@.len() == n,
        forall|i: int|
            0 <= i < n ==> #[trigger] ranges@[i].start as nat == segment_start(
                total_bytes as nat,
                n as nat,
                i as nat,
            ),
        forall|i: int|
            0 <= i < n ==> #[trigger] ranges@[i].end as int == segment_end(
                total_bytes as nat,
                n as nat,
                i as nat,
            ),
        total_bytes > 0 ==> ranges@[0].start == 0,
        total_bytes > 0 ==> ranges@[n - 1].end + 1 == total_bytes,
        total_bytes > 0 ==> forall|i: int|
            0 <= i < n ==> #[trigger] ranges@[i].end + 1 == ranges@[i].start + segment_len(
                total_bytes as nat,
                n as nat,
                i as nat,
            ),
        total_bytes > 0 ==> forall|i: int|
            0 <= i < n - 1 ==> #[trigger] ranges@[i + 1].start == ranges@[i].end + 1,
        total_bytes == 0 ==> forall|i: int|
            0 <= i < n ==> #[trigger] ranges@[i].start == 0 && ranges@[i].end == u64::MAX,
{
    let n64 = n as u64;
    let chunk = total_bytes / n64;
    let remainder = total_bytes % n64;
    let ghost total = total_bytes as nat;

    let mut ranges: Vec<ByteRange> = Vec::with_capacity(n);
    let mut offset: u64 = 0;
    let mut i: usize = 0;

    while i < n
        invariant
            n64 == n,
            n > 0,
            total == total_bytes as nat,
            chunk == total_bytes / n64,
            remainder == total_bytes % n64,
            i <= n,
            ranges@.len() == i,
            offset as nat == segment_start(total, n as nat, i as nat),
            forall|j: int|
                0 <= j < i ==> #[trigger] ranges@[j].start as nat == segment_start(
                    total,
                    n as nat,
                    j as nat,
                ),
            forall|j: int|
                0 <= j < i ==> #[trigger] ranges@[j].end as int == segment_end(
                    total,
                    n as nat,
                    j as nat,
                ),
        decreases n - i,
    {
        proof {
            lemma_segment_bounds(total, n as nat, i as nat);
        }
        // Distribute the remainder across the first `remainder` segments.
        let extra: u64 = if (i as u64) < remainder { 1 } else { 0 };
        assert(chunk as nat == total / (n as nat));
        assert(remainder as nat == total % (n as nat));
        assert(extra + chunk == segment_len(total, n as nat, i as nat));
        let size = chunk + extra;
        // `offset + size - 1` in `u64` arithmetic: it wraps only for an
        // empty file.
        let end = if offset == 0 && size == 0 {
            u64::MAX
        } else {
            offset + size - 1
        };

        ranges.push(ByteRange { start: offset, end });
        offset = if end == u64::MAX {
            0
        } else {
            end + 1
        };
        i = i + 1;
    }
    proof {
        assert(segment_start(total, n as nat, n as nat) == total) by {
            let q = total / (n as nat);
            let r = total % (n as nat);
            assert(total == (n as nat) * q + r) by (nonlinear_arith)
                requires
                    n > 0,
                    q == total / (n as nat),
                    r == total % (n as nat),
            ;
            assert(r < n) by (nonlinear_arith)
                requires
                    n > 0,
                    r == total % (n as nat),
            ;
        }
        if total > 0 {
            assert forall|j: int| 0 <= j < n - 1 implies #[trigger] ranges@[j + 1].start
                == ranges@[j].end + 1 by {
                lemma_segment_bounds(total, n as nat, j as nat);
                lemma_segment_bounds(total, n as nat, (j + 1) as nat);
            }
            assert forall|j: int| 0 <= j < n implies #[trigger] ranges@[j].end + 1 == ranges@[j].start
                + segment_len(total, n as nat, j as nat) by {
                lemma_segment_bounds(total, n as nat, j as nat);
            }
            lemma_segment_bounds(total, n as nat, (n - 1) as nat);
            lemma_segment_bounds(total, n as nat, 0);
        } else {
            assert forall|j: int| 0 <= j < n implies #[trigger] ranges@[j].start == 0
                && ranges@[j].end == u64::MAX by {
                lemma_segment_bounds(total, n as nat, j as nat);
            }
        }
    }
    ranges
}

} // verus!
