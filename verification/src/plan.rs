//! How a download is cut into byte ranges: into a fixed number of shares,
//! one per worker, or into chunks of a fixed size.
use vstd::prelude::*;

verus! {

/// The number of bytes in one share: the file size divided by the number of
/// shares, rounded up.
pub open spec fn share_size(file_size: u64, parts: u64) -> int {
    (file_size + parts - 1) / (parts as int)
}

/// The inclusive byte range `(start, end)` of share `i`: it starts at
/// `i * size` and ends just before `(i + 1) * size` or the file's end,
/// whichever comes first. A share that starts at or past the file's end
/// holds no byte (its end is the file's last byte, before its start). For an
/// empty file every share is `(0, 0)`.
pub open spec fn share_range(file_size: u64, parts: u64, i: int) -> (u64, u64) {
    let size = share_size(file_size, parts);
    if file_size == 0 {
        (0, 0)
    } else {
        let next = if (i + 1) * size <= file_size {
            (i + 1) * size
        } else {
            file_size as int
        };
        ((i * size) as u64, (next - 1) as u64)
    }
}

/// Byte `p` belongs to share `i`.
pub open spec fn in_share(file_size: u64, parts: u64, i: int, p: int) -> bool {
    let (start, end) = share_range(file_size, parts, i);
    start <= p <= end
}

/// The sizes for which the share computation fits in 64 bits: the file size
/// plus the number of shares must be a `u64`.
pub open spec fn shares_fit(file_size: u64, parts: u64) -> bool {
    parts > 0 && file_size + parts <= u64::MAX
}

proof fn lemma_share_size(file_size: u64, parts: u64)
    requires
        shares_fit(file_size, parts),
    ensures
        share_size(file_size, parts) * parts <= file_size + parts - 1,
        share_size(file_size, parts) * parts >= file_size,
        0 <= share_size(file_size, parts) <= u64::MAX,
        file_size > 0 ==> share_size(file_size, parts) >= 1,
{
    let n = parts as int;
    let t = file_size + parts - 1;
    let q = t / n;
    assert(q * n + t % n == t && 0 <= t % n < n) by (nonlinear_arith)
        requires
            n > 0,
            q == t / n,
    ;
    assert(0 <= q <= t) by (nonlinear_arith)
        requires
            n > 0,
            q == t / n,
            t >= 0,
    ;
}

/// The start of every share fits in 64 bits, and so does the byte after its
/// last full byte.
proof fn lemma_share_start(file_size: u64, parts: u64, i: int)
    requires
        shares_fit(file_size, parts),
        0 <= i < parts,
    ensures
        0 <= i * share_size(file_size, parts),
        i * share_size(file_size, parts) + share_size(file_size, parts) == (i + 1) * share_size(
            file_size,
            parts,
        ),
        (i + 1) * share_size(file_size, parts) <= file_size + parts - 1,
{
    lemma_share_size(file_size, parts);
    let s = share_size(file_size, parts);
    assert(0 <= i * s && (i + 1) * s <= parts * s && i * s + s == (i + 1) * s) by (nonlinear_arith)
        requires
            0 <= i < parts,
            s >= 0,
    ;
}

/// Cuts `file_size` bytes into `parts` shares, as the threaded download does.
pub fn share_ranges(file_size: u64, parts: usize) -> (r: Vec<(u64, u64)>)
    requires
        parts > 0,
        file_size + parts <= u64::MAX,
    ensures
        r@.len() == parts,
        forall|i: int| 0 <= i < parts ==> #[trigger] r@[i] == share_range(file_size, parts as u64, i),
{
    let n = parts as u64;
    proof {
        lemma_share_size(file_size, n);
    }
    let size = (file_size + n - 1) / n;
    let mut r: Vec<(u64, u64)> = Vec::new();
    let mut i: usize = 0;
    while i < parts
        invariant
            i <= parts,
            n == parts as u64,
            shares_fit(file_size, n),
            size == share_size(file_size, n),
            r@.len() == i,
            forall|j: int| 0 <= j < i ==> #[trigger] r@[j] == share_range(file_size, n, j),
        decreases parts - i,
    {
        proof {
            lemma_share_start(file_size, n, i as int);
            if file_size == 0 {
                assert(size == 0) by (nonlinear_arith)
                    requires
                        size == (file_size + n - 1) / (n as int),
                        file_size == 0,
                        n > 0,
                ;
                assert(i * size == 0) by (nonlinear_arith)
                    requires
                        size == 0,
                ;
            }
        }
        let start = i as u64 * size;
        let last = start.saturating_add(size).saturating_sub(1);
        let end = if last >= file_size || file_size == 0 {
            file_size.saturating_sub(1)
        } else {
            last
        };
        proof {
            lemma_share_size(file_size, n);
            if file_size > 0 {
                assert(start + size == (i + 1) * share_size(file_size, n));
                assert(last == (i + 1) * share_size(file_size, n) - 1);
            }
            assert((start, end) == share_range(file_size, n, i as int));
        }
        r.push((start, end));
        i = i + 1;
    }
    r
}

/// The shares cut the file into disjoint ranges that together hold each of
/// its bytes: every byte of the file is in exactly one share, and no share
/// holds a byte past the file's end. (For an empty file every share is the
/// range `0..=0`.)
pub proof fn lemma_shares_partition(file_size: u64, parts: u64, p: int)
    requires
        shares_fit(file_size, parts),
        file_size > 0,
    ensures
        0 <= p < file_size ==> exists|i: int| 0 <= i < parts && #[trigger] in_share(file_size, parts, i, p),
        forall|i: int, j: int|
            0 <= i < parts && 0 <= j < parts && #[trigger] in_share(file_size, parts, i, p)
                && #[trigger] in_share(file_size, parts, j, p) ==> i == j,
        forall|i: int| 0 <= i < parts && #[trigger] in_share(file_size, parts, i, p) ==> p < file_size,
{
    lemma_share_size(file_size, parts);
    let s = share_size(file_size, parts);
    assert forall|i: int| 0 <= i < parts && #[trigger] in_share(file_size, parts, i, p) implies {
        &&& i * s <= p < (i + 1) * s
        &&& p < file_size
    } by {
        lemma_share_start(file_size, parts, i);
    }
    if 0 <= p < file_size {
        let i = p / s;
        assert(i * s <= p < (i + 1) * s && 0 <= i) by (nonlinear_arith)
            requires
                s >= 1,
                p >= 0,
                i == p / s,
        ;
        assert(i < parts) by (nonlinear_arith)
            requires
                i * s <= p,
                p < file_size,
                file_size <= s * parts,
                s >= 1,
        ;
        lemma_share_start(file_size, parts, i);
        assert(in_share(file_size, parts, i, p));
    }
    assert forall|i: int, j: int|
        0 <= i < parts && 0 <= j < parts && #[trigger] in_share(file_size, parts, i, p)
            && #[trigger] in_share(file_size, parts, j, p) implies i == j by {
        assert(i * s <= p < (i + 1) * s);
        assert(j * s <= p < (j + 1) * s);
        assert(i == j) by (nonlinear_arith)
            requires
                i * s <= p < (i + 1) * s,
                j * s <= p < (j + 1) * s,
                s >= 1,
        ;
    }
}

/// The size of one chunk of a chunked download: 1 MiB.
pub const CHUNK_SIZE: u64 = 1048576;

/// The number of chunks for `total` bytes: `total / CHUNK_SIZE`, rounded up.
pub open spec fn chunk_count(total: u64) -> int {
    (total + CHUNK_SIZE - 1) / (CHUNK_SIZE as int)
}

/// The inclusive byte range of chunk `k`: from `k * CHUNK_SIZE` over
/// `CHUNK_SIZE` bytes, cut back to the last byte.
pub open spec fn chunk_range(total: u64, k: int) -> (u64, u64) {
    let start = k * CHUNK_SIZE;
    let end = if start + CHUNK_SIZE - 1 <= total - 1 {
        start + CHUNK_SIZE - 1
    } else {
        total - 1
    };
    (start as u64, end as u64)
}

proof fn lemma_chunk_bounds(total: u64, k: int)
    requires
        0 <= k < chunk_count(total),
    ensures
        k * CHUNK_SIZE < total,
        total <= u64::MAX - CHUNK_SIZE + 1 ==> k * CHUNK_SIZE + CHUNK_SIZE <= u64::MAX,
        k * CHUNK_SIZE + CHUNK_SIZE - 1 <= u64::MAX,
        (k + 1) < chunk_count(total) ==> (k + 1) * CHUNK_SIZE < total,
{
    let c = CHUNK_SIZE as int;
    let t = total as int;
    assert(k * c < t) by (nonlinear_arith)
        requires
            0 <= k < (t + c - 1) / c,
            c == 1048576,
            t >= 0,
    ;
    if total <= u64::MAX - CHUNK_SIZE + 1 {
        assert(k * c + c <= 0xffff_ffff_ffff_ffff) by (nonlinear_arith)
            requires
                0 <= k,
                k * c < t,
                t <= 0xffff_ffff_ffff_ffff - c + 1,
                c == 1048576,
        ;
    }
    assert(k * c + c - 1 <= 0xffff_ffff_ffff_ffff) by (nonlinear_arith)
        requires
            0 <= k,
            k * c < t,
            t <= 0xffff_ffff_ffff_ffff,
            c == 1048576,
    ;
    if k + 1 < chunk_count(total) {
        assert((k + 1) * c < t) by (nonlinear_arith)
            requires
                0 <= k + 1 < (t + c - 1) / c,
                c == 1048576,
                t >= 0,
        ;
    }
}

/// Cuts `total` bytes into chunks of `CHUNK_SIZE`, as the chunked download
/// does. The end of the last chunk start plus `CHUNK_SIZE` must be a `u64`.
pub fn chunk_ranges(total: u64) -> (r: Vec<(u64, u64)>)
    requires
        total <= u64::MAX - CHUNK_SIZE + 1,
    ensures
        r@.len() == chunk_count(total),
        forall|k: int| 0 <= k < r@.len() ==> #[trigger] r@[k] == chunk_range(total, k),
{
    let count: u64 = if total % CHUNK_SIZE == 0 {
        total / CHUNK_SIZE
    } else {
        total / CHUNK_SIZE + 1
    };
    assert(count == chunk_count(total)) by (nonlinear_arith)
        requires
            count == (if total % 1048576 == 0 {
                (total / 1048576) as int
            } else {
                total / 1048576 + 1
            }),
    ;
    let mut r: Vec<(u64, u64)> = Vec::new();
    let mut k: u64 = 0;
    while k < count
        invariant
            k <= count,
            count == chunk_count(total),
            total <= u64::MAX - CHUNK_SIZE + 1,
            r@.len() == k,
            forall|j: int| 0 <= j < k ==> #[trigger] r@[j] == chunk_range(total, j),
        decreases count - k,
    {
        proof {
            lemma_chunk_bounds(total, k as int);
        }
        let start = k * CHUNK_SIZE;
        let end = (start + CHUNK_SIZE - 1).min(total - 1);
        r.push((start, end));
        k = k + 1;
    }
    r
}

/// The chunks tile the file: the first starts at byte 0, each one holds
/// between 1 and `CHUNK_SIZE` bytes, each begins right after the previous
/// one ends, and the last ends at the file's last byte.
pub proof fn lemma_chunks_tile(total: u64)
    ensures
        total == 0 <==> chunk_count(total) == 0,
        total > 0 ==> chunk_range(total, 0).0 == 0,
        total > 0 ==> chunk_range(total, chunk_count(total) - 1).1 == total - 1,
        forall|k: int|
            0 <= k < chunk_count(total) ==> {
                let (start, end) = #[trigger] chunk_range(total, k);
                start <= end && end - start < CHUNK_SIZE
            },
        forall|k: int|
            0 <= k && k + 1 < chunk_count(total) ==> #[trigger] chunk_range(total, k + 1).0
                == chunk_range(total, k).1 + 1,
{
    let c = CHUNK_SIZE as int;
    let t = total as int;
    assert(t == 0 <==> (t + c - 1) / c == 0) by (nonlinear_arith)
        requires
            t >= 0,
            c == 1048576,
    ;
    assert forall|k: int| 0 <= k < chunk_count(total) implies {
        let (start, end) = #[trigger] chunk_range(total, k);
        start <= end && end - start < CHUNK_SIZE
    } by {
        lemma_chunk_bounds(total, k);
    }
    assert forall|k: int| 0 <= k && k + 1 < chunk_count(total) implies #[trigger] chunk_range(
        total,
        k + 1,
    ).0 == chunk_range(total, k).1 + 1 by {
        lemma_chunk_bounds(total, k);
        lemma_chunk_bounds(total, k + 1);
        assert((k + 1) * c == k * c + c) by (nonlinear_arith);
    }
    if total > 0 {
        let k = chunk_count(total) - 1;
        lemma_chunk_bounds(total, k);
        assert(k * c + c - 1 >= t - 1) by (nonlinear_arith)
            requires
                k == (t + c - 1) / c - 1,
                c == 1048576,
                t > 0,
        ;
    }
}

} // verus!
