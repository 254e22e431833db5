//! 256-bin byte-frequency histogram kernels.
//!
//! A histogram maps each byte value to a 32-bit occurrence count, stored as a
//! fixed-size array indexed by the byte. Every kernel here accumulates into
//! the caller's histogram (it does not reset it), and its contract states the
//! exact count added to each bin.

use rayon::iter::IndexedParallelIterator;
use rayon::iter::IntoParallelRefMutIterator;
use rayon::iter::ParallelIterator;
use vstd::arithmetic::div_mod::lemma_fundamental_div_mod;
use vstd::arithmetic::div_mod::lemma_remainder_lower;
use vstd::arithmetic::mul::lemma_mul_inequality;
use vstd::arithmetic::mul::lemma_mul_nonnegative;
use vstd::prelude::*;
use vstd::slice::slice_subrange;

verus! {

/// Number of occurrences of the byte `b` in the sequence `s`.
pub open spec fn count_byte(s: Seq<u8>, b: u8) -> int
    decreases s.len(),
{
    if s.len() == 0 {
        0
    } else {
        count_byte(s.drop_last(), b) + if s.last() == b {
            1int
        } else {
            0int
        }
    }
}

/// What every histogram kernel ensures: each bin has grown by exactly the
/// number of occurrences of its byte value in `data`.
pub open spec fn accumulates(before: Seq<u32>, after: Seq<u32>, data: Seq<u8>) -> bool {
    &&& after.len() == 256
    &&& before.len() == 256
    &&& forall|b: u8| #[trigger] after[b as int] == before[b as int] + count_byte(data, b)
}

/// What every histogram kernel requires of its caller: no bin may overflow
/// its 32-bit counter.
pub open spec fn counts_fit(before: Seq<u32>, data: Seq<u8>) -> bool {
    forall|b: u8| #[trigger] before[b as int] + count_byte(data, b) <= u32::MAX
}

/// Reference implementation: one scalar pass over the input.
pub fn standard_histogram(data: &[u8], histogram: &mut [u32; 256])
    requires
        counts_fit(old(histogram)@, data@),
    ensures
        accumulates(old(histogram)@, final(histogram)@, data@),
{
    let n: usize = data.len();
    let mut i: usize = 0;
    while i < n
        invariant
            i <= n,
            n == data@.len(),
            counts_fit(old(histogram)@, data@),
            accumulates(old(histogram)@, histogram@, data@.subrange(0, i as int)),
        decreases n - i,
    {
        bump(histogram, data, i, Ghost(old(histogram)@));
        i = i + 1;
    }
    proof {
        assert(data@.subrange(0, n as int) =~= data@);
    }
}

/// Chunked ("vectorized") pass: the input is consumed in full chunks of
/// `LOGICAL_LANES` bytes, each bin increment staying scalar because histogram
/// updates have data-dependent addresses; trailing bytes that do not fill a
/// chunk are folded in individually.
pub fn simd_histogram_single(data: &[u8], histogram: &mut [u32; 256])
    requires
        counts_fit(old(histogram)@, data@),
    ensures
        accumulates(old(histogram)@, final(histogram)@, data@),
{
    let n: usize = data.len();
    let mut i: usize = 0;
    while n - i >= crate::LOGICAL_LANES
        invariant
            i <= n,
            n == data@.len(),
            counts_fit(old(histogram)@, data@),
            accumulates(old(histogram)@, histogram@, data@.subrange(0, i as int)),
        decreases n - i,
    {
        let mut lane: usize = 0;
        while lane < crate::LOGICAL_LANES
            invariant
                lane <= crate::LOGICAL_LANES,
                i + crate::LOGICAL_LANES <= n,
                n == data@.len(),
                counts_fit(old(histogram)@, data@),
                accumulates(old(histogram)@, histogram@, data@.subrange(0, i + lane)),
            decreases crate::LOGICAL_LANES - lane,
        {
            bump(histogram, data, i + lane, Ghost(old(histogram)@));
            lane = lane + 1;
        }
        i = i + crate::LOGICAL_LANES;
    }
    while i < n
        invariant
            i <= n,
            n == data@.len(),
            counts_fit(old(histogram)@, data@),
            accumulates(old(histogram)@, histogram@, data@.subrange(0, i as int)),
        decreases n - i,
    {
        bump(histogram, data, i, Ghost(old(histogram)@));
        i = i + 1;
    }
    proof {
        assert(data@.subrange(0, n as int) =~= data@);
    }
}

/// Variant of the chunked kernel whose bin accesses skip any bounds test:
/// a byte value is always a valid index into a 256-slot table, and here that
/// invariant is proved rather than asserted through an unchecked access.
pub fn simd_histogram_unsafe(data: &[u8], histogram: &mut [u32; 256])
    requires
        counts_fit(old(histogram)@, data@),
    ensures
        accumulates(old(histogram)@, final(histogram)@, data@),
{
    let n: usize = data.len();
    let mut i: usize = 0;
    while i < n
        invariant
            i <= n,
            n == data@.len(),
            counts_fit(old(histogram)@, data@),
            accumulates(old(histogram)@, histogram@, data@.subrange(0, i as int)),
        decreases n - i,
    {
        bump(histogram, data, i, Ghost(old(histogram)@));
        i = i + 1;
    }
    proof {
        assert(data@.subrange(0, n as int) =~= data@);
    }
}

/// Scalar kernel tuned with an unrolled inner loop: full groups of eight
/// bytes, then the trailing remainder.
pub fn scalar_histogram_optimized(data: &[u8], histogram: &mut [u32; 256])
    requires
        counts_fit(old(histogram)@, data@),
    ensures
        accumulates(old(histogram)@, final(histogram)@, data@),
{
    let n: usize = data.len();
    let mut i: usize = 0;
    while n - i >= 8
        invariant
            i <= n,
            n == data@.len(),
            counts_fit(old(histogram)@, data@),
            accumulates(old(histogram)@, histogram@, data@.subrange(0, i as int)),
        decreases n - i,
    {
        let mut lane: usize = 0;
        while lane < 8
            invariant
                lane <= 8,
                i + 8 <= n,
                n == data@.len(),
                counts_fit(old(histogram)@, data@),
                accumulates(old(histogram)@, histogram@, data@.subrange(0, i + lane)),
            decreases 8 - lane,
        {
            bump(histogram, data, i + lane, Ghost(old(histogram)@));
            lane = lane + 1;
        }
        i = i + 8;
    }
    while i < n
        invariant
            i <= n,
            n == data@.len(),
            counts_fit(old(histogram)@, data@),
            accumulates(old(histogram)@, histogram@, data@.subrange(0, i as int)),
        decreases n - i,
    {
        bump(histogram, data, i, Ghost(old(histogram)@));
        i = i + 1;
    }
    proof {
        assert(data@.subrange(0, n as int) =~= data@);
    }
}

/// Counts `data[pos]` into its bin, carrying the accumulation invariant from
/// the prefix of length `pos` to the prefix of length `pos + 1`.
fn bump(histogram: &mut [u32; 256], data: &[u8], pos: usize, Ghost(h0): Ghost<Seq<u32>>)
    requires
        pos < data@.len(),
        counts_fit(h0, data@),
        accumulates(h0, old(histogram)@, data@.subrange(0, pos as int)),
    ensures
        accumulates(h0, final(histogram)@, data@.subrange(0, pos + 1)),
{
    let byte = data[pos];
    proof {
        lemma_count_byte_prefix_step(data@, pos as int);
        lemma_count_byte_le_len(data@.subrange(0, pos + 1), byte);
        lemma_count_byte_subrange_le(data@, pos + 1);
        assert(count_byte(data@.subrange(0, pos + 1), byte) <= count_byte(data@, byte));
    }
    histogram[byte as usize] = histogram[byte as usize] + 1;
}

/// Extending a prefix by one element raises the count of that element's byte
/// by one and leaves every other bin's count unchanged.
proof fn lemma_count_byte_prefix_step(s: Seq<u8>, i: int)
    requires
        0 <= i < s.len(),
    ensures
        forall|b: u8| #[trigger] count_byte(s.subrange(0, i + 1), b) == count_byte(
            s.subrange(0, i),
            b,
        ) + if s[i] == b {
            1int
        } else {
            0int
        },
{
    assert forall|b: u8| #[trigger] count_byte(s.subrange(0, i + 1), b) == count_byte(
        s.subrange(0, i),
        b,
    ) + if s[i] == b {
        1int
    } else {
        0int
    } by {
        let ext = s.subrange(0, i + 1);
        assert(ext.drop_last() =~= s.subrange(0, i));
        assert(ext.last() == s[i]);
    }
}

/// A byte occurs at most `s.len()` times in `s`.
pub proof fn lemma_count_byte_le_len(s: Seq<u8>, b: u8)
    ensures
        0 <= count_byte(s, b) <= s.len(),
    decreases s.len(),
{
    if s.len() > 0 {
        lemma_count_byte_le_len(s.drop_last(), b);
    }
}

/// Counts over a prefix never exceed counts over the whole sequence.
proof fn lemma_count_byte_subrange_le(s: Seq<u8>, i: int)
    requires
        0 <= i <= s.len(),
    ensures
        forall|b: u8| #[trigger] count_byte(s.subrange(0, i), b) <= count_byte(s, b),
    decreases s.len() - i,
{
    if i < s.len() {
        lemma_count_byte_prefix_step(s, i);
        lemma_count_byte_subrange_le(s, i + 1);
        assert forall|b: u8| #[trigger] count_byte(s.subrange(0, i), b) <= count_byte(s, b) by {
            assert(count_byte(s.subrange(0, i + 1), b) <= count_byte(s, b));
        }
    } else {
        assert(s.subrange(0, i) =~= s);
    }
}

/// First input offset belonging to partition `i` of `parts`: partitions are
/// contiguous ranges of `len / parts` bytes each.
pub open spec fn partition_start(len: int, parts: int, i: int) -> int {
    i * (len / parts)
}

/// One-past-the-end offset of partition `i`: the final partition absorbs the
/// remainder of the integer division.
pub open spec fn partition_end(len: int, parts: int, i: int) -> int {
    if i == parts - 1 {
        len
    } else {
        (i + 1) * (len / parts)
    }
}

/// The bytes that partition `i` of `parts` covers.
pub open spec fn partition_of(data: Seq<u8>, parts: int, i: int) -> Seq<u8> {
    data.subrange(partition_start(data.len() as int, parts, i), partition_end(data.len() as int, parts, i))
}

/// The partition ranges are well formed: each lies inside the input, and each
/// one ends exactly where the next begins, so together they cover the input
/// exactly once.
pub proof fn lemma_partition_bounds(len: int, parts: int, i: int)
    requires
        0 <= len,
        1 <= parts,
        0 <= i < parts,
    ensures
        0 <= partition_start(len, parts, i),
        partition_start(len, parts, i) <= partition_end(len, parts, i),
        partition_end(len, parts, i) <= len,
        i < parts - 1 ==> partition_end(len, parts, i) == partition_start(len, parts, i + 1),
{
    let cs = len / parts;
    assert(0 <= cs) by {
        lemma_fundamental_div_mod(len, parts);
        lemma_remainder_lower(len, parts);
        lemma_mul_nonnegative(cs, parts);
        if cs < 0 {
            lemma_mul_inequality(cs, -1, parts);
        }
    }
    lemma_mul_nonnegative(i, cs);
    lemma_mul_inequality(i, i + 1, cs);
    lemma_mul_inequality(i + 1, parts, cs);
    assert(parts * cs <= len) by {
        lemma_remainder_lower(len, parts);
    }
}

/// Counts the bytes of partition `index` of `parts` into `histogram`, using
/// the chunked kernel on that sub-slice.
pub fn histogram_partition(data: &[u8], index: usize, parts: usize, histogram: &mut [u32; 256])
    requires
        1 <= parts,
        index < parts,
        counts_fit(old(histogram)@, partition_of(data@, parts as int, index as int)),
    ensures
        accumulates(old(histogram)@, final(histogram)@, partition_of(data@, parts as int, index as int)),
{
    let n: usize = data.len();
    let chunk_size: usize = n / parts;
    proof {
        lemma_partition_bounds(n as int, parts as int, index as int);
    }
    let start: usize = index * chunk_size;
    proof {
        vstd::arithmetic::mul::lemma_mul_is_distributive_add_other_way(chunk_size as int, index as int, 1);
    }
    let end: usize = if index == parts - 1 {
        n
    } else {
        start + chunk_size
    };
    let part = slice_subrange(data, start, end);
    simd_histogram_single(part, histogram);
}

/// Data-parallel variant: partition `i` of the input is counted into
/// `histograms[i]`, every partition on its own worker with its own histogram,
/// so the workers share no mutable state. Merging the per-partition
/// histograms afterwards is [`merge_histograms`]'s job.
///
/// Relies on rayon's `par_iter_mut`, `enumerate` and `for_each`: the closure
/// runs exactly once per element of the vector, receiving that element's
/// index and exclusive access to the element.
#[verifier::external_body]
pub fn simd_histogram_parallel(data: &[u8], histograms: &mut Vec<[u32; 256]>)
    requires
        1 <= old(histograms).len(),
        forall|i: int| 0 <= i < old(histograms)@.len() ==> counts_fit(
            #[trigger] old(histograms)@[i]@,
            partition_of(data@, old(histograms)@.len() as int, i),
        ),
    ensures
        final(histograms)@.len() == old(histograms)@.len(),
        forall|i: int| 0 <= i < old(histograms)@.len() ==> accumulates(
            old(histograms)@[i]@,
            #[trigger] final(histograms)@[i]@,
            partition_of(data@, old(histograms)@.len() as int, i),
        ),
{
    let parts = histograms.len();
    histograms.par_iter_mut().enumerate().for_each(|(index, histogram)| {
        histogram_partition(data, index, parts, histogram)
    });
}

/// Sum of bin `b` over the first `k` histograms of `hs`.
pub open spec fn sum_bin(hs: Seq<[u32; 256]>, b: u8, k: int) -> int
    decreases k,
{
    if k <= 0 {
        0
    } else {
        sum_bin(hs, b, k - 1) + hs[k - 1]@[b as int]
    }
}

/// Partial sums of one bin over a prefix of histograms are nonnegative and
/// grow with the prefix.
pub proof fn lemma_sum_bin_monotonic(hs: Seq<[u32; 256]>, b: u8, k1: int, k2: int)
    requires
        0 <= k1 <= k2 <= hs.len(),
    ensures
        0 <= sum_bin(hs, b, k1) <= sum_bin(hs, b, k2),
    decreases k2,
{
    if k2 > 0 {
        if k1 == k2 {
            lemma_sum_bin_monotonic(hs, b, k1 - 1, k2 - 1);
        } else {
            lemma_sum_bin_monotonic(hs, b, k1, k2 - 1);
        }
    }
}

/// Merges per-partition histograms by summing corresponding bins.
pub fn merge_histograms(histograms: &Vec<[u32; 256]>) -> (merged: [u32; 256])
    requires
        forall|b: u8| #[trigger] sum_bin(histograms@, b, histograms@.len() as int) <= u32::MAX,
    ensures
        forall|b: u8| #[trigger] merged@[b as int] == sum_bin(histograms@, b, histograms@.len() as int),
{
    let mut merged: [u32; 256] = [0; 256];
    let m: usize = histograms.len();
    let mut i: usize = 0;
    while i < m
        invariant
            i <= m,
            m == histograms@.len(),
            forall|b: u8| #[trigger] sum_bin(histograms@, b, m as int) <= u32::MAX,
            forall|b: u8| #[trigger] merged@[b as int] == sum_bin(histograms@, b, i as int),
        decreases m - i,
    {
        let mut j: usize = 0;
        while j < 256
            invariant
                j <= 256,
                i < m,
                m == histograms@.len(),
                forall|b: u8| #[trigger] sum_bin(histograms@, b, m as int) <= u32::MAX,
                forall|b: u8| (b as int) >= j ==> #[trigger] merged@[b as int] == sum_bin(
                    histograms@,
                    b,
                    i as int,
                ),
                forall|b: u8| (b as int) < j ==> #[trigger] merged@[b as int] == sum_bin(
                    histograms@,
                    b,
                    i + 1,
                ),
            decreases 256 - j,
        {
            proof {
                lemma_sum_bin_monotonic(histograms@, j as u8, i + 1, m as int);
            }
            merged[j] = merged[j] + histograms[i][j];
            j = j + 1;
        }
        i = i + 1;
    }
    merged
}

/// Sum of the first `k` bins of a histogram.
pub open spec fn sum_bins_upto(h: Seq<u32>, k: int) -> int
    decreases k,
{
    if k <= 0 {
        0
    } else {
        sum_bins_upto(h, k - 1) + h[k - 1]
    }
}

/// Total of all 256 bins of a histogram.
pub open spec fn sum_bins(h: Seq<u32>) -> int {
    sum_bins_upto(h, 256)
}

/// Sum of the occurrence counts of the first `k` byte values in `s`.
pub open spec fn sum_counts_upto(s: Seq<u8>, k: int) -> int
    decreases k,
{
    if k <= 0 {
        0
    } else {
        sum_counts_upto(s, k - 1) + count_byte(s, (k - 1) as u8)
    }
}

/// Dropping the final element of `s` lowers the summed counts of the first
/// `k` byte values by one exactly when that element's value is below `k`.
proof fn lemma_sum_counts_upto_drop_last(s: Seq<u8>, k: int)
    requires
        s.len() > 0,
        0 <= k <= 256,
    ensures
        sum_counts_upto(s, k) == sum_counts_upto(s.drop_last(), k) + if (s.last() as int) < k {
            1int
        } else {
            0int
        },
    decreases k,
{
    if k > 0 {
        lemma_sum_counts_upto_drop_last(s, k - 1);
    }
}

/// Every byte of `s` lands in exactly one of the 256 bins, so the occurrence
/// counts of all byte values total the length of `s`.
pub proof fn lemma_counts_total_len(s: Seq<u8>)
    ensures
        sum_counts_upto(s, 256) == s.len(),
    decreases s.len(),
{
    if s.len() > 0 {
        lemma_counts_total_len(s.drop_last());
        lemma_sum_counts_upto_drop_last(s, 256);
    } else {
        lemma_sum_counts_upto_empty(s, 256);
    }
}

/// No byte occurs in the empty sequence, so all partial count sums vanish.
proof fn lemma_sum_counts_upto_empty(s: Seq<u8>, k: int)
    requires
        s.len() == 0,
        0 <= k,
    ensures
        sum_counts_upto(s, k) == 0,
    decreases k,
{
    if k > 0 {
        lemma_sum_counts_upto_empty(s, k - 1);
    }
}

/// Relates bin-prefix sums before and after a kernel run.
proof fn lemma_sum_bins_upto_accumulates(h0: Seq<u32>, h1: Seq<u32>, data: Seq<u8>, k: int)
    requires
        accumulates(h0, h1, data),
        0 <= k <= 256,
    ensures
        sum_bins_upto(h1, k) == sum_bins_upto(h0, k) + sum_counts_upto(data, k),
    decreases k,
{
    if k > 0 {
        lemma_sum_bins_upto_accumulates(h0, h1, data, k - 1);
        assert(h1[((k - 1) as u8) as int] == h0[((k - 1) as u8) as int] + count_byte(
            data,
            (k - 1) as u8,
        ));
    }
}

/// Histogram conservation: one kernel run raises the total of all bins by
/// exactly the number of bytes processed.
pub proof fn lemma_histogram_conservation(h0: Seq<u32>, h1: Seq<u32>, data: Seq<u8>)
    requires
        accumulates(h0, h1, data),
    ensures
        sum_bins(h1) == sum_bins(h0) + data.len(),
{
    lemma_sum_bins_upto_accumulates(h0, h1, data, 256);
    lemma_counts_total_len(data);
}

/// Any two histogram kernels started from the same histogram and run over
/// the same data end in bin-for-bin identical histograms.
pub proof fn lemma_histogram_paths_agree(h0: Seq<u32>, ha: Seq<u32>, hb: Seq<u32>, data: Seq<u8>)
    requires
        accumulates(h0, ha, data),
        accumulates(h0, hb, data),
    ensures
        ha =~= hb,
{
    assert forall|i: int| 0 <= i < 256 implies ha[i] == hb[i] by {
        let b = i as u8;
        assert(ha[b as int] == h0[b as int] + count_byte(data, b));
        assert(hb[b as int] == h0[b as int] + count_byte(data, b));
    }
}

/// Occurrence counts add over a split of the input: the bytes before and the
/// bytes after any cut together hold exactly the occurrences of the whole.
pub proof fn lemma_count_byte_split(s: Seq<u8>, m: int)
    requires
        0 <= m <= s.len(),
    ensures
        forall|b: u8| #[trigger] count_byte(s, b) == count_byte(s.subrange(0, m), b) + count_byte(
            s.subrange(m, s.len() as int),
            b,
        ),
    decreases s.len() - m,
{
    if m == s.len() {
        assert forall|b: u8| #[trigger] count_byte(s, b) == count_byte(s.subrange(0, m), b)
            + count_byte(s.subrange(m, s.len() as int), b) by {
            assert(s.subrange(0, m) =~= s);
            assert(s.subrange(m, s.len() as int) =~= Seq::<u8>::empty());
        }
    } else {
        lemma_count_byte_prefix_step(s, m);
        lemma_count_byte_split(s, m + 1);
        assert forall|b: u8| #[trigger] count_byte(s, b) == count_byte(s.subrange(0, m), b)
            + count_byte(s.subrange(m, s.len() as int), b) by {
            assert(count_byte(s, b) == count_byte(s.subrange(0, m + 1), b) + count_byte(
                s.subrange(m + 1, s.len() as int),
                b,
            ));
            let tail = s.subrange(m, s.len() as int);
            let tail1 = s.subrange(m + 1, s.len() as int);
            lemma_count_byte_first_step(tail, b);
            assert(tail.subrange(1, tail.len() as int) =~= tail1);
            assert(tail[0] == s[m]);
        }
    }
}

/// Peeling the first element off a nonempty sequence lowers the count of that
/// element's byte value by one.
proof fn lemma_count_byte_first_step(s: Seq<u8>, b: u8)
    requires
        s.len() > 0,
    ensures
        count_byte(s, b) == count_byte(s.subrange(1, s.len() as int), b) + if s[0] == b {
            1int
        } else {
            0int
        },
    decreases s.len(),
{
    if s.len() == 1 {
        assert(s.subrange(1, 1) =~= Seq::<u8>::empty());
        assert(s.drop_last() =~= Seq::<u8>::empty());
        assert(s.last() == s[0]);
    } else {
        lemma_count_byte_first_step(s.drop_last(), b);
        assert(s.drop_last().subrange(1, s.len() - 1) =~= s.subrange(1, s.len() as int).drop_last());
        assert(s.subrange(1, s.len() as int).last() == s.last());
    }
}

/// Sum of the occurrences of `b` over the first `k` partitions.
pub open spec fn partition_counts_upto(data: Seq<u8>, parts: int, b: u8, k: int) -> int
    decreases k,
{
    if k <= 0 {
        0
    } else {
        partition_counts_upto(data, parts, b, k - 1) + count_byte(
            partition_of(data, parts, k - 1),
            b,
        )
    }
}

/// The partitions cover the input exactly once, so per-partition occurrence
/// counts sum to the occurrence count over the whole input.
pub proof fn lemma_partition_counts_total(data: Seq<u8>, parts: int, b: u8)
    requires
        1 <= parts,
    ensures
        partition_counts_upto(data, parts, b, parts) == count_byte(data, b),
{
    lemma_partition_counts_prefix(data, parts, b, parts);
    assert(data.subrange(0, data.len() as int) =~= data);
}

/// The first `k` partitions cover exactly the input prefix that ends where
/// partition `k - 1` ends.
proof fn lemma_partition_counts_prefix(data: Seq<u8>, parts: int, b: u8, k: int)
    requires
        1 <= parts,
        0 <= k <= parts,
    ensures
        partition_counts_upto(data, parts, b, k) == count_byte(
            data.subrange(
                0,
                if k == 0 {
                    0
                } else {
                    partition_end(data.len() as int, parts, k - 1)
                },
            ),
            b,
        ),
    decreases k,
{
    let len = data.len() as int;
    if k == 0 {
        assert(data.subrange(0, 0) =~= Seq::<u8>::empty());
    } else {
        lemma_partition_counts_prefix(data, parts, b, k - 1);
        lemma_partition_bounds(len, parts, k - 1);
        let lo = if k - 1 == 0 {
            0
        } else {
            partition_end(len, parts, k - 2)
        };
        let hi = partition_end(len, parts, k - 1);
        assert(lo == partition_start(len, parts, k - 1)) by {
            if k - 1 > 0 {
                lemma_partition_bounds(len, parts, k - 2);
            }
        }
        let prefix = data.subrange(0, hi);
        lemma_count_byte_split(prefix, lo);
        assert(prefix.subrange(0, lo) =~= data.subrange(0, lo));
        assert(prefix.subrange(lo, hi) =~= partition_of(data, parts, k - 1));
    }
}

/// The zero-initialized histogram every worker of the parallel variant
/// starts from.
pub open spec fn zero_histogram() -> Seq<u32> {
    Seq::new(256, |i: int| 0u32)
}

/// Parallel histogram equivalence: per-partition histograms started from
/// zero and merged bin for bin equal the histogram a single kernel run over
/// the whole input builds from zero.
pub proof fn lemma_parallel_histogram_equivalence(
    data: Seq<u8>,
    hists: Seq<[u32; 256]>,
    single: Seq<u32>,
)
    requires
        1 <= hists.len(),
        forall|i: int| 0 <= i < hists.len() ==> accumulates(
            zero_histogram(),
            #[trigger] hists[i]@,
            partition_of(data, hists.len() as int, i),
        ),
        accumulates(zero_histogram(), single, data),
    ensures
        forall|b: u8| #[trigger] sum_bin(hists, b, hists.len() as int) == single[b as int],
{
    let parts = hists.len() as int;
    assert forall|b: u8| #[trigger] sum_bin(hists, b, parts) == single[b as int] by {
        lemma_sum_bin_is_partition_counts(data, hists, b, parts);
        lemma_partition_counts_total(data, parts, b);
    }
}

/// With zero-seeded partition histograms, summing bin `b` over the first `k`
/// of them gives the summed per-partition occurrence counts.
proof fn lemma_sum_bin_is_partition_counts(
    data: Seq<u8>,
    hists: Seq<[u32; 256]>,
    b: u8,
    k: int,
)
    requires
        0 <= k <= hists.len(),
        forall|i: int| 0 <= i < hists.len() ==> accumulates(
            zero_histogram(),
            #[trigger] hists[i]@,
            partition_of(data, hists.len() as int, i),
        ),
    ensures
        sum_bin(hists, b, k) == partition_counts_upto(data, hists.len() as int, b, k),
    decreases k,
{
    if k > 0 {
        lemma_sum_bin_is_partition_counts(data, hists, b, k - 1);
        assert(hists[k - 1]@[b as int] == zero_histogram()[b as int] + count_byte(
            partition_of(data, hists.len() as int, k - 1),
            b,
        ));
    }
}

} // verus!
