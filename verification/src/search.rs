//! Byte-pattern search kernels: chunked "contains" and "find first index"
//! over byte sequences, with a dedicated single-byte path and a
//! candidate-filter-then-confirm path for longer needles.

use vstd::prelude::*;
use vstd::string::StringSliceAdditionalSpecFns;

verus! {

/// The needle `n` occurs in the haystack `h` at offset `i`.
pub open spec fn is_match_at(h: Seq<u8>, n: Seq<u8>, i: int) -> bool {
    &&& 0 <= i
    &&& i + n.len() <= h.len()
    &&& h.subrange(i, i + n.len()) == n
}

/// The needle `n` occurs somewhere in the haystack `h`.
pub open spec fn has_match(h: Seq<u8>, n: Seq<u8>) -> bool {
    exists|i: int| is_match_at(h, n, i)
}

/// The needle `n` occurs in the haystack `h` at offset `i` and at no earlier
/// offset.
pub open spec fn is_first_match(h: Seq<u8>, n: Seq<u8>, i: int) -> bool {
    &&& is_match_at(h, n, i)
    &&& forall|j: int| 0 <= j < i ==> !is_match_at(h, n, j)
}

/// What a naive scalar substring search returns when it scans the haystack
/// from offset `i` upward, testing every offset in ascending order.
pub open spec fn naive_find_from(h: Seq<u8>, n: Seq<u8>, i: int) -> Option<int>
    decreases h.len() - i + 1,
{
    if i + n.len() > h.len() {
        None
    } else if is_match_at(h, n, i) {
        Some(i)
    } else {
        naive_find_from(h, n, i + 1)
    }
}

/// Search correctness: the first-match characterization that the search
/// kernels ensure singles out exactly the result of a naive scalar scan of
/// every offset in ascending order, and the scan misses nothing.
pub proof fn lemma_search_agrees_with_naive_scan(h: Seq<u8>, n: Seq<u8>)
    ensures
        match naive_find_from(h, n, 0) {
            Some(i) => is_first_match(h, n, i),
            None => !has_match(h, n),
        },
        forall|i: int| is_first_match(h, n, i) ==> naive_find_from(h, n, 0) == Some(i),
{
    lemma_naive_scan_from(h, n, 0);
    match naive_find_from(h, n, 0) {
        Some(i) => {
            assert forall|k: int| is_first_match(h, n, k) implies naive_find_from(h, n, 0) == Some(
                k,
            ) by {
                if k < i {
                    assert(is_match_at(h, n, k));
                } else if i < k {
                    assert(!is_match_at(h, n, i));
                }
            }
        },
        None => {
            assert forall|k: int| is_first_match(h, n, k) implies naive_find_from(h, n, 0) == Some(
                k,
            ) by {
                assert(!is_match_at(h, n, k));
            }
        },
    }
}

/// The naive scan from offset `i` returns the first match at or above `i`.
proof fn lemma_naive_scan_from(h: Seq<u8>, n: Seq<u8>, i: int)
    ensures
        match naive_find_from(h, n, i) {
            Some(k) => is_match_at(h, n, k) && i <= k && forall|j: int|
                i <= j < k ==> !is_match_at(h, n, j),
            None => forall|j: int| i <= j ==> !is_match_at(h, n, j),
        },
    decreases h.len() - i + 1,
{
    if i + n.len() > h.len() {
    } else if is_match_at(h, n, i) {
    } else {
        lemma_naive_scan_from(h, n, i + 1);
    }
}

/// Exact scalar confirmation of one candidate offset: compares the needle
/// byte for byte against the haystack at `pos`.
fn match_at(haystack: &[u8], needle: &[u8], pos: usize) -> (r: bool)
    requires
        pos + needle@.len() <= haystack@.len(),
    ensures
        r == is_match_at(haystack@, needle@, pos as int),
{
    let n: usize = haystack.len();
    let m: usize = needle.len();
    let mut j: usize = 0;
    while j < m
        invariant
            j <= m,
            m == needle@.len(),
            n == haystack@.len(),
            pos + m <= n,
            forall|k: int| 0 <= k < j ==> haystack@[pos + k] == needle@[k],
        decreases m - j,
    {
        if haystack[pos + j] != needle[j] {
            proof {
                assert(haystack@.subrange(pos as int, pos + m)[j as int] == haystack@[pos + j]);
            }
            return false;
        }
        j = j + 1;
    }
    proof {
        assert(haystack@.subrange(pos as int, pos + m) =~= needle@);
    }
    true
}

/// A one-byte needle matches at an offset exactly when that haystack byte
/// equals it.
proof fn lemma_single_byte_match(h: Seq<u8>, n: Seq<u8>)
    requires
        n.len() == 1,
    ensures
        forall|i: int| is_match_at(h, n, i) <==> (0 <= i < h.len() && h[i] == n[0]),
{
    assert forall|i: int| is_match_at(h, n, i) <==> (0 <= i < h.len() && h[i] == n[0]) by {
        if 0 <= i && i + 1 <= h.len() {
            let s = h.subrange(i, i + 1);
            assert(s[0] == h[i]);
            if h[i] == n[0] {
                assert(s =~= n);
            }
        }
    }
}

/// Single-byte fast path for `contains`: the target byte is conceptually
/// broadcast across a vector register and the haystack scanned one chunk of
/// `BYTE_LANES` at a time, the tail with a linear scan.
fn simd_contains_byte(haystack: &[u8], target: u8) -> (r: bool)
    ensures
        r == exists|i: int| 0 <= i < haystack@.len() && haystack@[i] == target,
{
    let n: usize = haystack.len();
    let mut i: usize = 0;
    while n - i >= crate::BYTE_LANES
        invariant
            i <= n,
            n == haystack@.len(),
            forall|k: int| 0 <= k < i ==> haystack@[k] != target,
        decreases n - i,
    {
        let mut lane: usize = 0;
        while lane < crate::BYTE_LANES
            invariant
                lane <= crate::BYTE_LANES,
                i + crate::BYTE_LANES <= n,
                n == haystack@.len(),
                forall|k: int| 0 <= k < i + lane ==> haystack@[k] != target,
            decreases crate::BYTE_LANES - lane,
        {
            if haystack[i + lane] == target {
                return true;
            }
            lane = lane + 1;
        }
        i = i + crate::BYTE_LANES;
    }
    while i < n
        invariant
            i <= n,
            n == haystack@.len(),
            forall|k: int| 0 <= k < i ==> haystack@[k] != target,
        decreases n - i,
    {
        if haystack[i] == target {
            return true;
        }
        i = i + 1;
    }
    false
}

/// Single-byte fast path for `find`: like [`simd_contains_byte`], but
/// resolving the exact offset of the first occurrence.
fn simd_find_byte(haystack: &[u8], target: u8) -> (r: Option<usize>)
    ensures
        match r {
            Some(i) => i < haystack@.len() && haystack@[i as int] == target && forall|k: int|
                0 <= k < i ==> haystack@[k] != target,
            None => forall|k: int| 0 <= k < haystack@.len() ==> haystack@[k] != target,
        },
{
    let n: usize = haystack.len();
    let mut i: usize = 0;
    while n - i >= crate::BYTE_LANES
        invariant
            i <= n,
            n == haystack@.len(),
            forall|k: int| 0 <= k < i ==> haystack@[k] != target,
        decreases n - i,
    {
        let mut lane: usize = 0;
        while lane < crate::BYTE_LANES
            invariant
                lane <= crate::BYTE_LANES,
                i + crate::BYTE_LANES <= n,
                n == haystack@.len(),
                forall|k: int| 0 <= k < i + lane ==> haystack@[k] != target,
            decreases crate::BYTE_LANES - lane,
        {
            if haystack[i + lane] == target {
                return Some(i + lane);
            }
            lane = lane + 1;
        }
        i = i + crate::BYTE_LANES;
    }
    while i < n
        invariant
            i <= n,
            n == haystack@.len(),
            forall|k: int| 0 <= k < i ==> haystack@[k] != target,
        decreases n - i,
    {
        if haystack[i] == target {
            return Some(i);
        }
        i = i + 1;
    }
    None
}

/// Whether a needle occurs anywhere in a haystack.
///
/// An empty needle is contained in every haystack; a needle longer than the
/// haystack in none. A one-byte needle takes the broadcast-compare fast
/// path. Longer needles take the candidate-filter-then-confirm path: chunks
/// of `BYTE_LANES` haystack bytes are scanned for the needle's first byte,
/// and each candidate offset is confirmed by an exact scalar comparison,
/// the tail by a linear scan with the same prune-then-confirm logic.
pub fn simd_contains_pattern(haystack: &[u8], needle: &[u8]) -> (r: bool)
    ensures
        r == has_match(haystack@, needle@),
{
    let n: usize = haystack.len();
    let m: usize = needle.len();
    if m == 0 {
        proof {
            assert(haystack@.subrange(0, 0) =~= needle@);
            assert(is_match_at(haystack@, needle@, 0));
        }
        return true;
    }
    if m > n {
        return false;
    }
    if m == 1 {
        let r = simd_contains_byte(haystack, needle[0]);
        proof {
            lemma_single_byte_match(haystack@, needle@);
        }
        return r;
    }

    let first = needle[0];
    let mut i: usize = 0;
    while n - i >= crate::BYTE_LANES
        invariant
            i <= n,
            n == haystack@.len(),
            1 <= m <= n,
            m == needle@.len(),
            first == needle@[0],
            forall|p: int| 0 <= p < i ==> !is_match_at(haystack@, needle@, p),
        decreases n - i,
    {
        let mut lane: usize = 0;
        while lane < crate::BYTE_LANES
            invariant
                lane <= crate::BYTE_LANES,
                i + crate::BYTE_LANES <= n,
                n == haystack@.len(),
                1 <= m <= n,
                m == needle@.len(),
                first == needle@[0],
                forall|p: int| 0 <= p < i + lane ==> !is_match_at(haystack@, needle@, p),
            decreases crate::BYTE_LANES - lane,
        {
            let pos = i + lane;
            if haystack[pos] == first && m <= n - pos {
                if match_at(haystack, needle, pos) {
                    return true;
                }
            } else {
                proof {
                    if is_match_at(haystack@, needle@, pos as int) {
                        assert(haystack@.subrange(pos as int, pos + m)[0] == haystack@[pos as int]);
                    }
                }
            }
            lane = lane + 1;
        }
        i = i + crate::BYTE_LANES;
    }
    let mut pos: usize = i;
    while pos <= n - m
        invariant
            pos <= n,
            n == haystack@.len(),
            1 <= m <= n,
            m == needle@.len(),
            first == needle@[0],
            forall|p: int| 0 <= p < pos ==> !is_match_at(haystack@, needle@, p),
        decreases n - pos,
    {
        if haystack[pos] == first {
            if match_at(haystack, needle, pos) {
                return true;
            }
        } else {
            proof {
                if is_match_at(haystack@, needle@, pos as int) {
                    assert(haystack@.subrange(pos as int, pos + m)[0] == haystack@[pos as int]);
                }
            }
        }
        pos = pos + 1;
    }
    proof {
        assert forall|p: int| !is_match_at(haystack@, needle@, p) by {
            if 0 <= p < pos {
            } else if p + m > n {
            }
        }
    }
    false
}

/// Candidate-filter-then-confirm "find" over bytes: returns the smallest
/// offset whose bytes equal the needle.
fn find_bytes(haystack: &[u8], needle: &[u8]) -> (r: Option<usize>)
    requires
        1 <= needle@.len() <= haystack@.len(),
    ensures
        match r {
            Some(i) => is_first_match(haystack@, needle@, i as int),
            None => !has_match(haystack@, needle@),
        },
{
    let n: usize = haystack.len();
    let m: usize = needle.len();
    let first = needle[0];
    let mut i: usize = 0;
    while n - i >= crate::BYTE_LANES
        invariant
            i <= n,
            n == haystack@.len(),
            1 <= m <= n,
            m == needle@.len(),
            first == needle@[0],
            forall|p: int| 0 <= p < i ==> !is_match_at(haystack@, needle@, p),
        decreases n - i,
    {
        let mut lane: usize = 0;
        while lane < crate::BYTE_LANES
            invariant
                lane <= crate::BYTE_LANES,
                i + crate::BYTE_LANES <= n,
                n == haystack@.len(),
                1 <= m <= n,
                m == needle@.len(),
                first == needle@[0],
                forall|p: int| 0 <= p < i + lane ==> !is_match_at(haystack@, needle@, p),
            decreases crate::BYTE_LANES - lane,
        {
            let pos = i + lane;
            if haystack[pos] == first && m <= n - pos {
                if match_at(haystack, needle, pos) {
                    return Some(pos);
                }
            } else {
                proof {
                    if is_match_at(haystack@, needle@, pos as int) {
                        assert(haystack@.subrange(pos as int, pos + m)[0] == haystack@[pos as int]);
                    }
                }
            }
            lane = lane + 1;
        }
        i = i + crate::BYTE_LANES;
    }
    let mut pos: usize = i;
    while pos <= n - m
        invariant
            pos <= n,
            n == haystack@.len(),
            1 <= m <= n,
            m == needle@.len(),
            first == needle@[0],
            forall|p: int| 0 <= p < pos ==> !is_match_at(haystack@, needle@, p),
        decreases n - pos,
    {
        if haystack[pos] == first {
            if match_at(haystack, needle, pos) {
                return Some(pos);
            }
        } else {
            proof {
                if is_match_at(haystack@, needle@, pos as int) {
                    assert(haystack@.subrange(pos as int, pos + m)[0] == haystack@[pos as int]);
                }
            }
        }
        pos = pos + 1;
    }
    proof {
        assert forall|p: int| !is_match_at(haystack@, needle@, p) by {
            if 0 <= p < pos {
            } else if p + m > n {
            }
        }
    }
    None
}

/// Byte offset of the first occurrence of `needle` in `haystack`, or `None`
/// when the needle does not occur.
///
/// The result always reports the first true match in ascending offset order,
/// whether it is found in a full chunk or in the remainder scan. The
/// contract is stated over the strings' UTF-8 bytes, matching the byte
/// offsets the standard library's substring search reports.
pub fn simd_find_str(haystack: &str, needle: &str) -> (r: Option<usize>)
    ensures
        match r {
            Some(i) => is_first_match(haystack.spec_bytes(), needle.spec_bytes(), i as int),
            None => !has_match(haystack.spec_bytes(), needle.spec_bytes()),
        },
{
    let haystack_bytes = haystack.as_bytes();
    let needle_bytes = needle.as_bytes();
    if needle_bytes.len() == 0 {
        proof {
            assert(haystack_bytes@.subrange(0, 0) =~= needle_bytes@);
            assert(is_match_at(haystack.spec_bytes(), needle.spec_bytes(), 0));
        }
        return Some(0);
    }
    if needle_bytes.len() > haystack_bytes.len() {
        return None;
    }
    if needle_bytes.len() == 1 {
        let r = simd_find_byte(haystack_bytes, needle_bytes[0]);
        proof {
            lemma_single_byte_match(haystack_bytes@, needle_bytes@);
        }
        return r;
    }
    find_bytes(haystack_bytes, needle_bytes)
}

} // verus!
