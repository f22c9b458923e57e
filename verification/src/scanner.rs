//! Locating field separators and record terminators in a byte window.
//!
//! The scanner has two paths, as the engine's hot loop does: when at least
//! `FAST_PATH_MIN` bytes remain, three consecutive 16-byte lanes are examined
//! and the first hit is returned, so a delimiter beyond the third lane is
//! reported as absent; shorter windows fall back to a whole-window search
//! through `memchr`.

use vstd::prelude::*;

verus! {

/// Width of one comparison lane.
pub const LANE_WIDTH: usize = 16;

/// Window length from which the three-lane fast path is taken.
pub const FAST_PATH_MIN: usize = 48;

/// Index of the first occurrence of `t` in `s`, if any.
pub open spec fn find_byte(s: Seq<u8>, t: u8) -> Option<int>
    decreases s.len(),
{
    if s.len() == 0 {
        None
    } else if s[0] == t {
        Some(0)
    } else {
        match find_byte(s.drop_first(), t) {
            Some(i) => Some(i + 1),
            None => None,
        }
    }
}

/// Index of the last occurrence of `t` in `s`, if any.
pub open spec fn rfind_byte(s: Seq<u8>, t: u8) -> Option<int>
    decreases s.len(),
{
    if s.len() == 0 {
        None
    } else if s[s.len() - 1] == t {
        Some(s.len() - 1)
    } else {
        rfind_byte(s.drop_last(), t)
    }
}

/// What the scanner reports for a window: the first occurrence within the
/// three lanes when the window is long enough for the fast path, otherwise
/// the first occurrence anywhere in the window.
pub open spec fn scan_spec(s: Seq<u8>, t: u8) -> Option<int> {
    if s.len() >= FAST_PATH_MIN {
        find_byte(s.take(FAST_PATH_MIN as int), t)
    } else {
        find_byte(s, t)
    }
}

/// `find_byte` returns the first occurrence and nothing else.
pub proof fn lemma_find_byte(s: Seq<u8>, t: u8)
    ensures
        match find_byte(s, t) {
            Some(i) => 0 <= i < s.len() && s[i] == t && forall|j: int| 0 <= j < i ==> s[j] != t,
            None => forall|j: int| 0 <= j < s.len() ==> s[j] != t,
        },
    decreases s.len(),
{
    if s.len() > 0 && s[0] != t {
        lemma_find_byte(s.drop_first(), t);
        match find_byte(s.drop_first(), t) {
            Some(i) => {
                assert(s.drop_first()[i] == s[i + 1]);
                assert forall|j: int| 0 <= j < i + 1 implies s[j] != t by {
                    if j > 0 {
                        assert(s.drop_first()[j - 1] == s[j]);
                    }
                }
            },
            None => {
                assert forall|j: int| 0 <= j < s.len() implies s[j] != t by {
                    if j > 0 {
                        assert(s.drop_first()[j - 1] == s[j]);
                    }
                }
            },
        }
    }
}

/// A byte that matches, with nothing matching before it, is exactly where
/// `find_byte` points.
pub proof fn lemma_find_byte_witness(s: Seq<u8>, t: u8, i: int)
    requires
        0 <= i < s.len(),
        s[i] == t,
        forall|j: int| 0 <= j < i ==> s[j] != t,
    ensures
        find_byte(s, t) == Some(i),
{
    lemma_find_byte(s, t);
}

/// When no byte matches, `find_byte` reports absence.
pub proof fn lemma_find_byte_absent(s: Seq<u8>, t: u8)
    requires
        forall|j: int| 0 <= j < s.len() ==> s[j] != t,
    ensures
        find_byte(s, t).is_none(),
{
    lemma_find_byte(s, t);
}

/// `rfind_byte` returns the last occurrence and nothing else.
pub proof fn lemma_rfind_byte(s: Seq<u8>, t: u8)
    ensures
        match rfind_byte(s, t) {
            Some(i) => 0 <= i < s.len() && s[i] == t && forall|j: int| i < j < s.len() ==> s[j]
                != t,
            None => forall|j: int| 0 <= j < s.len() ==> s[j] != t,
        },
    decreases s.len(),
{
    if s.len() > 0 && s[s.len() - 1] != t {
        lemma_rfind_byte(s.drop_last(), t);
        match rfind_byte(s.drop_last(), t) {
            Some(i) => {
                assert(s.drop_last()[i] == s[i]);
                assert forall|j: int| i < j < s.len() implies s[j] != t by {
                    if j < s.len() - 1 {
                        assert(s.drop_last()[j] == s[j]);
                    }
                }
            },
            None => {
                assert forall|j: int| 0 <= j < s.len() implies s[j] != t by {
                    if j < s.len() - 1 {
                        assert(s.drop_last()[j] == s[j]);
                    }
                }
            },
        }
    }
}

/// The first occurrence in a prefix is the first occurrence overall whenever
/// the latter falls inside the prefix; a prefix misses exactly the
/// occurrences beyond it.
pub proof fn lemma_find_byte_prefix(s: Seq<u8>, t: u8, n: int)
    requires
        0 <= n <= s.len(),
    ensures
        match find_byte(s, t) {
            Some(i) => find_byte(s.take(n), t) == if i < n {
                Some(i)
            } else {
                None::<int>
            },
            None => find_byte(s.take(n), t).is_none(),
        },
{
    lemma_find_byte(s, t);
    lemma_find_byte(s.take(n), t);
    assert forall|j: int| 0 <= j < n implies s.take(n)[j] == s[j] by {}
    match find_byte(s, t) {
        Some(i) => {
            if i < n {
                match find_byte(s.take(n), t) {
                    Some(k) => {
                        if k < i {
                            assert(s[k] != t);
                        }
                        if i < k {
                            assert(s.take(n)[i] == t);
                        }
                    },
                    None => {
                        assert(s.take(n)[i] != t);
                    },
                }
            } else {
                match find_byte(s.take(n), t) {
                    Some(k) => {
                        assert(s[k] != t);
                    },
                    None => {},
                }
            }
        },
        None => {
            match find_byte(s.take(n), t) {
                Some(k) => {
                    assert(s[k] != t);
                },
                None => {},
            }
        },
    }
}

/// The first occurrence in a concatenation is the first occurrence in the
/// left part, or else the first in the right part shifted past the left.
pub proof fn lemma_find_byte_concat(a: Seq<u8>, b: Seq<u8>, t: u8)
    ensures
        find_byte(a + b, t) == match find_byte(a, t) {
            Some(i) => Some(i),
            None => match find_byte(b, t) {
                Some(j) => Some(a.len() + j),
                None => None::<int>,
            },
        },
{
    lemma_find_byte(a, t);
    lemma_find_byte(b, t);
    match find_byte(a, t) {
        Some(i) => {
            assert((a + b)[i] == a[i]);
            assert forall|j: int| 0 <= j < i implies (a + b)[j] != t by {
                assert((a + b)[j] == a[j]);
            }
            lemma_find_byte_witness(a + b, t, i);
        },
        None => {
            match find_byte(b, t) {
                Some(j) => {
                    assert((a + b)[a.len() + j] == b[j]);
                    assert forall|k: int| 0 <= k < a.len() + j implies (a + b)[k] != t by {
                        if k < a.len() {
                            assert((a + b)[k] == a[k]);
                        } else {
                            assert((a + b)[k] == b[k - a.len()]);
                        }
                    }
                    lemma_find_byte_witness(a + b, t, a.len() + j);
                },
                None => {
                    assert forall|k: int| 0 <= k < (a + b).len() implies (a + b)[k] != t by {
                        if k < a.len() {
                            assert((a + b)[k] == a[k]);
                        } else {
                            assert((a + b)[k] == b[k - a.len()]);
                        }
                    }
                    lemma_find_byte_absent(a + b, t);
                },
            }
        },
    }
}

/// The lane fast path and the byte-wise fallback agree on every window in
/// which a match exists before the fast-path limit, and a window of exactly
/// the fast-path length is covered in full, so there the two paths return
/// identical offsets for every input. Past the limit the fast path alone
/// reports absence.
pub proof fn lemma_scanner_paths_agree(s: Seq<u8>, t: u8)
    ensures
        s.len() == FAST_PATH_MIN ==> scan_spec(s, t) == find_byte(s, t),
        forall|i: int|
            find_byte(s, t) == Some(i) && i < FAST_PATH_MIN && s.len() >= FAST_PATH_MIN
                ==> scan_spec(s, t) == Some(i),
        s.len() >= FAST_PATH_MIN && find_byte(s, t).is_none() ==> scan_spec(s, t).is_none(),
{
    if s.len() >= FAST_PATH_MIN {
        lemma_find_byte_prefix(s, t, FAST_PATH_MIN as int);
        if s.len() == FAST_PATH_MIN {
            assert(s.take(FAST_PATH_MIN as int) =~= s);
        }
    }
}

/// Relies on `memchr::memchr`: it returns the index of the first occurrence
/// of `needle` in `haystack`, or `None` when the byte does not occur.
#[verifier::external_body]
pub(crate) fn memchr_first(needle: u8, haystack: &[u8]) -> (r: Option<usize>)
    ensures
        match r {
            Some(i) => i < haystack@.len() && haystack@[i as int] == needle && forall|j: int|
                0 <= j < i ==> haystack@[j] != needle,
            None => forall|j: int| 0 <= j < haystack@.len() ==> haystack@[j] != needle,
        },
{
    memchr::memchr(needle, haystack)
}

/// The comparison mask over the first `k` bytes of a lane: bit `i` is set
/// exactly when byte `i` equals the target.
pub open spec fn lane_mask(s: Seq<u8>, t: u8, k: int) -> u16
    decreases k,
{
    if k <= 0 {
        0u16
    } else {
        lane_mask(s, t, k - 1) | (if s[k - 1] == t {
            1u16 << ((k - 1) as u16)
        } else {
            0u16
        })
    }
}

/// Each bit of the comparison mask records its byte's comparison, and bits
/// beyond the compared prefix stay clear.
pub proof fn lemma_lane_mask_bits(s: Seq<u8>, t: u8, k: int)
    requires
        0 <= k <= 16,
    ensures
        forall|j: u16|
            j < 16 ==> ((#[trigger] (lane_mask(s, t, k) >> j)) & 1u16) == if j < k && s[j as int]
                == t {
                1u16
            } else {
                0u16
            },
    decreases k,
{
    if k == 0 {
        assert(forall|j: u16| j < 16 ==> ((0u16 >> j) & 1u16) == 0u16) by (bit_vector);
    } else {
        lemma_lane_mask_bits(s, t, k - 1);
        let m = lane_mask(s, t, k - 1);
        let kk = (k - 1) as u16;
        assert forall|j: u16| j < 16 implies ((#[trigger] (lane_mask(s, t, k) >> j)) & 1u16) == if j
            < k && s[j as int] == t {
            1u16
        } else {
            0u16
        } by {
            if s[k - 1] == t {
                assert(lane_mask(s, t, k) == m | (1u16 << kk));
                if j == kk {
                    assert((m >> j) & 1u16 == 0u16);
                    assert(((m | (1u16 << kk)) >> j) & 1u16 == 1u16) by (bit_vector)
                        requires
                            j == kk && kk < 16 && (m >> j) & 1u16 == 0u16,
                    ;
                } else {
                    assert(((m | (1u16 << kk)) >> j) & 1u16 == (m >> j) & 1u16) by (bit_vector)
                        requires
                            j < 16 && kk < 16 && j != kk,
                    ;
                }
            } else {
                assert(lane_mask(s, t, k) == m | 0u16);
                assert(((m | 0u16) >> j) & 1u16 == (m >> j) & 1u16) by (bit_vector);
            }
        }
    }
}

/// Finds the first occurrence of `target` within one 16-byte lane, as the
/// engine's hot loop does: build the per-byte equality mask, then report the
/// position of its lowest set bit.
pub fn first_match_in_u8x16(lane: &[u8], target: u8) -> (r: Option<usize>)
    requires
        lane@.len() == LANE_WIDTH,
    ensures
        match r {
            Some(i) => i < LANE_WIDTH && lane@[i as int] == target && forall|j: int|
                0 <= j < i ==> lane@[j] != target,
            None => forall|j: int| 0 <= j < LANE_WIDTH ==> lane@[j] != target,
        },
{
    let mut bits: u16 = 0;
    let mut i: usize = 0;
    while i < LANE_WIDTH
        invariant
            i <= LANE_WIDTH,
            lane@.len() == LANE_WIDTH,
            bits == lane_mask(lane@, target, i as int),
        decreases LANE_WIDTH - i,
    {
        if lane[i] == target {
            bits = bits | (1u16 << (i as u16));
        }
        proof {
            if lane@[i as int] != target {
                assert(bits | 0u16 == bits) by (bit_vector);
            }
        }
        i = i + 1;
    }
    proof {
        lemma_lane_mask_bits(lane@, target, LANE_WIDTH as int);
    }
    if bits == 0 {
        proof {
            assert forall|j: int| 0 <= j < LANE_WIDTH implies lane@[j] != target by {
                let ju = j as u16;
                assert(((bits >> ju) & 1u16) == 0u16) by (bit_vector)
                    requires
                        bits == 0u16,
                ;
            }
        }
        return None;
    }
    let mut pos: usize = 0;
    while pos < LANE_WIDTH
        invariant
            pos <= LANE_WIDTH,
            lane@.len() == LANE_WIDTH,
            bits == lane_mask(lane@, target, LANE_WIDTH as int),
            forall|j: u16|
                j < 16 ==> ((#[trigger] (bits >> j)) & 1u16) == if lane@[j as int] == target {
                    1u16
                } else {
                    0u16
                },
            forall|j: int| 0 <= j < pos ==> lane@[j] != target,
        decreases LANE_WIDTH - pos,
    {
        if (bits >> (pos as u16)) & 1 == 1 {
            return Some(pos);
        }
        pos = pos + 1;
    }
    None
}

/// A plain byte-wise search over the whole window, with no fast-path limit:
/// the reference the fast path is measured against, and the search used where
/// the window is a small probe rather than the hot scan.
pub fn scan_bytes(buf: &[u8], target: u8) -> (r: Option<usize>)
    ensures
        match r {
            Some(i) => find_byte(buf@, target) == Some(i as int),
            None => find_byte(buf@, target) is None,
        },
{
    let n = buf.len();
    let mut i: usize = 0;
    while i < n
        invariant
            i <= n,
            n == buf@.len(),
            forall|j: int| 0 <= j < i ==> buf@[j] != target,
        decreases n - i,
    {
        if buf[i] == target {
            proof {
                lemma_find_byte_witness(buf@, target, i as int);
            }
            return Some(i);
        }
        i = i + 1;
    }
    proof {
        lemma_find_byte_absent(buf@, target);
    }
    None
}

/// Copies up to 16 bytes into a full-width lane, padding with zeroes.
pub fn load_u8x16_padded(bytes: &[u8]) -> (lane: Vec<u8>)
    ensures
        lane@.len() == LANE_WIDTH,
        forall|j: int| 0 <= j < LANE_WIDTH ==> lane@[j] == if j < bytes@.len() {
            bytes@[j]
        } else {
            0u8
        },
{
    let mut lane: Vec<u8> = Vec::new();
    let mut i: usize = 0;
    while i < LANE_WIDTH
        invariant
            i <= LANE_WIDTH,
            lane@.len() == i,
            forall|j: int| 0 <= j < i ==> lane@[j] == if j < bytes@.len() {
                bytes@[j]
            } else {
                0u8
            },
        decreases LANE_WIDTH - i,
    {
        if i < bytes.len() {
            lane.push(bytes[i]);
        } else {
            lane.push(0u8);
        }
        i = i + 1;
    }
    lane
}

/// Finds the next occurrence of `target` in the window: three 16-byte lanes
/// when at least `FAST_PATH_MIN` bytes remain, a whole-window byte search
/// otherwise.
pub fn find_char(buf: &[u8], target: u8) -> (r: Option<usize>)
    ensures
        match r {
            Some(i) => scan_spec(buf@, target) == Some(i as int),
            None => scan_spec(buf@, target).is_none(),
        },
{
    if buf.len() >= FAST_PATH_MIN {
        let ghost s48 = buf@.take(FAST_PATH_MIN as int);
        let mut lane_start: usize = 0;
        while lane_start < FAST_PATH_MIN
            invariant
                lane_start <= FAST_PATH_MIN,
                lane_start % LANE_WIDTH == 0,
                buf@.len() >= FAST_PATH_MIN,
                s48 == buf@.take(FAST_PATH_MIN as int),
                forall|j: int| 0 <= j < lane_start ==> buf@[j] != target,
            decreases FAST_PATH_MIN - lane_start,
        {
            let lane = vstd::slice::slice_subrange(buf, lane_start, lane_start + LANE_WIDTH);
            if let Some(idx) = first_match_in_u8x16(lane, target) {
                let pos = lane_start + idx;
                proof {
                    assert(lane@[idx as int] == buf@[pos as int]);
                    assert forall|j: int| 0 <= j < pos implies s48[j] != target by {
                        if j >= lane_start {
                            assert(lane@[j - lane_start] == buf@[j]);
                        }
                        assert(s48[j] == buf@[j]);
                    }
                    assert(s48[pos as int] == buf@[pos as int]);
                    lemma_find_byte_witness(s48, target, pos as int);
                }
                return Some(pos);
            }
            proof {
                assert forall|j: int| 0 <= j < lane_start + LANE_WIDTH implies buf@[j] != target by {
                    if j >= lane_start {
                        assert(lane@[j - lane_start] == buf@[j]);
                    }
                }
            }
            lane_start = lane_start + LANE_WIDTH;
        }
        proof {
            assert forall|j: int| 0 <= j < s48.len() implies s48[j] != target by {
                assert(s48[j] == buf@[j]);
            }
            lemma_find_byte_absent(s48, target);
        }
        None
    } else {
        let r = memchr_first(target, buf);
        proof {
            match r {
                Some(i) => {
                    lemma_find_byte_witness(buf@, target, i as int);
                },
                None => {
                    lemma_find_byte_absent(buf@, target);
                },
            }
        }
        r
    }
}

} // verus!
