//! The segment planner of the static-sharding topology.
//!
//! The file is cut into one contiguous byte range per worker. Candidate cut
//! points are the evenly spaced offsets `i * (file_len / num_segments)`; at
//! each, a small probe window read from the file is scanned forward for the
//! next record terminator, and the byte after it becomes the true boundary,
//! so no record is ever split between two segments. The first segment starts
//! at the beginning of the file and the last ends at its end: the segments
//! partition the whole file.

use vstd::prelude::*;

use crate::records::NEWLINE;
use crate::scanner::find_byte;
use crate::scanner::lemma_find_byte;
use crate::scanner::scan_bytes;

verus! {

/// The segments cover `[0, file_len)` exactly: they start at zero, end at
/// the file's end, abut one another, and none runs backwards.
pub open spec fn is_partition(segs: Seq<(usize, usize)>, file_len: int) -> bool {
    &&& segs.len() >= 1
    &&& segs[0].0 == 0
    &&& segs[segs.len() - 1].1 == file_len
    &&& forall|i: int| 0 <= i < segs.len() - 1 ==> (#[trigger] segs[i].1) as int == segs[i + 1].0
    &&& forall|i: int| 0 <= i < segs.len() ==> (#[trigger] segs[i].0) <= segs[i].1
}

/// In a partition the segments come in file order: each ends no later than
/// any later one starts.
pub proof fn lemma_partition_ordered(segs: Seq<(usize, usize)>, file_len: int, i: int, j: int)
    requires
        is_partition(segs, file_len),
        0 <= i <= j < segs.len(),
    ensures
        segs[i].1 <= segs[j].0 || i == j,
    decreases j - i,
{
    if i < j {
        lemma_partition_ordered(segs, file_len, i + 1, j);
    }
}

/// Every byte offset of the file falls into exactly one segment.
pub proof fn lemma_partition_covers(segs: Seq<(usize, usize)>, file_len: int, off: int)
    requires
        is_partition(segs, file_len),
        0 <= off < file_len,
    ensures
        exists|i: int|
            0 <= i < segs.len() && (#[trigger] segs[i].0) <= off < segs[i].1,
        forall|i: int, j: int|
            0 <= i < segs.len() && 0 <= j < segs.len() && i != j && (#[trigger] segs[i].0) <= off
                < segs[i].1 ==> !((#[trigger] segs[j].0) <= off < segs[j].1),
    decreases segs.len(),
{
    let n = segs.len() as int;
    if off >= segs[n - 1].0 {
        assert(segs[n - 1].0 <= off < segs[n - 1].1);
    } else {
        let head = segs.drop_last();
        assert(head.len() == n - 1);
        assert(n >= 2) by {
            if n == 1 {
                assert(segs[0].0 == 0);
            }
        }
        assert(is_partition(head, segs[n - 2].1 as int)) by {
            assert forall|i: int| 0 <= i < head.len() - 1 implies (#[trigger] head[i].1) as int
                == head[i + 1].0 by {
                assert(head[i] == segs[i] && head[i + 1] == segs[i + 1]);
            }
            assert forall|i: int| 0 <= i < head.len() implies (#[trigger] head[i].0)
                <= head[i].1 by {
                assert(head[i] == segs[i]);
            }
        }
        assert(segs[n - 2].1 == segs[n - 1].0);
        lemma_partition_covers(head, segs[n - 2].1 as int, off);
        assert forall|i: int|
            0 <= i < head.len() && (#[trigger] head[i].0) <= off < head[i].1 implies 0 <= i
            < segs.len() && segs[i].0 <= off < segs[i].1 by {
            assert(head[i] == segs[i]);
        }
    }
    assert forall|i: int, j: int|
        0 <= i < segs.len() && 0 <= j < segs.len() && i != j && (#[trigger] segs[i].0) <= off
            < segs[i].1 implies !((#[trigger] segs[j].0) <= off < segs[j].1) by {
        if i < j {
            lemma_partition_ordered(segs, file_len, i, j);
        } else {
            lemma_partition_ordered(segs, file_len, j, i);
        }
    }
}

/// The pieces a partition carves out of the file concatenate back to the
/// whole file: nothing is lost or read twice between the workers.
pub proof fn lemma_partition_pieces_rebuild(segs: Seq<(usize, usize)>, file: Seq<u8>)
    requires
        is_partition(segs, file.len() as int),
    ensures
        segs.map_values(|sg: (usize, usize)| file.subrange(sg.0 as int, sg.1 as int)).flatten()
            == file,
    decreases segs.len(),
{
    let pieces = segs.map_values(|sg: (usize, usize)| file.subrange(sg.0 as int, sg.1 as int));
    if segs.len() == 1 {
        pieces.lemma_flatten_singleton();
        assert(pieces[0] =~= file);
    } else {
        let n = segs.len() as int;
        let head = segs.drop_last();
        let k = segs[n - 2].1 as int;
        assert(k == segs[n - 1].0);
        let prefix = file.take(k);
        assert(is_partition(head, k)) by {
            assert forall|i: int| 0 <= i < head.len() - 1 implies (#[trigger] head[i].1) as int
                == head[i + 1].0 by {
                assert(head[i] == segs[i] && head[i + 1] == segs[i + 1]);
            }
            assert forall|i: int| 0 <= i < head.len() implies (#[trigger] head[i].0)
                <= head[i].1 by {
                assert(head[i] == segs[i]);
            }
        }
        lemma_partition_pieces_rebuild(head, prefix);
        let head_pieces = head.map_values(
            |sg: (usize, usize)| prefix.subrange(sg.0 as int, sg.1 as int),
        );
        let head_pieces_f = head.map_values(
            |sg: (usize, usize)| file.subrange(sg.0 as int, sg.1 as int),
        );
        assert forall|i: int| 0 <= i < head.len() implies head_pieces_f[i] == head_pieces[i] by {
            assert(head[i] == segs[i]);
            if i < n - 2 {
                lemma_partition_ordered(segs, file.len() as int, i, n - 2);
            }
            assert(segs[i].1 <= k);
            assert(file.subrange(segs[i].0 as int, segs[i].1 as int) =~= prefix.subrange(
                segs[i].0 as int,
                segs[i].1 as int,
            ));
        }
        assert(head_pieces_f =~= head_pieces);
        let last_piece = file.subrange(k, file.len() as int);
        assert(pieces =~= head_pieces_f.push(last_piece));
        head_pieces_f.lemma_flatten_push(last_piece);
        assert(prefix + last_piece =~= file);
    }
}

/// A boundary computed from a probe lies one byte past a record terminator
/// of the file, provided the probe really is the file's bytes at the probed
/// offset: the byte before each planner boundary is a terminator.
pub proof fn lemma_boundary_after_terminator(file: Seq<u8>, probe: Seq<u8>, start: int, b: int)
    requires
        0 <= start,
        start + probe.len() <= file.len(),
        probe == file.subrange(start, start + probe.len()),
        find_byte(probe, NEWLINE) is Some,
        b == start + find_byte(probe, NEWLINE)->Some_0 + 1,
    ensures
        1 <= b <= file.len(),
        file[b - 1] == NEWLINE,
{
    lemma_find_byte(probe, NEWLINE);
    let nl = find_byte(probe, NEWLINE)->Some_0;
    assert(file[start + nl] == probe[nl]);
}

/// Plans the worker segments: the evenly spaced candidate offsets, each
/// moved forward to just past the next record terminator that its probe
/// shows. `probes[i]` must hold the file's bytes read at offset
/// `(i + 1) * (file_len / num_segments)`; each probe must be no longer than
/// one expected segment and must contain a terminator.
pub fn find_segment_splits(
    file_len: usize,
    num_segments: usize,
    probes: &Vec<Vec<u8>>,
) -> (segs: Vec<(usize, usize)>)
    requires
        num_segments >= 1,
        probes@.len() == num_segments - 1,
        forall|i: int|
            0 <= i < probes@.len() ==> (#[trigger] probes@[i])@.len() <= file_len / num_segments,
        forall|i: int| 0 <= i < probes@.len() ==> find_byte((#[trigger] probes@[i])@, NEWLINE) is Some,
    ensures
        segs@.len() == num_segments,
        is_partition(segs@, file_len as int),
        forall|i: int|
            0 <= i < num_segments - 1 ==> (#[trigger] segs@[i].1) as int == (i + 1) * (file_len
                / num_segments) as int + find_byte(probes@[i]@, NEWLINE)->Some_0 + 1,
{
    let ess = file_len / num_segments;
    proof {
        assert(num_segments * ess <= file_len) by (nonlinear_arith)
            requires
                ess == file_len / num_segments && num_segments >= 1,
        {
            vstd::arithmetic::div_mod::lemma_fundamental_div_mod(
                file_len as int,
                num_segments as int,
            );
        }
    }
    let mut segs: Vec<(usize, usize)> = Vec::new();
    let mut prev: usize = 0;
    let mut i: usize = 1;
    while i < num_segments
        invariant
            1 <= i <= num_segments,
            ess == file_len / num_segments,
            num_segments * ess <= file_len,
            probes@.len() == num_segments - 1,
            forall|k: int|
                0 <= k < probes@.len() ==> (#[trigger] probes@[k])@.len() <= file_len
                    / num_segments,
            forall|k: int|
                0 <= k < probes@.len() ==> find_byte((#[trigger] probes@[k])@, NEWLINE) is Some,
            segs@.len() == i - 1,
            prev as int <= i as int * ess as int,
            i == 1 ==> prev == 0,
            i > 1 ==> segs@[0].0 == 0,
            i > 1 ==> segs@[segs@.len() - 1].1 == prev,
            forall|k: int| 0 <= k < segs@.len() - 1 ==> (#[trigger] segs@[k].1) as int == segs@[k
                + 1].0,
            forall|k: int| 0 <= k < segs@.len() ==> (#[trigger] segs@[k].0) <= segs@[k].1,
            forall|k: int|
                0 <= k < segs@.len() ==> (#[trigger] segs@[k].1) as int == (k + 1) * ess as int
                    + find_byte(probes@[k]@, NEWLINE)->Some_0 + 1,
        decreases num_segments - i,
    {
        proof {
            assert(i as int * ess as int + ess as int <= file_len as int) by (nonlinear_arith)
                requires
                    i as int + 1 <= num_segments as int,
                    ess >= 0,
                    num_segments as int * ess as int <= file_len as int,
            ;
        }
        let search_start = i * ess;
        let probe = &probes[i - 1];
        let j = match scan_bytes(probe.as_slice(), NEWLINE) {
            Some(j) => j,
            None => {
                proof {
                    assert(false);
                }
                0
            },
        };
        proof {
            lemma_find_byte(probe@, NEWLINE);
        }
        let curr = search_start + j + 1;
        segs.push((prev, curr));
        prev = curr;
        i = i + 1;
        proof {
            assert(i as int * ess as int == (i - 1) as int * ess as int + ess as int)
                by (nonlinear_arith);
        }
    }
    segs.push((prev, file_len));
    proof {
        assert(i as int * ess as int <= num_segments as int * ess as int) by (nonlinear_arith)
            requires
                i as int <= num_segments as int,
                ess >= 0,
        ;
        assert(is_partition(segs@, file_len as int));
    }
    segs
}

} // verus!
