//! Reducing the per-worker tables into one, and the single-pass engine the
//! reduction is measured against.
//!
//! After the parallel phase every worker hands back a private table of the
//! same size. They are folded slot by slot into one table — extrema of
//! extrema, sums of sums and counts, the first captured name — and the laws
//! of the record model show this equals one sequential pass over the whole
//! input, whatever the split.

use vstd::prelude::*;

use crate::hashing::is_pow2_size;
use crate::output::format_output;
use crate::output::spec_output;
use crate::records::NEWLINE;
use crate::records::complete_records;
use crate::records::scanner_visible;
use crate::records::table_absorb_stream;
use crate::records::wf_stream;
use crate::scan::scan_window;
use crate::scanner::lemma_find_byte;
use crate::table::CustomHashMap;
use crate::table::Rec;
use crate::table::empty_table;
use crate::table::table_merge;

verus! {

/// The per-worker tables folded into an accumulator, in worker order.
pub open spec fn table_merge_fold(acc: Seq<Rec>, tables: Seq<Seq<Rec>>) -> Seq<Rec>
    decreases tables.len(),
{
    if tables.len() == 0 {
        acc
    } else {
        table_merge_fold(table_merge(acc, tables[0]), tables.drop_first())
    }
}

/// The total count that a slot accumulates over a set of tables.
pub open spec fn slot_count_sum(tables: Seq<Seq<Rec>>, i: int) -> int
    decreases tables.len(),
{
    if tables.len() == 0 {
        0
    } else {
        tables[0][i].count + slot_count_sum(tables.drop_first(), i)
    }
}

/// Each table contributes a nonnegative count to a slot's total.
pub proof fn lemma_slot_count_sum_nonneg(tables: Seq<Seq<Rec>>, i: int)
    ensures
        slot_count_sum(tables, i) >= 0,
    decreases tables.len(),
{
    if tables.len() > 0 {
        lemma_slot_count_sum_nonneg(tables.drop_first(), i);
    }
}

/// The views of a vector of tables.
pub open spec fn table_views(tables: Seq<CustomHashMap>) -> Seq<Seq<Rec>> {
    tables.map_values(|t: CustomHashMap| t@)
}

/// Folds all per-worker tables into one fresh table of the same size.
pub fn merge_tables(tables: &Vec<CustomHashMap>, table_len: usize) -> (merged: CustomHashMap)
    requires
        is_pow2_size(table_len),
        forall|j: int| 0 <= j < tables@.len() ==> (#[trigger] tables@[j]).wf(),
        forall|j: int| 0 <= j < tables@.len() ==> (#[trigger] tables@[j])@.len() == table_len,
        forall|i: int|
            0 <= i < table_len ==> slot_count_sum(table_views(tables@), i) <= u64::MAX,
    ensures
        merged.wf(),
        merged@ == table_merge_fold(empty_table(table_len as int), table_views(tables@)),
{
    let mut merged = CustomHashMap::new(table_len);
    let n = tables.len();
    let mut j: usize = 0;
    proof {
        assert(table_views(tables@).skip(0) =~= table_views(tables@));
        assert(forall|i: int| 0 <= i < table_len ==> merged@[i].count == 0);
    }
    while j < n
        invariant
            j <= n,
            n == tables@.len(),
            merged.wf(),
            merged@.len() == table_len,
            is_pow2_size(table_len),
            forall|k: int| 0 <= k < tables@.len() ==> (#[trigger] tables@[k]).wf(),
            forall|k: int| 0 <= k < tables@.len() ==> (#[trigger] tables@[k])@.len() == table_len,
            forall|i: int|
                0 <= i < table_len ==> slot_count_sum(table_views(tables@), i) <= u64::MAX,
            table_merge_fold(merged@, table_views(tables@).skip(j as int)) == table_merge_fold(
                empty_table(table_len as int),
                table_views(tables@),
            ),
            forall|i: int|
                0 <= i < table_len ==> merged@[i].count + slot_count_sum(
                    table_views(tables@).skip(j as int),
                    i,
                ) == slot_count_sum(table_views(tables@), i),
        decreases n - j,
    {
        let ghost tv = table_views(tables@);
        let ghost rest = tv.skip(j as int);
        proof {
            assert(rest[0] == tables@[j as int]@);
            assert forall|i: int| 0 <= i < table_len implies merged@[i].count
                + tables@[j as int]@[i].count <= u64::MAX by {
                lemma_slot_count_sum_nonneg(rest.drop_first(), i);
                assert(rest.len() > 0);
                assert(slot_count_sum(rest, i) == rest[0][i].count + slot_count_sum(
                    rest.drop_first(),
                    i,
                ));
                assert(merged@[i].count + slot_count_sum(rest, i) == slot_count_sum(tv, i));
                assert(slot_count_sum(tv, i) <= u64::MAX);
            }
        }
        let other = &tables[j];
        merged.merge_from(other);
        proof {
            assert(rest.drop_first() =~= tv.skip(j as int + 1));
        }
        j = j + 1;
    }
    proof {
        assert(table_views(tables@).skip(n as int) =~= Seq::<Seq<Rec>>::empty());
    }
    merged
}

/// Folding the per-piece tables after scanning a prefix separately: the fold
/// continues exactly where a single pass over the prefix and the pieces
/// would stand.
proof fn lemma_fold_absorb(len: int, done: Seq<u8>, pieces: Seq<Seq<u8>>)
    requires
        crate::table::is_pow2_size_int(len),
        complete_records(done),
        wf_stream(done),
        forall|k: int| 0 <= k < pieces.len() ==> complete_records(#[trigger] pieces[k]),
        forall|k: int| 0 <= k < pieces.len() ==> wf_stream(#[trigger] pieces[k]),
    ensures
        table_merge_fold(
            table_absorb_stream(empty_table(len), done),
            pieces.map_values(|p: Seq<u8>| table_absorb_stream(empty_table(len), p)),
        ) == table_absorb_stream(empty_table(len), done + pieces.flatten()),
    decreases pieces.len(),
{
    let e = empty_table(len);
    let maps = pieces.map_values(|p: Seq<u8>| table_absorb_stream(e, p));
    if pieces.len() == 0 {
        assert(done + pieces.flatten() =~= done);
    } else {
        let p0 = pieces[0];
        assert(maps[0] == table_absorb_stream(e, p0));
        crate::records::lemma_split_scan_merges_to_single_pass(len, done, p0);
        crate::records::lemma_wf_stream_concat(done, p0);
        assert(complete_records(done + p0)) by {
            if p0.len() > 0 {
                assert((done + p0)[(done + p0).len() - 1] == p0[p0.len() - 1]);
            } else {
                assert(done + p0 =~= done);
            }
        }
        assert(maps.drop_first() =~= pieces.drop_first().map_values(
            |p: Seq<u8>| table_absorb_stream(e, p),
        ));
        lemma_fold_absorb(len, done + p0, pieces.drop_first());
        assert((done + p0) + pieces.drop_first().flatten() =~= done + pieces.flatten());
    }
}

/// Any number of workers, each scanning its own line-aligned piece, and the
/// fold of their tables: the result is exactly the single-pass table over
/// the whole input. Together with the deterministic rendering this makes the
/// engine's output independent of the worker count.
pub proof fn lemma_merged_workers_match_single_pass(len: int, pieces: Seq<Seq<u8>>)
    requires
        crate::table::is_pow2_size_int(len),
        forall|k: int| 0 <= k < pieces.len() ==> complete_records(#[trigger] pieces[k]),
        forall|k: int| 0 <= k < pieces.len() ==> wf_stream(#[trigger] pieces[k]),
    ensures
        table_merge_fold(
            empty_table(len),
            pieces.map_values(|p: Seq<u8>| table_absorb_stream(empty_table(len), p)),
        ) == table_absorb_stream(empty_table(len), pieces.flatten()),
{
    let e = empty_table(len);
    assert(table_absorb_stream(e, Seq::<u8>::empty()) == e);
    lemma_fold_absorb(len, Seq::<u8>::empty(), pieces);
    assert(Seq::<u8>::empty() + pieces.flatten() =~= pieces.flatten());
}

/// The rendered output is byte-identical however the input was split: the
/// merged tables of any number of workers render exactly what one worker
/// scanning the whole input renders.
pub proof fn lemma_output_independent_of_split(len: int, pieces: Seq<Seq<u8>>)
    requires
        crate::table::is_pow2_size_int(len),
        forall|k: int| 0 <= k < pieces.len() ==> complete_records(#[trigger] pieces[k]),
        forall|k: int| 0 <= k < pieces.len() ==> wf_stream(#[trigger] pieces[k]),
    ensures
        spec_output(
            table_merge_fold(
                empty_table(len),
                pieces.map_values(|p: Seq<u8>| table_absorb_stream(empty_table(len), p)),
            ),
        ) == spec_output(table_absorb_stream(empty_table(len), pieces.flatten())),
{
    lemma_merged_workers_match_single_pass(len, pieces);
}

/// One sequential pass: a fresh table absorbs a whole line-aligned input and
/// the result is rendered. The parallel topologies are proved to produce
/// exactly this.
pub fn run_single(data: &[u8], table_len: usize) -> (out: Vec<u8>)
    requires
        is_pow2_size(table_len),
        wf_stream(data@),
        scanner_visible(data@),
        complete_records(data@),
        data@.len() <= u64::MAX,
    ensures
        out@ == spec_output(table_absorb_stream(empty_table(table_len as int), data@)),
{
    let mut map = CustomHashMap::new(table_len);
    let consumed = scan_window(&mut map, data);
    proof {
        if consumed < data@.len() {
            let tail = data@.skip(consumed as int);
            assert(tail[tail.len() - 1] == data@[data@.len() - 1]);
            lemma_find_byte(tail, NEWLINE);
            assert(false);
        }
        assert(data@.take(consumed as int) =~= data@);
    }
    format_output(&map)
}

} // verus!
