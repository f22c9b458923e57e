//! The record grammar and the stream model of aggregation.
//!
//! A record is one `name;value` line; a stream is a byte window holding zero
//! or more terminated records followed by an unterminated remainder. The
//! model absorbs the complete records of a stream, in order, into a table,
//! and the laws below show that splitting a stream at record boundaries,
//! scanning the pieces separately, and merging the per-piece tables gives
//! exactly the single-pass table: the engine's output does not depend on how
//! the file was sharded.

use vstd::prelude::*;

use crate::hashing::spec_bucket;
use crate::scanner::FAST_PATH_MIN;
use crate::scanner::find_byte;
use crate::scanner::lemma_find_byte;
use crate::scanner::lemma_find_byte_concat;
use crate::table::Rec;
use crate::table::empty_rec;
use crate::table::empty_table;
use crate::table::is_pow2_size_int;
use crate::table::lemma_table_merge_empty;
use crate::table::rec_add;
use crate::table::rec_merge;
use crate::table::table_absorb_pair;
use crate::table::table_merge;
use crate::table::wf_rec;
use crate::table::wf_table;
use crate::temperature::lemma_temp_value_range;
use crate::temperature::temp_value;
use crate::temperature::wf_temp;

verus! {

/// The record terminator.
pub const NEWLINE: u8 = 10;

/// The separator between a station name and its reading.
pub const SEMICOLON: u8 = 59;

/// A well-formed record line (terminator excluded): a name of 3 to 100
/// bytes, the separator, and a well-formed temperature field.
pub open spec fn wf_record_line(line: Seq<u8>) -> bool {
    match find_byte(line, SEMICOLON) {
        Some(s) => 3 <= s <= 100 && wf_temp(line.skip(s + 1)),
        None => false,
    }
}

/// Every complete record of the stream is well formed.
pub open spec fn wf_stream(s: Seq<u8>) -> bool
    decreases s.len(),
{
    match find_byte(s, NEWLINE) {
        Some(nl) => {
            proof {
                lemma_find_byte(s, NEWLINE);
            }
            wf_record_line(s.take(nl)) && wf_stream(s.skip(nl + 1))
        },
        None => true,
    }
}

/// Every record terminator in the stream lies where the two-path scanner
/// will see it: within the fast-path lanes whenever the remaining window is
/// long enough to take the fast path.
pub open spec fn scanner_visible(s: Seq<u8>) -> bool
    decreases s.len(),
{
    match find_byte(s, NEWLINE) {
        Some(nl) => {
            proof {
                lemma_find_byte(s, NEWLINE);
            }
            (s.len() < FAST_PATH_MIN || nl < FAST_PATH_MIN) && scanner_visible(s.skip(nl + 1))
        },
        None => true,
    }
}

/// A piece that ends exactly on a record boundary.
pub open spec fn complete_records(s: Seq<u8>) -> bool {
    s.len() == 0 || s[s.len() - 1] == NEWLINE
}

/// One record line absorbed into the table: the name is the bytes before the
/// separator, the reading the parsed field after it. A line without a
/// separator leaves the table unchanged.
pub open spec fn table_absorb_line(t: Seq<Rec>, line: Seq<u8>) -> Seq<Rec> {
    match find_byte(line, SEMICOLON) {
        Some(s) => table_absorb_pair(t, line.take(s), temp_value(line.skip(s + 1))),
        None => t,
    }
}

/// Every complete record of the stream absorbed into the table, in order;
/// bytes after the last terminator are left for the next window.
pub open spec fn table_absorb_stream(t: Seq<Rec>, s: Seq<u8>) -> Seq<Rec>
    decreases s.len(),
{
    match find_byte(s, NEWLINE) {
        Some(nl) => {
            proof {
                lemma_find_byte(s, NEWLINE);
            }
            table_absorb_stream(table_absorb_line(t, s.take(nl)), s.skip(nl + 1))
        },
        None => t,
    }
}

/// Absorbing a line never changes the number of slots.
pub proof fn lemma_absorb_line_len(t: Seq<Rec>, line: Seq<u8>)
    ensures
        table_absorb_line(t, line).len() == t.len(),
{
}

/// Absorbing a stream never changes the number of slots.
pub proof fn lemma_absorb_stream_len(t: Seq<Rec>, s: Seq<u8>)
    ensures
        table_absorb_stream(t, s).len() == t.len(),
    decreases s.len(),
{
    match find_byte(s, NEWLINE) {
        Some(nl) => {
            lemma_find_byte(s, NEWLINE);
            lemma_absorb_stream_len(table_absorb_line(t, s.take(nl)), s.skip(nl + 1));
        },
        None => {},
    }
}

/// Absorbing a stream of well-formed records keeps every slot well formed.
pub proof fn lemma_absorb_stream_wf(t: Seq<Rec>, s: Seq<u8>)
    requires
        wf_table(t),
        wf_stream(s),
    ensures
        wf_table(table_absorb_stream(t, s)),
    decreases s.len(),
{
    match find_byte(s, NEWLINE) {
        Some(nl) => {
            lemma_find_byte(s, NEWLINE);
            let line = s.take(nl);
            let t1 = table_absorb_line(t, line);
            match find_byte(line, SEMICOLON) {
                Some(sl) => {
                    lemma_temp_value_range(line.skip(sl + 1));
                    let b = spec_bucket(line.take(sl), t.len() as int);
                    assert forall|i: int| 0 <= i < t1.len() implies wf_rec(#[trigger] t1[i]) by {
                        if i != b {
                            assert(t1[i] == t[i]);
                        }
                    }
                },
                None => {},
            }
            lemma_absorb_stream_wf(t1, s.skip(nl + 1));
        },
        None => {},
    }
}

/// A stream that ends on a record boundary can be absorbed first, and the
/// rest of the input after it: absorption splits over line-aligned
/// concatenation.
pub proof fn lemma_absorb_stream_concat(t: Seq<Rec>, a: Seq<u8>, b: Seq<u8>)
    requires
        complete_records(a),
    ensures
        table_absorb_stream(t, a + b) == table_absorb_stream(table_absorb_stream(t, a), b),
    decreases a.len(),
{
    if a.len() == 0 {
        assert(a + b =~= b);
    } else {
        lemma_find_byte(a, NEWLINE);
        lemma_find_byte_concat(a, b, NEWLINE);
        let nl = find_byte(a, NEWLINE)->Some_0;
        assert(find_byte(a, NEWLINE) is Some) by {
            lemma_find_byte(a, NEWLINE);
            if find_byte(a, NEWLINE) is None {
                assert(a[a.len() - 1] != NEWLINE);
            }
        }
        assert((a + b).take(nl) =~= a.take(nl));
        assert((a + b).skip(nl + 1) =~= a.skip(nl + 1) + b);
        let rest = a.skip(nl + 1);
        assert(complete_records(rest)) by {
            if rest.len() > 0 {
                assert(rest[rest.len() - 1] == a[a.len() - 1]);
            }
        }
        lemma_absorb_stream_concat(table_absorb_line(t, a.take(nl)), rest, b);
    }
}

/// Well-formed streams joined at a record boundary form a well-formed
/// stream.
pub proof fn lemma_wf_stream_concat(a: Seq<u8>, b: Seq<u8>)
    requires
        complete_records(a),
        wf_stream(a),
        wf_stream(b),
    ensures
        wf_stream(a + b),
    decreases a.len(),
{
    if a.len() == 0 {
        assert(a + b =~= b);
    } else {
        lemma_find_byte(a, NEWLINE);
        lemma_find_byte_concat(a, b, NEWLINE);
        assert(find_byte(a, NEWLINE) is Some) by {
            if find_byte(a, NEWLINE) is None {
                assert(a[a.len() - 1] != NEWLINE);
            }
        }
        let nl = find_byte(a, NEWLINE)->Some_0;
        assert((a + b).take(nl) =~= a.take(nl));
        assert((a + b).skip(nl + 1) =~= a.skip(nl + 1) + b);
        let rest = a.skip(nl + 1);
        assert(complete_records(rest)) by {
            if rest.len() > 0 {
                assert(rest[rest.len() - 1] == a[a.len() - 1]);
            }
        }
        lemma_wf_stream_concat(rest, b);
    }
}

/// Absorbing a line into a slot-wise merge of two tables is the same as
/// absorbing it into the second table and merging afterwards.
pub proof fn lemma_absorb_line_exchange(x: Seq<Rec>, y: Seq<Rec>, line: Seq<u8>)
    requires
        x.len() == y.len(),
    ensures
        table_absorb_line(table_merge(x, y), line) == table_merge(x, table_absorb_line(y, line)),
{
    match find_byte(line, SEMICOLON) {
        Some(sl) => {
            let name = line.take(sl);
            let v = temp_value(line.skip(sl + 1));
            let b = spec_bucket(name, x.len() as int);
            let lhs = table_absorb_line(table_merge(x, y), line);
            let rhs = table_merge(x, table_absorb_line(y, line));
            assert forall|i: int| 0 <= i < x.len() implies lhs[i] == rhs[i] by {
                if i == b && 0 <= b < x.len() {
                    assert(rec_add(rec_merge(x[b], y[b]), v, name) == rec_merge(
                        x[b],
                        rec_add(y[b], v, name),
                    ));
                }
            }
            assert(lhs =~= rhs);
        },
        None => {},
    }
}

/// Absorbing a stream into a slot-wise merge of two tables is the same as
/// absorbing it into the second table and merging afterwards.
pub proof fn lemma_absorb_stream_exchange(x: Seq<Rec>, y: Seq<Rec>, s: Seq<u8>)
    requires
        x.len() == y.len(),
    ensures
        table_absorb_stream(table_merge(x, y), s) == table_merge(x, table_absorb_stream(y, s)),
    decreases s.len(),
{
    match find_byte(s, NEWLINE) {
        Some(nl) => {
            lemma_find_byte(s, NEWLINE);
            let line = s.take(nl);
            lemma_absorb_line_exchange(x, y, line);
            lemma_absorb_line_len(y, line);
            lemma_absorb_stream_exchange(x, table_absorb_line(y, line), s.skip(nl + 1));
        },
        None => {},
    }
}

/// Scanning two line-aligned pieces into separate tables and merging them
/// slot by slot yields exactly the table of one pass over the whole input:
/// the aggregation does not depend on where the input was split, so any
/// number of workers produces the same result.
pub proof fn lemma_split_scan_merges_to_single_pass(len: int, a: Seq<u8>, b: Seq<u8>)
    requires
        is_pow2_size_int(len),
        complete_records(a),
        wf_stream(a),
    ensures
        table_merge(
            table_absorb_stream(empty_table(len), a),
            table_absorb_stream(empty_table(len), b),
        ) == table_absorb_stream(empty_table(len), a + b),
{
    let e = empty_table(len);
    assert(wf_table(e)) by {
        assert(forall|i: int| 0 <= i < e.len() ==> #[trigger] e[i] == empty_rec());
    }
    lemma_absorb_stream_concat(e, a, b);
    let x = table_absorb_stream(e, a);
    lemma_absorb_stream_wf(e, a);
    lemma_absorb_stream_len(e, a);
    lemma_table_merge_empty(x);
    assert(empty_table(x.len() as int) =~= e);
    lemma_absorb_stream_exchange(x, e, b);
}
} // verus!
