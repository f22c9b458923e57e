//! The per-worker scan loop: walking one byte window record by record and
//! absorbing every complete record into a private table.
//!
//! The window is whatever a worker was handed — a whole segment buffer or a
//! pipelined chunk. The loop finds the next terminator with the two-path
//! scanner, splits the record at its separator, parses the reading, and
//! absorbs it; bytes after the last terminator are left unconsumed for the
//! caller to carry into the next window.

use vstd::prelude::*;

use crate::records::NEWLINE;
use crate::records::SEMICOLON;
use crate::records::complete_records;
use crate::records::lemma_absorb_stream_concat;
use crate::records::scanner_visible;
use crate::records::table_absorb_line;
use crate::records::table_absorb_stream;
use crate::records::wf_record_line;
use crate::records::wf_stream;
use crate::scanner::FAST_PATH_MIN;
use crate::scanner::find_byte;
use crate::scanner::find_char;
use crate::scanner::lemma_find_byte;
use crate::scanner::lemma_find_byte_prefix;
use crate::scanner::lemma_find_byte_witness;
use crate::table::CustomHashMap;
use crate::table::table_absorb_pair;
use crate::temperature::parse_temp;
use crate::temperature::temp_value;

verus! {

/// Splits one record line at its separator into the name bytes and the
/// parsed fixed-point reading.
pub fn split_measurement_string<'a>(line: &'a [u8]) -> (r: (&'a [u8], i32))
    requires
        wf_record_line(line@),
    ensures
        ({
            let s = find_byte(line@, SEMICOLON)->Some_0;
            r.0@ == line@.take(s) && r.1 == temp_value(line@.skip(s + 1))
        }),
        -999 <= r.1 <= 999,
{
    let ghost sl = find_byte(line@, SEMICOLON)->Some_0;
    proof {
        lemma_find_byte(line@, SEMICOLON);
    }
    let semi = match crate::scanner::memchr_first(SEMICOLON, line) {
        Some(s) => s,
        None => {
            proof {
                assert(false);
            }
            0
        },
    };
    proof {
        lemma_find_byte_witness(line@, SEMICOLON, semi as int);
        assert(semi == sl);
    }
    let name = vstd::slice::slice_subrange(line, 0, semi);
    let temp_field = vstd::slice::slice_subrange(line, semi + 1, line.len());
    proof {
        assert(name@ =~= line@.take(sl));
        assert(temp_field@ =~= line@.skip(sl + 1));
    }
    let temp = parse_temp(temp_field);
    (name, temp)
}

/// Processes every complete record in the window, absorbing each into the
/// table. Returns the number of bytes consumed: the position just after the
/// last terminator, with the unterminated remainder (which holds no
/// terminator) left for the caller.
pub fn scan_window(map: &mut CustomHashMap, window: &[u8]) -> (consumed: usize)
    requires
        old(map).wf(),
        wf_stream(window@),
        scanner_visible(window@),
        forall|i: int|
            0 <= i < old(map)@.len() ==> old(map)@[i].count + window@.len() <= u64::MAX,
    ensures
        final(map).wf(),
        final(map)@.len() == old(map)@.len(),
        consumed <= window@.len(),
        final(map)@ == table_absorb_stream(old(map)@, window@.take(consumed as int)),
        find_byte(window@.skip(consumed as int), NEWLINE) is None,
        consumed == 0 || window@[consumed - 1] == NEWLINE,
        forall|i: int|
            0 <= i < final(map)@.len() ==> final(map)@[i].count <= old(map)@[i].count + consumed,
{
    let ghost t0 = map@;
    let mut line_start: usize = 0;
    proof {
        assert(window@.skip(0) =~= window@);
        assert(window@.take(0) =~= Seq::<u8>::empty());
    }
    loop
        invariant_except_break
            line_start <= window@.len(),
            line_start == 0 || window@[line_start - 1] == NEWLINE,
            map.wf(),
            map@.len() == t0.len(),
            wf_stream(window@.skip(line_start as int)),
            scanner_visible(window@.skip(line_start as int)),
            map@ == table_absorb_stream(t0, window@.take(line_start as int)),
            forall|i: int| 0 <= i < t0.len() ==> t0[i].count + window@.len() <= u64::MAX,
            forall|i: int| 0 <= i < map@.len() ==> map@[i].count <= t0[i].count + line_start,
        ensures
            line_start <= window@.len(),
            line_start == 0 || window@[line_start - 1] == NEWLINE,
            map.wf(),
            map@.len() == t0.len(),
            map@ == table_absorb_stream(t0, window@.take(line_start as int)),
            find_byte(window@.skip(line_start as int), NEWLINE) is None,
            forall|i: int| 0 <= i < map@.len() ==> map@[i].count <= t0[i].count + line_start,
        decreases window@.len() - line_start,
    {
        let slice = vstd::slice::slice_subrange(window, line_start, window.len());
        let ghost rem = window@.skip(line_start as int);
        proof {
            assert(slice@ =~= rem);
        }
        match find_char(slice, NEWLINE) {
            Some(nl) => {
                proof {
                    if slice@.len() >= FAST_PATH_MIN {
                        let s48 = slice@.take(FAST_PATH_MIN as int);
                        lemma_find_byte(s48, NEWLINE);
                        assert forall|j: int| 0 <= j < nl implies slice@[j] != NEWLINE by {
                            assert(s48[j] == slice@[j]);
                        }
                        assert(s48[nl as int] == slice@[nl as int]);
                        lemma_find_byte_witness(slice@, NEWLINE, nl as int);
                    }
                    assert(find_byte(rem, NEWLINE) == Some(nl as int));
                    lemma_find_byte(rem, NEWLINE);
                }
                let ghost line = rem.take(nl as int);
                let ghost sl = find_byte(line, SEMICOLON)->Some_0;
                proof {
                    assert(wf_record_line(line));
                    lemma_find_byte(line, SEMICOLON);
                    assert(slice@[sl] == line[sl]);
                    assert forall|j: int| 0 <= j < sl implies slice@[j] != SEMICOLON by {
                        assert(line[j] == slice@[j]);
                    }
                    lemma_find_byte_witness(slice@, SEMICOLON, sl);
                    if slice@.len() >= FAST_PATH_MIN {
                        lemma_find_byte_prefix(slice@, SEMICOLON, FAST_PATH_MIN as int);
                    }
                }
                let semi = match find_char(slice, SEMICOLON) {
                    Some(s) => s,
                    None => {
                        proof {
                            assert(false);
                        }
                        0
                    },
                };
                proof {
                    assert(semi == sl);
                }
                let name_slice = vstd::slice::slice_subrange(slice, 0, semi);
                let temp_slice = vstd::slice::slice_subrange(slice, semi + 1, nl);
                proof {
                    assert(name_slice@ =~= line.take(sl));
                    assert(temp_slice@ =~= line.skip(sl + 1));
                }
                let temp = parse_temp(temp_slice);
                let ghost prev = map@;
                proof {
                    crate::hashing::lemma_bucket_in_range(name_slice@, map@.len() as usize);
                    assert(line_start < window@.len());
                }
                map.absorb(name_slice, temp);
                proof {
                    let ls = line_start as int;
                    let a = window@.take(ls);
                    let lp = window@.subrange(ls, ls + nl + 1);
                    assert(complete_records(a));
                    lemma_absorb_stream_concat(t0, a, lp);
                    assert(window@.take(ls + nl + 1) =~= a + lp);
                    assert(lp[nl as int] == NEWLINE);
                    assert forall|j: int| 0 <= j < nl implies lp[j] != NEWLINE by {
                        assert(lp[j] == rem[j]);
                    }
                    lemma_find_byte_witness(lp, NEWLINE, nl as int);
                    assert(lp.take(nl as int) =~= line);
                    assert(lp.skip(nl + 1) =~= Seq::<u8>::empty());
                    assert(table_absorb_line(prev, line) == table_absorb_pair(
                        prev,
                        line.take(sl),
                        temp_value(line.skip(sl + 1)),
                    ));
                    assert(table_absorb_line(prev, line) == map@);
                    assert(table_absorb_stream(prev, lp) == table_absorb_stream(
                        table_absorb_line(prev, lp.take(nl as int)),
                        lp.skip(nl + 1),
                    ));
                    assert(find_byte(Seq::<u8>::empty(), NEWLINE) is None);
                    assert(table_absorb_stream(map@, Seq::<u8>::empty()) == map@);
                    assert(table_absorb_stream(prev, lp) == map@);
                    assert(map@ == table_absorb_stream(t0, window@.take(ls + nl + 1)));
                    assert(rem.skip(nl + 1) =~= window@.skip(ls + nl + 1));
                }
                line_start = line_start + nl + 1;
            },
            None => {
                proof {
                    if find_byte(rem, NEWLINE) is Some {
                        let nlx = find_byte(rem, NEWLINE)->Some_0;
                        lemma_find_byte(rem, NEWLINE);
                        if rem.len() >= FAST_PATH_MIN {
                            lemma_find_byte_prefix(rem, NEWLINE, FAST_PATH_MIN as int);
                        }
                        assert(false);
                    }
                }
                break ;
            },
        }
    }
    line_start
}

/// Scans one buffered window with a carry of leftover bytes from the last
/// window. A record whose head arrived in the previous window is completed
/// from the carry and absorbed first; then the complete records of the
/// window are absorbed, and the unterminated remainder becomes the new
/// carry.
#[verifier::rlimit(100)]
pub fn scan_buffered(map: &mut CustomHashMap, carry: &mut Vec<u8>, buf: &[u8])
    requires
        old(map).wf(),
        find_byte(old(carry)@, NEWLINE) is None,
        wf_stream(old(carry)@ + buf@),
        scanner_visible(buf@),
        old(carry)@.len() == 0 || find_byte(buf@, NEWLINE) is Some,
        old(carry)@.len() + buf@.len() <= usize::MAX,
        forall|i: int|
            0 <= i < old(map)@.len() ==> old(map)@[i].count + old(carry)@.len() + buf@.len()
                <= u64::MAX,
    ensures
        final(map).wf(),
        final(map)@.len() == old(map)@.len(),
        find_byte(final(carry)@, NEWLINE) is None,
        ({
            let s = old(carry)@ + buf@;
            let k = s.len() - final(carry)@.len();
            &&& final(carry)@.len() <= s.len()
            &&& final(carry)@ == s.skip(k as int)
            &&& final(map)@ == table_absorb_stream(old(map)@, s.take(k as int))
            &&& (k == 0 || s[k - 1] == NEWLINE)
        }),
        forall|i: int|
            0 <= i < final(map)@.len() ==> final(map)@[i].count <= old(map)@[i].count + old(
                carry,
            )@.len() + buf@.len(),
{
    let ghost t0 = map@;
    let ghost carry0 = carry@;
    let ghost s = carry0 + buf@;
    let mut line_start: usize = 0;
    let ghost mut k1: int = 0;
    if carry.len() > 0 {
        let nl0 = match crate::scanner::memchr_first(NEWLINE, buf) {
            Some(p) => p,
            None => {
                proof {
                    lemma_find_byte(buf@, NEWLINE);
                    assert(false);
                }
                0
            },
        };
        let head = vstd::slice::slice_subrange(buf, 0, nl0);
        carry.extend_from_slice(head);
        let ghost line0 = carry@;
        proof {
            assert(line0 =~= s.take(carry0.len() + nl0));
            lemma_find_byte(carry0, NEWLINE);
            assert(s[carry0.len() + nl0] == NEWLINE);
            assert forall|j: int| 0 <= j < carry0.len() + nl0 implies s[j] != NEWLINE by {
                if j < carry0.len() {
                    assert(s[j] == carry0[j]);
                } else {
                    assert(s[j] == buf@[j - carry0.len()]);
                }
            }
            lemma_find_byte_witness(s, NEWLINE, carry0.len() + nl0);
            assert(wf_record_line(s.take(carry0.len() + nl0)));
            assert(wf_record_line(line0));
        }
        let (name, temp) = split_measurement_string(carry.as_slice());
        let ghost prev = map@;
        proof {
            lemma_find_byte(line0, SEMICOLON);
            lemma_find_byte_witness(buf@, NEWLINE, nl0 as int);
            crate::hashing::lemma_bucket_in_range(name@, map@.len() as usize);
        }
        map.absorb(name, temp);
        carry.clear();
        line_start = nl0 + 1;
        proof {
            k1 = carry0.len() + nl0 + 1;
            let ghost sl = find_byte(line0, SEMICOLON)->Some_0;
            assert(table_absorb_line(prev, line0) == table_absorb_pair(
                prev,
                line0.take(sl),
                temp_value(line0.skip(sl + 1)),
            ));
            assert(table_absorb_line(prev, line0) == map@);
            let p = s.take(k1);
            assert(p[k1 - 1] == NEWLINE);
            assert forall|j: int| 0 <= j < k1 - 1 implies p[j] != NEWLINE by {
                assert(p[j] == s[j]);
            }
            lemma_find_byte_witness(p, NEWLINE, k1 - 1);
            assert(p.take(k1 - 1) =~= line0);
            assert(p.skip(k1) =~= Seq::<u8>::empty());
            assert(table_absorb_stream(t0, p) == table_absorb_stream(
                table_absorb_line(t0, line0),
                p.skip(k1),
            ));
            assert(map@ == table_absorb_stream(t0, s.take(k1)));
        }
    } else {
        proof {
            assert(s =~= buf@);
            assert(s.take(0) =~= Seq::<u8>::empty());
            assert(map@ == table_absorb_stream(t0, s.take(0)));
        }
    }
    let tail = vstd::slice::slice_subrange(buf, line_start, buf.len());
    proof {
        assert(tail@ =~= s.skip(k1));
        if carry0.len() > 0 {
            assert(find_byte(s, NEWLINE) == Some(k1 - 1));
            assert(wf_stream(s.skip(k1)));
            assert(wf_stream(tail@));
            assert(find_byte(buf@, NEWLINE) == Some(line_start - 1));
            assert(scanner_visible(buf@.skip(line_start as int)));
            assert(buf@.skip(line_start as int) =~= tail@);
            assert(scanner_visible(tail@));
        } else {
            assert(buf@ =~= tail@);
            assert(wf_stream(tail@));
            assert(scanner_visible(tail@));
        }
    }
    let consumed = scan_window(map, tail);
    let rest_start = line_start + consumed;
    let leftover = vstd::slice::slice_subrange(buf, rest_start, buf.len());
    carry.extend_from_slice(leftover);
    proof {
        let k = k1 + consumed;
        assert(carry@ =~= s.skip(k));
        assert(s.take(k1) + s.subrange(k1, k) =~= s.take(k));
        assert(complete_records(s.take(k1))) by {
            if k1 > 0 {
                assert(s.take(k1)[k1 - 1] == s[k1 - 1]);
            }
        }
        lemma_absorb_stream_concat(t0, s.take(k1), s.subrange(k1, k));
        assert(tail@.take(consumed as int) =~= s.subrange(k1, k));
        assert(map@ == table_absorb_stream(t0, s.take(k)));
        assert(find_byte(carry@, NEWLINE) is None) by {
            assert(tail@.skip(consumed as int) =~= carry@);
        }
        assert(carry@.len() == s.len() - k);
        if consumed > 0 {
            assert(s[k - 1] == tail@[consumed - 1]);
        }
    }
}

/// Absorbs the final carried record at end of input: the last line of a file
/// that does not end with a terminator.
pub fn finish_carry(map: &mut CustomHashMap, carry: &Vec<u8>)
    requires
        old(map).wf(),
        carry@.len() == 0 || wf_record_line(carry@),
        forall|i: int| 0 <= i < old(map)@.len() ==> old(map)@[i].count < u64::MAX,
    ensures
        final(map).wf(),
        final(map)@.len() == old(map)@.len(),
        final(map)@ == if carry@.len() == 0 {
            old(map)@
        } else {
            table_absorb_line(old(map)@, carry@)
        },
{
    if carry.len() > 0 {
        let (name, temp) = split_measurement_string(carry.as_slice());
        proof {
            lemma_find_byte(carry@, SEMICOLON);
            crate::hashing::lemma_bucket_in_range(name@, map@.len() as usize);
        }
        map.absorb(name, temp);
    }
}

} // verus!
