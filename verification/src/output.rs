//! Rendering the merged table: `name=min/mean/max` entries with one
//! fractional digit, sorted lexicographically, comma-space separated, and
//! wrapped in braces.
//!
//! All statistics are integers in tenths of a degree, so rendering is exact
//! integer-to-decimal conversion. The mean is the sum over the count rounded
//! to the nearest tenth with ties toward positive infinity.

use vstd::prelude::*;

use crate::table::CustomHashMap;
use crate::table::Rec;
use crate::table::StationData;
use crate::table::wf_rec;

verus! {

/// The mean reading of a slot, in tenths, rounded to the nearest integer
/// with ties toward positive infinity: the floor of `(2 sum + count)` over
/// `(2 count)`.
pub open spec fn mean_tenths(sum: int, count: int) -> int {
    (2 * sum + count) / (2 * count)
}

/// The rounding rule, characterized: the rounded mean differs from the exact
/// mean by at most half a tenth, and an exact half rounds up, never down.
pub proof fn lemma_mean_rounds_half_up(sum: int, count: int)
    requires
        count > 0,
    ensures
        2 * count * mean_tenths(sum, count) - count <= 2 * sum,
        2 * sum < 2 * count * mean_tenths(sum, count) + count,
{
    let n = 2 * sum + count;
    let d = 2 * count;
    vstd::arithmetic::div_mod::lemma_fundamental_div_mod(n, d);
    vstd::arithmetic::div_mod::lemma_mod_bound(n, d);
    assert(n == d * (n / d) + n % d);
}

/// The rounded mean lies between the extremes that bound the sum.
pub proof fn lemma_mean_in_range(sum: int, count: int, lo: int, hi: int)
    requires
        count > 0,
        lo * count <= sum <= hi * count,
    ensures
        lo <= mean_tenths(sum, count) <= hi,
{
    let q = mean_tenths(sum, count);
    lemma_mean_rounds_half_up(sum, count);
    assert(lo <= q) by (nonlinear_arith)
        requires
            count > 0,
            lo * count <= sum,
            2 * sum < 2 * count * q + count,
    ;
    assert(q <= hi) by (nonlinear_arith)
        requires
            count > 0,
            sum <= hi * count,
            2 * count * q - count <= 2 * sum,
    ;
}

/// The decimal digits of a nonnegative integer, most significant first.
pub open spec fn dec_digits(n: int) -> Seq<u8>
    recommends
        n >= 0,
    decreases n,
{
    if n < 10 {
        seq![(48 + if 0 <= n < 10 {
            n
        } else {
            0
        }) as u8]
    } else {
        dec_digits(n / 10) + seq![(48 + n % 10) as u8]
    }
}

/// A tenths value rendered with exactly one fractional digit: an optional
/// sign, the integer part, a point, and the tenths digit.
pub open spec fn render_tenths(v: int) -> Seq<u8> {
    let m = if v < 0 {
        -v
    } else {
        v
    };
    (if v < 0 {
        seq![45u8]
    } else {
        Seq::<u8>::empty()
    }) + dec_digits(m / 10) + seq![46u8, (48 + m % 10) as u8]
}

/// One rendered table entry: the station name, `=`, and the three statistics
/// separated by `/`.
pub open spec fn render_entry(r: Rec) -> Seq<u8>
    recommends
        r.count > 0,
        r.name is Some,
{
    r.name->Some_0 + seq![61u8] + render_tenths(r.min) + seq![47u8] + render_tenths(
        mean_tenths(r.sum, r.count as int),
    ) + seq![47u8] + render_tenths(r.max)
}

/// Renders one tenths value, `-999` to `999`, as decimal text with one
/// fractional digit.
pub fn render_tenths_vec(v: i32) -> (out: Vec<u8>)
    requires
        -999 <= v <= 999,
    ensures
        out@ == render_tenths(v as int),
{
    let mut out: Vec<u8> = Vec::new();
    let m: i32 = if v < 0 {
        out.push(45);
        -v
    } else {
        v
    };
    let q = m / 10;
    if q >= 10 {
        out.push(48 + (q / 10) as u8);
        out.push(48 + (q % 10) as u8);
    } else {
        out.push(48 + q as u8);
    }
    out.push(46);
    out.push(48 + (m % 10) as u8);
    proof {
        if q >= 10 {
            assert(dec_digits(q as int) == dec_digits(q as int / 10) + seq![
                (48 + q as int % 10) as u8,
            ]);
        }
        assert(out@ =~= render_tenths(v as int));
    }
    out
}

impl StationData {
    /// Renders this slot as its output entry. The slot must be occupied.
    pub fn format_data_point(&self) -> (out: Vec<u8>)
        requires
            self.wf(),
            self@.count > 0,
        ensures
            out@ == render_entry(self@),
    {
        let mut out: Vec<u8> = Vec::new();
        match &self.name {
            Some(name) => {
                out.extend_from_slice(name.as_slice());
            },
            None => {
                proof {
                    assert(false);
                }
            },
        }
        out.push(61);
        let min_part = render_tenths_vec(self.min_temp);
        out.extend_from_slice(min_part.as_slice());
        out.push(47);
        let mean = self.mean_rounded();
        let mean_part = render_tenths_vec(mean);
        out.extend_from_slice(mean_part.as_slice());
        out.push(47);
        let max_part = render_tenths_vec(self.max_temp);
        out.extend_from_slice(max_part.as_slice());
        proof {
            assert(out@ =~= render_entry(self@));
        }
        out
    }

    /// The rounded mean of this slot, in tenths: ties round toward positive
    /// infinity.
    pub fn mean_rounded(&self) -> (mean: i32)
        requires
            self.wf(),
            self@.count > 0,
        ensures
            mean == mean_tenths(self@.sum, self@.count as int),
            -999 <= mean <= 999,
    {
        let c: i128 = self.count as i128;
        let n: i128 = 2 * self.total + c;
        let d: i128 = 2 * c;
        proof {
            lemma_mean_in_range(self@.sum, self@.count as int, -999, 999);
        }
        let q: i32 = if n >= 0 {
            let qm: u128 = (n as u128) / (d as u128);
            proof {
                lemma_mean_in_range(self@.sum, self@.count as int, -999, 999);
                assert(qm == mean_tenths(self@.sum, self@.count as int));
            }
            qm as i32
        } else {
            let m: u128 = (-n) as u128;
            let du: u128 = d as u128;
            let qm: u128 = (m + du - 1) / du;
            proof {
                let mm = m as int;
                let dd = du as int;
                let q0 = (mm + dd - 1) / dd;
                let r0 = (mm + dd - 1) % dd;
                vstd::arithmetic::div_mod::lemma_fundamental_div_mod(mm + dd - 1, dd);
                vstd::arithmetic::div_mod::lemma_mod_bound(mm + dd - 1, dd);
                assert(mm + dd - 1 == dd * q0 + r0);
                assert(-mm == (-q0) * dd + (dd - 1 - r0)) by (nonlinear_arith)
                    requires
                        mm + dd - 1 == dd * q0 + r0,
                ;
                vstd::arithmetic::div_mod::lemma_fundamental_div_mod_converse(
                    -mm,
                    dd,
                    -q0,
                    dd - 1 - r0,
                );
                assert((-q0) == (-mm) / dd);
                assert(qm == q0);
                lemma_mean_in_range(self@.sum, self@.count as int, -999, 999);
                assert(-(q0 as int) == mean_tenths(self@.sum, self@.count as int));
            }
            -(qm as i32)
        };
        q
    }
}

/// The rendered entries of the occupied slots, in slot order.
pub open spec fn entries_of(t: Seq<Rec>) -> Seq<Seq<u8>>
    decreases t.len(),
{
    if t.len() == 0 {
        Seq::empty()
    } else {
        (if t[0].count > 0 {
            seq![render_entry(t[0])]
        } else {
            Seq::<Seq<u8>>::empty()
        }) + entries_of(t.drop_first())
    }
}

/// Extending the table by one slot appends that slot's entry, if occupied.
pub proof fn lemma_entries_of_push(t: Seq<Rec>, r: Rec)
    ensures
        entries_of(t.push(r)) == entries_of(t) + if r.count > 0 {
            seq![render_entry(r)]
        } else {
            Seq::<Seq<u8>>::empty()
        },
    decreases t.len(),
{
    let tail = if r.count > 0 {
        seq![render_entry(r)]
    } else {
        Seq::<Seq<u8>>::empty()
    };
    if t.len() == 0 {
        reveal_with_fuel(entries_of, 2);
        assert(t.push(r)[0] == r);
        assert(t.push(r).drop_first() =~= Seq::<Rec>::empty());
        assert(entries_of(t.push(r)) =~= entries_of(t) + tail);
    } else {
        assert(t.push(r)[0] == t[0]);
        assert(t.push(r).drop_first() =~= t.drop_first().push(r));
        lemma_entries_of_push(t.drop_first(), r);
        assert(entries_of(t.push(r)) =~= entries_of(t) + tail);
    }
}

/// Byte-wise lexicographic order on rendered entries: a prefix comes first,
/// otherwise the first differing byte decides.
pub open spec fn lex_le(a: Seq<u8>, b: Seq<u8>) -> bool
    decreases a.len(),
{
    if a.len() == 0 {
        true
    } else if b.len() == 0 {
        false
    } else if a[0] < b[0] {
        true
    } else if a[0] > b[0] {
        false
    } else {
        lex_le(a.drop_first(), b.drop_first())
    }
}

/// Any two byte strings compare in at least one direction.
pub proof fn lemma_lex_le_total(a: Seq<u8>, b: Seq<u8>)
    ensures
        lex_le(a, b) || lex_le(b, a),
    decreases a.len(),
{
    if a.len() > 0 && b.len() > 0 && a[0] == b[0] {
        lemma_lex_le_total(a.drop_first(), b.drop_first());
    }
}

/// The order is transitive.
pub proof fn lemma_lex_le_trans(a: Seq<u8>, b: Seq<u8>, c: Seq<u8>)
    requires
        lex_le(a, b),
        lex_le(b, c),
    ensures
        lex_le(a, c),
    decreases a.len(),
{
    if a.len() > 0 && b.len() > 0 && c.len() > 0 && a[0] == b[0] && b[0] == c[0] {
        lemma_lex_le_trans(a.drop_first(), b.drop_first(), c.drop_first());
    }
}

/// Insertion of one entry into an already sorted run.
pub open spec fn insert_sorted(x: Seq<u8>, s: Seq<Seq<u8>>) -> Seq<Seq<u8>>
    decreases s.len(),
{
    if s.len() == 0 {
        seq![x]
    } else if lex_le(x, s[0]) {
        seq![x] + s
    } else {
        seq![s[0]] + insert_sorted(x, s.drop_first())
    }
}

/// Insertion sort of the entries, folding left to right over the slot order.
pub open spec fn sort_entries_from(acc: Seq<Seq<u8>>, s: Seq<Seq<u8>>) -> Seq<Seq<u8>>
    decreases s.len(),
{
    if s.len() == 0 {
        acc
    } else {
        sort_entries_from(insert_sorted(s[0], acc), s.drop_first())
    }
}

/// The entries in ascending lexicographic order of their rendered text.
pub open spec fn sort_entries(s: Seq<Seq<u8>>) -> Seq<Seq<u8>> {
    sort_entries_from(Seq::empty(), s)
}

/// Every pair of the sequence is ordered.
pub open spec fn sorted_lex(s: Seq<Seq<u8>>) -> bool {
    forall|i: int, j: int| 0 <= i < j < s.len() ==> lex_le(#[trigger] s[i], #[trigger] s[j])
}

/// Inserting into a sorted run keeps it sorted.
pub proof fn lemma_insert_sorted_sorted(x: Seq<u8>, s: Seq<Seq<u8>>)
    requires
        sorted_lex(s),
    ensures
        sorted_lex(insert_sorted(x, s)),
        insert_sorted(x, s).len() == s.len() + 1,
    decreases s.len(),
{
    if s.len() == 0 {
    } else if lex_le(x, s[0]) {
        let r = seq![x] + s;
        assert forall|i: int, j: int| 0 <= i < j < r.len() implies lex_le(r[i], r[j]) by {
            if i == 0 {
                if j > 1 {
                    lemma_lex_le_trans(x, s[0], s[j - 1]);
                }
            } else {
                assert(r[i] == s[i - 1] && r[j] == s[j - 1]);
            }
        }
    } else {
        lemma_lex_le_total(x, s[0]);
        assert forall|i: int, j: int|
            0 <= i < j < s.drop_first().len() implies lex_le(
            #[trigger] s.drop_first()[i],
            #[trigger] s.drop_first()[j],
        ) by {
            assert(s.drop_first()[i] == s[i + 1] && s.drop_first()[j] == s[j + 1]);
        }
        lemma_insert_sorted_sorted(x, s.drop_first());
        let rest = insert_sorted(x, s.drop_first());
        let r = seq![s[0]] + rest;
        assert forall|k: int| 0 <= k < rest.len() implies lex_le(s[0], rest[k]) by {
            lemma_insert_sorted_in_order(x, s.drop_first(), s[0], k);
        }
        assert forall|i: int, j: int| 0 <= i < j < r.len() implies lex_le(r[i], r[j]) by {
            if i > 0 {
                assert(r[i] == rest[i - 1] && r[j] == rest[j - 1]);
            } else {
                assert(r[j] == rest[j - 1]);
            }
        }
    }
}

/// An element below the inserted one and below every element of the run is
/// below everything in the result.
proof fn lemma_insert_sorted_in_order(x: Seq<u8>, s: Seq<Seq<u8>>, lo: Seq<u8>, k: int)
    requires
        lex_le(lo, x),
        forall|i: int| 0 <= i < s.len() ==> lex_le(lo, #[trigger] s[i]),
        0 <= k < insert_sorted(x, s).len(),
    ensures
        lex_le(lo, insert_sorted(x, s)[k]),
    decreases s.len(),
{
    if s.len() == 0 {
    } else if lex_le(x, s[0]) {
        let r = seq![x] + s;
        if k > 0 {
            assert(r[k] == s[k - 1]);
        }
    } else {
        let rest = insert_sorted(x, s.drop_first());
        if k > 0 {
            assert forall|i: int| 0 <= i < s.drop_first().len() implies lex_le(
                lo,
                #[trigger] s.drop_first()[i],
            ) by {
                assert(s.drop_first()[i] == s[i + 1]);
            }
            lemma_insert_sorted_in_order(x, s.drop_first(), lo, k - 1);
            assert((seq![s[0]] + rest)[k] == rest[k - 1]);
        }
    }
}

/// The insertion sort produces an ascending sequence: the output entries are
/// sorted by their rendered text.
pub proof fn lemma_sort_entries_sorted(s: Seq<Seq<u8>>)
    ensures
        sorted_lex(sort_entries(s)),
{
    lemma_sort_entries_from_sorted(Seq::empty(), s);
}

proof fn lemma_sort_entries_from_sorted(acc: Seq<Seq<u8>>, s: Seq<Seq<u8>>)
    requires
        sorted_lex(acc),
    ensures
        sorted_lex(sort_entries_from(acc, s)),
    decreases s.len(),
{
    if s.len() > 0 {
        lemma_insert_sorted_sorted(s[0], acc);
        lemma_sort_entries_from_sorted(insert_sorted(s[0], acc), s.drop_first());
    }
}

/// Sorting the slot entries one more slot at a time: the fold over an
/// extended sequence is one more insertion.
pub proof fn lemma_sort_from_push(acc: Seq<Seq<u8>>, s: Seq<Seq<u8>>, x: Seq<u8>)
    ensures
        sort_entries_from(acc, s.push(x)) == insert_sorted(x, sort_entries_from(acc, s)),
    decreases s.len(),
{
    if s.len() == 0 {
        reveal_with_fuel(sort_entries_from, 2);
        assert(s.push(x)[0] == x);
        assert(s.push(x).drop_first() =~= Seq::<Seq<u8>>::empty());
    } else {
        assert(s.push(x)[0] == s[0]);
        assert(s.push(x).drop_first() =~= s.drop_first().push(x));
        lemma_sort_from_push(insert_sorted(s[0], acc), s.drop_first(), x);
    }
}

/// The sorted entries joined with a comma and a space.
pub open spec fn join_entries(s: Seq<Seq<u8>>) -> Seq<u8>
    decreases s.len(),
{
    if s.len() == 0 {
        Seq::empty()
    } else if s.len() == 1 {
        s[0]
    } else {
        s[0] + seq![44u8, 32u8] + join_entries(s.drop_first())
    }
}

/// Joining one more entry appends a separator and the entry.
pub proof fn lemma_join_push(s: Seq<Seq<u8>>, x: Seq<u8>)
    ensures
        join_entries(s.push(x)) == if s.len() == 0 {
            x
        } else {
            join_entries(s) + seq![44u8, 32u8] + x
        },
    decreases s.len(),
{
    if s.len() == 0 {
        assert(s.push(x)[0] == x);
    } else if s.len() == 1 {
        assert(s.push(x)[0] == s[0]);
        assert(s.push(x).drop_first() =~= seq![x]);
        assert(join_entries(seq![x]) == x);
    } else {
        assert(s.push(x)[0] == s[0]);
        assert(s.push(x).drop_first() =~= s.drop_first().push(x));
        lemma_join_push(s.drop_first(), x);
        assert(join_entries(s.push(x)) =~= join_entries(s) + seq![44u8, 32u8] + x);
    }
}

/// The engine's whole output for a table: the occupied slots rendered,
/// sorted ascending by rendered text, comma-space separated, in braces.
pub open spec fn spec_output(t: Seq<Rec>) -> Seq<u8> {
    seq![123u8] + join_entries(sort_entries(entries_of(t))) + seq![125u8]
}

/// The views of a vector of byte vectors.
pub open spec fn views_of(v: Seq<Vec<u8>>) -> Seq<Seq<u8>> {
    v.map_values(|e: Vec<u8>| e@)
}

/// Compares two byte strings lexicographically.
pub fn lex_le_bytes(a: &[u8], b: &[u8]) -> (r: bool)
    ensures
        r == lex_le(a@, b@),
{
    let mut i: usize = 0;
    let a_len = a.len();
    let b_len = b.len();
    proof {
        assert(a@.skip(0) =~= a@);
        assert(b@.skip(0) =~= b@);
    }
    while i < a_len && i < b_len
        invariant
            i <= a_len,
            i <= b_len,
            a_len == a@.len(),
            b_len == b@.len(),
            lex_le(a@, b@) == lex_le(a@.skip(i as int), b@.skip(i as int)),
        decreases a_len - i,
    {
        let ca = a[i];
        let cb = b[i];
        proof {
            assert(a@.skip(i as int)[0] == a@[i as int]);
            assert(b@.skip(i as int)[0] == b@[i as int]);
        }
        if ca < cb {
            return true;
        }
        if ca > cb {
            return false;
        }
        proof {
            assert(a@.skip(i as int).drop_first() =~= a@.skip(i as int + 1));
            assert(b@.skip(i as int).drop_first() =~= b@.skip(i as int + 1));
        }
        i = i + 1;
    }
    proof {
        if i >= a_len {
            assert(a@.skip(i as int).len() == 0);
        } else {
            assert(b@.skip(i as int).len() == 0);
            assert(a@.skip(i as int).len() > 0);
        }
    }
    i >= a_len
}

/// Inserting an entry exactly where the first not-smaller element sits
/// mirrors the recursive insertion.
pub proof fn lemma_insert_sorted_at(x: Seq<u8>, s: Seq<Seq<u8>>, idx: int)
    requires
        0 <= idx <= s.len(),
        forall|j: int| 0 <= j < idx ==> !lex_le(x, #[trigger] s[j]),
        idx < s.len() ==> lex_le(x, s[idx]),
    ensures
        insert_sorted(x, s) == s.take(idx) + seq![x] + s.skip(idx),
    decreases idx,
{
    if idx == 0 {
        assert(insert_sorted(x, s) =~= s.take(0) + seq![x] + s.skip(0));
    } else {
        assert forall|j: int| 0 <= j < idx - 1 implies !lex_le(
            x,
            #[trigger] s.drop_first()[j],
        ) by {
            assert(s.drop_first()[j] == s[j + 1]);
        }
        if idx - 1 < s.drop_first().len() {
            assert(s.drop_first()[idx - 1] == s[idx]);
        }
        lemma_insert_sorted_at(x, s.drop_first(), idx - 1);
        assert(insert_sorted(x, s) =~= s.take(idx) + seq![x] + s.skip(idx));
    }
}

/// Inserts one rendered entry into the sorted run of entries.
fn insert_entry(sorted: &mut Vec<Vec<u8>>, e: Vec<u8>)
    ensures
        views_of(final(sorted)@) == insert_sorted(e@, views_of(old(sorted)@)),
{
    let n = sorted.len();
    let mut idx: usize = 0;
    loop
        invariant_except_break
            idx <= n,
            n == sorted@.len(),
            sorted@ == old(sorted)@,
            forall|j: int| 0 <= j < idx ==> !lex_le(e@, views_of(sorted@)[j]),
        ensures
            idx <= n,
            n == sorted@.len(),
            sorted@ == old(sorted)@,
            forall|j: int| 0 <= j < idx ==> !lex_le(e@, views_of(sorted@)[j]),
            idx == n || lex_le(e@, views_of(sorted@)[idx as int]),
        decreases n - idx,
    {
        if idx >= n {
            break ;
        }
        let cur = &sorted[idx];
        proof {
            assert(views_of(sorted@)[idx as int] == sorted@[idx as int]@);
        }
        if lex_le_bytes(e.as_slice(), cur.as_slice()) {
            break ;
        }
        idx = idx + 1;
    }
    proof {
        lemma_insert_sorted_at(e@, views_of(sorted@), idx as int);
    }
    sorted.insert(idx, e);
    proof {
        let osv = views_of(old(sorted)@);
        assert(views_of(sorted@) =~= osv.take(idx as int) + seq![e@] + osv.skip(idx as int));
    }
}

/// Renders the whole table: every occupied slot's entry, sorted ascending by
/// rendered text, comma-space separated and wrapped in braces.
pub fn format_output(map: &CustomHashMap) -> (out: Vec<u8>)
    requires
        map.wf(),
    ensures
        out@ == spec_output(map@),
{
    let n = map.len();
    let mut sorted: Vec<Vec<u8>> = Vec::new();
    let mut i: usize = 0;
    proof {
        assert(map@.take(0) =~= Seq::<Rec>::empty());
    }
    while i < n
        invariant
            i <= n,
            n == map@.len(),
            map.wf(),
            views_of(sorted@) == sort_entries(entries_of(map@.take(i as int))),
        decreases n - i,
    {
        let ghost prefix = map@.take(i as int);
        let sd = map.slot(i);
        proof {
            assert(wf_rec(map@[i as int]));
        }
        if sd.count > 0 {
            let e = sd.format_data_point();
            let ghost pre_sorted = views_of(sorted@);
            insert_entry(&mut sorted, e);
            proof {
                lemma_sort_from_push(
                    Seq::empty(),
                    entries_of(prefix),
                    render_entry(map@[i as int]),
                );
                assert(entries_of(prefix) + seq![render_entry(map@[i as int])]
                    =~= entries_of(prefix).push(render_entry(map@[i as int])));
            }
        }
        proof {
            lemma_entries_of_push(prefix, map@[i as int]);
            assert(map@.take(i as int + 1) =~= prefix.push(map@[i as int]));
            if map@[i as int].count == 0 {
                assert(entries_of(prefix.push(map@[i as int])) =~= entries_of(prefix));
            }
        }
        i = i + 1;
    }
    proof {
        assert(map@.take(n as int) =~= map@);
    }
    let mut out: Vec<u8> = Vec::new();
    out.push(123);
    let m = sorted.len();
    let mut k: usize = 0;
    proof {
        assert(views_of(sorted@).take(0) =~= Seq::<Seq<u8>>::empty());
    }
    while k < m
        invariant
            k <= m,
            m == sorted@.len(),
            views_of(sorted@) == sort_entries(entries_of(map@)),
            out@ == seq![123u8] + join_entries(views_of(sorted@).take(k as int)),
        decreases m - k,
    {
        if k > 0 {
            out.push(44);
            out.push(32);
        }
        let e = &sorted[k];
        out.extend_from_slice(e.as_slice());
        proof {
            let sv = views_of(sorted@);
            lemma_join_push(sv.take(k as int), sv[k as int]);
            assert(sv.take(k as int + 1) =~= sv.take(k as int).push(sv[k as int]));
            assert(sv[k as int] == sorted@[k as int]@);
            assert(out@ =~= seq![123u8] + join_entries(sv.take(k as int + 1)));
        }
        k = k + 1;
    }
    out.push(125);
    proof {
        assert(views_of(sorted@).take(m as int) =~= views_of(sorted@));
        assert(out@ =~= spec_output(map@));
    }
    out
}

} // verus!
