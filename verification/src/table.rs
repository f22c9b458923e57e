//! The aggregation table: per-station running statistics, addressed by the
//! fingerprint hash, with no collision resolution.
//!
//! Each slot holds the minimum, maximum, sum and count of the readings that
//! hashed to it, in tenths of a degree, plus the station name captured on the
//! slot's first observation. Distinct names that hash to one slot share it;
//! the workload's name universe is assumed collision-free for the configured
//! table size. Per-worker tables are merged slot by slot: extrema of extrema,
//! sums of sums, and the first captured name.

use vstd::prelude::*;

use crate::hashing::bucket_index;
use crate::hashing::is_pow2_size;
use crate::hashing::lemma_bucket_in_range;
use crate::hashing::spec_bucket;

verus! {

/// The mathematical content of one table slot.
pub struct Rec {
    pub min: int,
    pub max: int,
    pub sum: int,
    pub count: nat,
    pub name: Option<Seq<u8>>,
}

/// A slot that has absorbed nothing: sentinel extrema, zero sum and count,
/// no name captured.
pub open spec fn empty_rec() -> Rec {
    Rec { min: i32::MAX as int, max: i32::MIN as int, sum: 0, count: 0, name: None }
}

/// One observation absorbed into a slot: extrema and sum updated, the count
/// incremented, and the name captured if the slot had none.
pub open spec fn rec_add(r: Rec, temp: int, name: Seq<u8>) -> Rec {
    Rec {
        min: if temp < r.min {
            temp
        } else {
            r.min
        },
        max: if temp > r.max {
            temp
        } else {
            r.max
        },
        sum: r.sum + temp,
        count: r.count + 1,
        name: if r.name is Some {
            r.name
        } else {
            Some(name)
        },
    }
}

/// Two slots merged: extrema of extrema, sums of sums and counts, and the
/// first slot's name when it has one.
pub open spec fn rec_merge(a: Rec, b: Rec) -> Rec {
    Rec {
        min: if a.min < b.min {
            a.min
        } else {
            b.min
        },
        max: if a.max > b.max {
            a.max
        } else {
            b.max
        },
        sum: a.sum + b.sum,
        count: a.count + b.count,
        name: if a.name is Some {
            a.name
        } else {
            b.name
        },
    }
}

/// A well-formed slot: empty slots are exactly the sentinel slot, and an
/// occupied slot has in-range extrema, a sum bounded by its count, and a
/// captured name.
pub open spec fn wf_rec(r: Rec) -> bool {
    if r.count == 0 {
        r == empty_rec()
    } else {
        &&& -999 <= r.min <= r.max <= 999
        &&& -999 * r.count <= r.sum <= 999 * r.count
        &&& r.name is Some
    }
}

/// One table slot: statistics in tenths of a degree, and the station name
/// bytes captured on first observation.
pub struct StationData {
    pub min_temp: i32,
    pub max_temp: i32,
    pub total: i128,
    pub count: u64,
    pub name: Option<Vec<u8>>,
}

impl View for StationData {
    type V = Rec;

    open spec fn view(&self) -> Rec {
        Rec {
            min: self.min_temp as int,
            max: self.max_temp as int,
            sum: self.total as int,
            count: self.count as nat,
            name: match self.name {
                Some(v) => Some(v@),
                None => None,
            },
        }
    }
}

impl StationData {
    pub open spec fn wf(&self) -> bool {
        wf_rec(self@)
    }

    /// A fresh, empty slot.
    pub fn new() -> (sd: StationData)
        ensures
            sd.wf(),
            sd@ == empty_rec(),
    {
        StationData { min_temp: i32::MAX, max_temp: i32::MIN, total: 0, count: 0, name: None }
    }

    /// Absorbs one reading; captures `name` if the slot had none yet.
    pub fn add_temp(&mut self, temp: i32, name: &[u8])
        requires
            old(self).wf(),
            -999 <= temp <= 999,
            old(self)@.count < u64::MAX,
        ensures
            final(self).wf(),
            final(self)@ == rec_add(old(self)@, temp as int, name@),
    {
        if temp < self.min_temp {
            self.min_temp = temp;
        }
        if temp > self.max_temp {
            self.max_temp = temp;
        }
        self.total = self.total + (temp as i128);
        self.count = self.count + 1;
        if self.name.is_none() {
            self.name = Some(vstd::slice::slice_to_vec(name));
        }
    }

    /// Folds another slot's statistics into this one.
    pub fn merge_with(&mut self, other: &StationData)
        requires
            old(self).wf(),
            other.wf(),
            old(self)@.count + other@.count <= u64::MAX,
        ensures
            final(self).wf(),
            final(self)@ == rec_merge(old(self)@, other@),
    {
        if other.min_temp < self.min_temp {
            self.min_temp = other.min_temp;
        }
        if other.max_temp > self.max_temp {
            self.max_temp = other.max_temp;
        }
        self.total = self.total + other.total;
        self.count = self.count + other.count;
        if self.name.is_none() {
            self.name = match &other.name {
                Some(v) => Some(vstd::slice::slice_to_vec(v.as_slice())),
                None => None,
            };
        }
    }
}

/// A whole table, viewed as the sequence of its slots.
pub struct CustomHashMap {
    pub backing: Vec<StationData>,
}

/// The model of a table that has absorbed nothing.
pub open spec fn empty_table(len: int) -> Seq<Rec> {
    Seq::new(len as nat, |i: int| empty_rec())
}

/// A well-formed table: a power-of-two number of slots, each well formed.
pub open spec fn wf_table(t: Seq<Rec>) -> bool {
    &&& is_pow2_size_int(t.len() as int)
    &&& forall|i: int| 0 <= i < t.len() ==> wf_rec(#[trigger] t[i])
}

/// A power-of-two slot count that fits the machine.
pub open spec fn is_pow2_size_int(n: int) -> bool {
    0 < n <= usize::MAX && is_pow2_size(n as usize)
}

/// One observation absorbed into the table, at the bucket its name hashes
/// to; a table with no slots absorbs nothing.
pub open spec fn table_absorb_pair(t: Seq<Rec>, name: Seq<u8>, temp: int) -> Seq<Rec> {
    let b = spec_bucket(name, t.len() as int);
    if 0 <= b < t.len() {
        t.update(b, rec_add(t[b], temp, name))
    } else {
        t
    }
}

/// Two tables of equal size merged slot by slot.
pub open spec fn table_merge(x: Seq<Rec>, y: Seq<Rec>) -> Seq<Rec>
    recommends
        x.len() == y.len(),
{
    Seq::new(x.len(), |i: int| rec_merge(x[i], y[i]))
}

impl CustomHashMap {
    pub open spec fn view(&self) -> Seq<Rec> {
        self.backing@.map_values(|sd: StationData| sd@)
    }

    pub open spec fn wf(&self) -> bool {
        wf_table(self@)
    }

    /// A fresh table of `table_len` empty slots.
    pub fn new(table_len: usize) -> (m: CustomHashMap)
        requires
            is_pow2_size(table_len),
        ensures
            m.wf(),
            m@ == empty_table(table_len as int),
    {
        let mut backing: Vec<StationData> = Vec::new();
        let mut i: usize = 0;
        while i < table_len
            invariant
                i <= table_len,
                backing@.len() == i,
                forall|j: int| 0 <= j < i ==> backing@[j]@ == empty_rec(),
            decreases table_len - i,
        {
            backing.push(StationData::new());
            i = i + 1;
        }
        let m = CustomHashMap { backing };
        proof {
            assert(m@ =~= empty_table(table_len as int));
        }
        m
    }

    /// The number of slots.
    pub fn len(&self) -> (n: usize)
        ensures
            n == self@.len(),
    {
        self.backing.len()
    }

    /// Read access to one slot.
    pub fn slot(&self, i: usize) -> (sd: &StationData)
        requires
            i < self@.len(),
        ensures
            sd@ == self@[i as int],
    {
        &self.backing[i]
    }

    /// Absorbs one `(name, reading)` pair into the slot the name hashes to.
    pub fn absorb(&mut self, name: &[u8], temp: i32)
        requires
            old(self).wf(),
            3 <= name@.len() <= 255,
            -999 <= temp <= 999,
            old(self)@[spec_bucket(name@, old(self)@.len() as int)].count < u64::MAX,
        ensures
            final(self).wf(),
            final(self)@.len() == old(self)@.len(),
            final(self)@ == table_absorb_pair(old(self)@, name@, temp as int),
    {
        proof {
            lemma_bucket_in_range(name@, self@.len() as usize);
        }
        let idx = bucket_index(name, self.backing.len());
        let sd = &mut self.backing[idx];
        sd.add_temp(temp, name);
        proof {
            assert(self@ =~= table_absorb_pair(old(self)@, name@, temp as int));
        }
    }

    /// Folds another table of the same size into this one, slot by slot.
    pub fn merge_from(&mut self, other: &CustomHashMap)
        requires
            old(self).wf(),
            other.wf(),
            old(self)@.len() == other@.len(),
            forall|i: int|
                0 <= i < old(self)@.len() ==> old(self)@[i].count + other@[i].count <= u64::MAX,
        ensures
            final(self).wf(),
            final(self)@ == table_merge(old(self)@, other@),
    {
        let ghost orig = self@;
        let n = self.backing.len();
        let mut i: usize = 0;
        while i < n
            invariant
                i <= n,
                n == self@.len(),
                self@.len() == orig.len(),
                other@.len() == orig.len(),
                wf_table(orig),
                wf_table(other@),
                forall|j: int| 0 <= j < orig.len() ==> orig[j].count + other@[j].count <= u64::MAX,
                forall|j: int| i <= j < n ==> self@[j] == orig[j],
                forall|j: int| 0 <= j < i ==> self@[j] == rec_merge(orig[j], other@[j]),
                forall|j: int| 0 <= j < n ==> wf_rec(#[trigger] self@[j]),
            decreases n - i,
        {
            let ghost prev = self@;
            let sd = &mut self.backing[i];
            sd.merge_with(other.slot(i));
            proof {
                assert(self@[i as int] == rec_merge(prev[i as int], other@[i as int]));
                assert forall|j: int| 0 <= j < n && j != i implies self@[j] == prev[j] by {}
                assert forall|j: int| 0 <= j < i + 1 implies self@[j] == rec_merge(
                    orig[j],
                    other@[j],
                ) by {
                    if j == i {
                        assert(prev[i as int] == orig[i as int]);
                        assert(self@[j] == rec_merge(prev[i as int], other@[i as int]));
                    } else {
                        assert(self@[j] == prev[j]);
                        assert(prev[j] == rec_merge(orig[j], other@[j]));
                    }
                }
                assert forall|j: int| 0 <= j < n implies wf_rec(#[trigger] self@[j]) by {
                    if j == i {
                        assert(wf_rec(self@[j]));
                    } else {
                        assert(self@[j] == prev[j]);
                    }
                }
            }
            i = i + 1;
        }
        proof {
            assert(self@ =~= table_merge(old(self)@, other@));
        }
    }
}

/// Merging slots is commutative in every numeric field; only the captured
/// name depends on the order, and only when both slots carry one.
pub proof fn lemma_rec_merge_numeric_commutative(a: Rec, b: Rec)
    ensures
        rec_merge(a, b).min == rec_merge(b, a).min,
        rec_merge(a, b).max == rec_merge(b, a).max,
        rec_merge(a, b).sum == rec_merge(b, a).sum,
        rec_merge(a, b).count == rec_merge(b, a).count,
        a.name is None || b.name is None ==> rec_merge(a, b) == rec_merge(b, a),
{
}

/// Merging tables is commutative in every numeric field of every slot.
pub proof fn lemma_table_merge_numeric_commutative(x: Seq<Rec>, y: Seq<Rec>)
    requires
        x.len() == y.len(),
    ensures
        table_merge(x, y).len() == table_merge(y, x).len(),
        forall|i: int|
            0 <= i < x.len() ==> {
                &&& (#[trigger] table_merge(x, y)[i]).min == table_merge(y, x)[i].min
                &&& table_merge(x, y)[i].max == table_merge(y, x)[i].max
                &&& table_merge(x, y)[i].sum == table_merge(y, x)[i].sum
                &&& table_merge(x, y)[i].count == table_merge(y, x)[i].count
            },
{
}

/// The empty table is an identity of the slot-wise merge.
pub proof fn lemma_table_merge_empty(x: Seq<Rec>)
    requires
        forall|i: int| 0 <= i < x.len() ==> wf_rec(#[trigger] x[i]),
    ensures
        table_merge(x, empty_table(x.len() as int)) == x,
{
    assert forall|i: int| 0 <= i < x.len() implies table_merge(
        x,
        empty_table(x.len() as int),
    )[i] == x[i] by {
        if x[i].count == 0 {
            assert(x[i] == empty_rec());
        }
    }
    assert(table_merge(x, empty_table(x.len() as int)) =~= x);
}

} // verus!
