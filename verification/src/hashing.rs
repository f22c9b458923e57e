//! The fingerprint hash that addresses the aggregation table.
//!
//! A station name is reduced to a lossy 8-byte fingerprint taken from its
//! first three bytes, its last three bytes, and its length; the fingerprint
//! is diffused by a 64-bit bit-mixing finalizer and masked down to a
//! power-of-two table size. Distinct names may share a bucket: the table is
//! sized, and the mixer chosen, so that the intended bounded name universe
//! does not collide, which is an assumption of the workload, not a property
//! enforced here.

use vstd::prelude::*;

verus! {

/// The fingerprint key: first three bytes, last three bytes and the length
/// of the name, packed little-endian into one 64-bit word.
pub open spec fn spec_u64_key(name: Seq<u8>) -> u64
    recommends
        3 <= name.len() <= 255,
{
    (name[0] + name[1] * 0x100 + name[2] * 0x1_0000 + name[name.len() - 3] * 0x100_0000 + name[
        name.len() - 2] * 0x1_0000_0000 + name[name.len() - 1] * 0x100_0000_0000 + name.len()
        * 0x1_0000_0000_0000) as u64
}

/// The 64-bit finalizer: two xor-shifts around two wrapping multiplications
/// by fixed odd constants.
pub open spec fn spec_mix64(x: u64) -> u64 {
    let a = x ^ (x >> 30);
    let b = vstd::wrapping::u64_specs::wrapping_mul(a, 0xbf58476d1ce4e5b9);
    let c = b ^ (b >> 27);
    let d = vstd::wrapping::u64_specs::wrapping_mul(c, 0x94d049bb133111eb);
    d ^ (d >> 31)
}

/// The bucket a name lands in, for a table of `table_len` slots: the mixed
/// fingerprint, kept to the low bits that address a power-of-two table.
pub open spec fn spec_bucket(name: Seq<u8>, table_len: int) -> int {
    (spec_mix64(spec_u64_key(name)) & ((table_len - 1) as u64)) as int
}

/// For a power-of-two table size the masked fingerprint is a valid slot.
pub proof fn lemma_bucket_in_range(name: Seq<u8>, table_len: usize)
    requires
        is_pow2_size(table_len),
    ensures
        0 <= spec_bucket(name, table_len as int) < table_len,
{
    let h = spec_mix64(spec_u64_key(name));
    let k = ((table_len as int - 1) as u64);
    assert(h & k <= k) by (bit_vector);
    assert(k < table_len as u64) by (bit_vector)
        requires
            k == ((table_len as u64 - 1) as u64) && table_len as u64 >= 1,
    ;
}

/// A usable table size: at least one slot, and a power of two.
pub open spec fn is_pow2_size(n: usize) -> bool {
    n >= 1 && ((n as u64) & (((n as u64) - 1) as u64)) == 0
}

/// Packs the boundary bytes and length of a name into its fingerprint key.
pub fn get_u64_key(bytes: &[u8]) -> (key: u64)
    requires
        3 <= bytes@.len() <= 255,
    ensures
        key == spec_u64_key(bytes@),
{
    let n = bytes.len();
    (bytes[0] as u64) + (bytes[1] as u64) * 0x100 + (bytes[2] as u64) * 0x1_0000 + (bytes[n
        - 3] as u64) * 0x100_0000 + (bytes[n - 2] as u64) * 0x1_0000_0000 + (bytes[n - 1] as u64)
        * 0x100_0000_0000 + (n as u64) * 0x1_0000_0000_0000
}

/// Diffuses a fingerprint key over all 64 bits.
pub fn mix64(x: u64) -> (h: u64)
    ensures
        h == spec_mix64(x),
{
    let a = x ^ (x >> 30);
    let b = a.wrapping_mul(0xbf58476d1ce4e5b9);
    let c = b ^ (b >> 27);
    let d = c.wrapping_mul(0x94d049bb133111eb);
    d ^ (d >> 31)
}

/// The bucket index of a name: its mixed fingerprint, masked to the
/// power-of-two table size.
#[verifier::rlimit(100)]
pub fn bucket_index(name: &[u8], table_len: usize) -> (idx: usize)
    requires
        3 <= name@.len() <= 255,
        is_pow2_size(table_len),
    ensures
        idx == spec_bucket(name@, table_len as int),
        idx < table_len,
{
    let h = mix64(get_u64_key(name));
    let m = table_len as u64;
    let idx64 = h & (m - 1);
    proof {
        lemma_bucket_in_range(name@, table_len);
    }
    idx64 as usize
}

/// The seed-probing variant of the hash: the mixed fingerprint is further
/// multiplied (wrapping) by a trial seed and reduced modulo the table size
/// used by the offline seed search.
pub fn hash_3(name: &[u8], seed: u64) -> (h: u64)
    requires
        3 <= name@.len() <= 255,
    ensures
        h == vstd::wrapping::u64_specs::wrapping_mul(
            spec_mix64(spec_u64_key(name@)),
            seed,
        ) % 0x8000,
{
    mix64(get_u64_key(name)).wrapping_mul(seed) % 0x8000
}

} // verus!
