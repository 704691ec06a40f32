//! Deterministic identifiers for stored entries (FNV-1a, 64 bit).
use vstd::prelude::*;

verus! {

pub const FNV_OFFSET: u64 = 0xcbf2_9ce4_8422_2325;

pub const FNV_PRIME: u64 = 0x0000_0100_0000_01b3;

/// FNV-1a over a byte sequence, folding from the first byte to the last.
pub open spec fn fnv1a(bytes: Seq<u8>) -> u64
    decreases bytes.len(),
{
    if bytes.len() == 0 {
        FNV_OFFSET
    } else {
        (fnv1a(bytes.drop_last()) ^ (bytes.last() as u64)).wrapping_mul(FNV_PRIME)
    }
}

/// FNV-1a continued from the state `h` over `bytes`.
pub open spec fn fnv1a_from(h: u64, bytes: Seq<u8>) -> u64
    decreases bytes.len(),
{
    if bytes.len() == 0 {
        h
    } else {
        (fnv1a_from(h, bytes.drop_last()) ^ (bytes.last() as u64)).wrapping_mul(FNV_PRIME)
    }
}

pub proof fn lemma_fnv1a_from_offset(bytes: Seq<u8>)
    ensures
        fnv1a_from(FNV_OFFSET, bytes) == fnv1a(bytes),
    decreases bytes.len(),
{
    if bytes.len() > 0 {
        lemma_fnv1a_from_offset(bytes.drop_last());
    }
}

pub proof fn lemma_fnv1a_from_concat(h: u64, a: Seq<u8>, b: Seq<u8>)
    ensures
        fnv1a_from(h, a + b) == fnv1a_from(fnv1a_from(h, a), b),
    decreases b.len(),
{
    if b.len() == 0 {
        assert(a + b =~= a);
    } else {
        assert((a + b).drop_last() =~= a + b.drop_last());
        lemma_fnv1a_from_concat(h, a, b.drop_last());
    }
}

/// Feeds `bytes` into the running hash `h`.
pub fn fnv1a_extend(h: u64, bytes: &[u8]) -> (r: u64)
    ensures
        r == fnv1a_from(h, bytes@),
{
    let mut acc: u64 = h;
    let mut i: usize = 0;
    while i < bytes.len()
        invariant
            i <= bytes@.len(),
            acc == fnv1a_from(h, bytes@.subrange(0, i as int)),
        decreases bytes@.len() - i,
    {
        proof {
            assert(bytes@.subrange(0, i as int + 1).drop_last() =~= bytes@.subrange(0, i as int));
        }
        acc = (acc ^ (bytes[i] as u64)).wrapping_mul(FNV_PRIME);
        i = i + 1;
    }
    proof {
        assert(bytes@.subrange(0, i as int) =~= bytes@);
    }
    acc
}

/// A strictly positive `i32` drawn from the low 31 bits of a hash.
pub open spec fn positive_id(h: u64) -> i32 {
    if h % 0x8000_0000 == 0 {
        1
    } else {
        (h % 0x8000_0000) as i32
    }
}

pub fn positive_id_of(h: u64) -> (r: i32)
    ensures
        r == positive_id(h),
        r >= 1,
{
    let low: u64 = h % 0x8000_0000;
    if low == 0 {
        1
    } else {
        low as i32
    }
}

/// The four little-endian bytes of a line number.
pub open spec fn le_bytes(n: u32) -> Seq<u8> {
    seq![(n % 0x100) as u8, ((n / 0x100) % 0x100) as u8, ((n / 0x1_0000) % 0x100) as u8, (n / 0x100_0000) as u8]
}

pub fn le_bytes_of(n: u32) -> (r: [u8; 4])
    ensures
        r@ == le_bytes(n),
{
    let r: [u8; 4] = [(n % 0x100) as u8, ((n / 0x100) % 0x100) as u8, ((n / 0x1_0000) % 0x100) as u8, (n / 0x100_0000) as u8];
    proof {
        assert(r@ =~= le_bytes(n));
    }
    r
}

} // verus!
