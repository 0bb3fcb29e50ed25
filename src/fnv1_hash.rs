//! The FNV-1 hash: a non-cryptographic hash of a byte sequence, used to tell
//! whether a document's content has changed.
use vstd::prelude::*;

verus! {

pub const FNV_OFFSET_BASIS: u64 = 14695981039346656037;

pub const FNV_PRIME: u64 = 1099511628211;

/// One FNV-1 step: multiply by the prime modulo 2^64, then xor the byte into
/// the lowest byte.
pub open spec fn fnv1_step(h: u64, b: u8) -> u64 {
    (((h as nat * FNV_PRIME as nat) % 0x1_0000_0000_0000_0000) as u64) ^ (b as u64)
}

/// The FNV-1 hash of `bytes`: the offset basis, then one step per byte in
/// order.
pub open spec fn fnv1(bytes: Seq<u8>) -> u64
    decreases bytes.len(),
{
    if bytes.len() == 0 {
        FNV_OFFSET_BASIS
    } else {
        fnv1_step(fnv1(bytes.drop_last()), bytes.last())
    }
}

/// Something that has a sequence of bytes to hash.
pub trait Hashable {
    /// The bytes that `hash` reads.
    spec fn hashed_bytes(&self) -> Seq<u8>;

    /// The FNV-1 hash of this value's bytes.
    fn hash(&self) -> (r: u64)
        ensures
            r == fnv1(self.hashed_bytes()),
    ;
}

impl Hashable for [u8] {
    open spec fn hashed_bytes(&self) -> Seq<u8> {
        self@
    }

    fn hash(&self) -> (r: u64) {
        hash(self)
    }
}

/// The FNV-1 hash of `bytes`.
pub fn hash(bytes: &[u8]) -> (r: u64)
    ensures
        r == fnv1(bytes@),
{
    let mut acc: u64 = FNV_OFFSET_BASIS;
    let mut i: usize = 0;
    assert(bytes@.take(0) =~= Seq::<u8>::empty());
    while i < bytes.len()
        invariant
            i <= bytes@.len(),
            acc == fnv1(bytes@.take(i as int)),
        decreases bytes@.len() - i,
    {
        assert(bytes@.take(i + 1).drop_last() =~= bytes@.take(i as int));
        acc = lower_byte_xor(acc.wrapping_mul(FNV_PRIME), bytes[i]);
        i = i + 1;
    }
    assert(bytes@.take(i as int) =~= bytes@);
    acc
}

/// Xors `b` into the lowest byte of `a`, leaving the higher bytes as they
/// are.
fn lower_byte_xor(a: u64, b: u8) -> (r: u64)
    ensures
        r == a ^ (b as u64),
{
    let lowest = (a & (u8::MAX as u64)) as u8;
    let r = a & !(u8::MAX as u64) | (lowest ^ b) as u64;
    assert(r == a ^ (b as u64)) by (bit_vector)
        requires
            lowest == (a & 0xff) as u8,
            r == a & !0xffu64 | (lowest ^ b) as u64,
    ;
    r
}

} // verus!
