//! A place in memory and a length in one number.
use vstd::prelude::*;

verus! {

/// A place and a length in one number: the place in the high half.
pub open spec fn packed(ptr: u32, len: u32) -> u64 {
    (ptr * 0x1_0000_0000 + len) as u64
}

/// A place and a length in one number.
#[must_use]
pub fn pack(ptr: u32, len: u32) -> (r: u64)
    ensures
        r == packed(ptr, len),
        r == ptr * 0x1_0000_0000 + len,
{
    assert((((ptr as u64) << 32) | (len as u64)) == ptr * 0x1_0000_0000 + len) by (bit_vector);
    ((ptr as u64) << 32) | (len as u64)
}

/// Both halves can be taken out of the number.
pub proof fn lemma_halves(ptr: u32, len: u32)
    ensures
        packed(ptr, len) >> 32 == ptr,
        packed(ptr, len) & 0xFFFF_FFFF == len,
{
    let p = ptr as u64;
    let l = len as u64;
    let v = packed(ptr, len);
    assert(v == p * 0x1_0000_0000 + l);
    assert((p <= 0xFFFF_FFFF && l <= 0xFFFF_FFFF && v == p * 0x1_0000_0000 + l) ==> (v >> 32 == p
        && v & 0xFFFF_FFFF == l)) by (bit_vector);
}

} // verus!
