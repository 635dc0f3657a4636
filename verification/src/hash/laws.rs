//! What checksums tell apart.
use vstd::prelude::*;

use crate::hash;

verus! {

proof fn lemma_bit_apart(a: u32, b: u32)
    by (bit_vector)
    requires
        hash::crc_bit(a) == hash::crc_bit(b),
    ensures
        a == b,
{
}

proof fn lemma_bits_apart(a: u32, b: u32, n: nat)
    requires
        hash::crc_bits(a, n) == hash::crc_bits(b, n),
    ensures
        a == b,
    decreases n,
{
    if n > 0 {
        lemma_bits_apart(hash::crc_bit(a), hash::crc_bit(b), (n - 1) as nat);
        lemma_bit_apart(a, b);
    }
}

proof fn lemma_feed_apart(a: u32, b: u32, s: Seq<u8>)
    requires
        hash::crc_feed(a, s) == hash::crc_feed(b, s),
    ensures
        a == b,
    decreases s.len(),
{
    if s.len() > 0 {
        let t = s.drop_last();
        let x = hash::crc_feed(a, t);
        let y = hash::crc_feed(b, t);
        let d = s.last() as u32;
        lemma_bits_apart(x ^ d, y ^ d, 8);
        assert(x ^ d == y ^ d ==> x == y) by (bit_vector);
        lemma_feed_apart(a, b, t);
    }
}

/// Data that differ in one byte have different checksums.
pub proof fn lemma_one_byte_shows(x: Seq<u8>, a: u8, b: u8, z: Seq<u8>)
    requires
        a != b,
    ensures
        hash::crc32_of(x + seq![a] + z) != hash::crc32_of(x + seq![b] + z),
{
    let s = x.push(a);
    let t = x.push(b);
    assert(x + seq![a] + z =~= s + z);
    assert(x + seq![b] + z =~= t + z);
    assert(s.drop_last() =~= x);
    assert(t.drop_last() =~= x);
    let init = 0xFFFF_FFFFu32;
    let r = hash::crc_feed(init, x);
    let c = hash::crc_feed(init, s);
    let d = hash::crc_feed(init, t);
    hash::lemma_feed_concat(init, s, z);
    hash::lemma_feed_concat(init, t, z);
    let p = hash::crc_feed(c, z);
    let q = hash::crc_feed(d, z);
    assert(p ^ 0xFFFF_FFFFu32 == q ^ 0xFFFF_FFFFu32 ==> p == q) by (bit_vector);
    if p == q {
        lemma_feed_apart(c, d, z);
        let m = a as u32;
        let n = b as u32;
        lemma_bits_apart(r ^ m, r ^ n, 8);
        assert(r ^ m == r ^ n ==> m == n) by (bit_vector);
    }
}

} // verus!
