//! The tables of RFC 1951.
use vstd::prelude::*;

use crate::deflate::bits;
use crate::deflate::huffman;

verus! {

/// The smallest match length of the codes 257 to 285.
pub const LENGTH_BASE: [u16; 29] = [
    3, 4, 5, 6, 7, 8, 9, 10, 11, 13, 15, 17, 19, 23, 27, 31, 35, 43, 51, 59, 67, 83, 99, 115, 131,
    163, 195, 227, 258,
];

/// The extra bits of the codes 257 to 285.
pub const LENGTH_EXTRA: [u8; 29] = [
    0, 0, 0, 0, 0, 0, 0, 0, 1, 1, 1, 1, 2, 2, 2, 2, 3, 3, 3, 3, 4, 4, 4, 4, 5, 5, 5, 5, 0,
];

/// The smallest distance of the codes 0 to 29.
pub const DIST_BASE: [u16; 30] = [
    1, 2, 3, 4, 5, 7, 9, 13, 17, 25, 33, 49, 65, 97, 129, 193, 257, 385, 513, 769, 1025, 1537, 2049,
    3073, 4097, 6145, 8193, 12289, 16385, 24577,
];

/// The extra bits of the distance codes 0 to 29.
pub const DIST_EXTRA: [u8; 30] = [
    0, 0, 0, 0, 1, 1, 2, 2, 3, 3, 4, 4, 5, 5, 6, 6, 7, 7, 8, 8, 9, 9, 10, 10, 11, 11, 12, 12, 13,
    13,
];

/// The order in which the lengths of the code length alphabet are written:
/// rarely used lengths come last, so that a tail of zeros can be left out.
pub const CLEN_ORDER: [u8; 19] = [
    16, 17, 18, 0, 8, 7, 9, 6, 10, 5, 11, 4, 12, 3, 13, 2, 14, 1, 15,
];

/// The symbol that ends a block.
pub const END_OF_BLOCK: u16 = 256;

/// Symbols of the literal and length alphabet.
pub const NUM_LIT: usize = 286;

/// Symbols of the distance alphabet.
pub const NUM_DIST: usize = 30;

/// Symbols of the code length alphabet.
pub const NUM_CLEN: usize = 19;

/// The code lengths of the fixed literal and length alphabet.
pub open spec fn fixed_lit() -> Seq<u8> {
    Seq::new(
        288,
        |i: int|
            if i < 144 {
                8u8
            } else if i < 256 {
                9u8
            } else if i < 280 {
                7u8
            } else {
                8u8
            },
    )
}

/// The code lengths of the fixed distance alphabet. The codes 30 and 31 exist
/// but stand for no distance.
pub open spec fn fixed_dist() -> Seq<u8> {
    Seq::new(32, |i: int| 5u8)
}

/// The code lengths of the fixed literal and length alphabet.
pub fn fixed_lit_lengths() -> (r: Vec<u8>)
    ensures
        r@ == fixed_lit(),
{
    let mut v: Vec<u8> = Vec::with_capacity(288);
    let mut i: usize = 0;
    while i < 288
        invariant
            i <= 288,
            v@.len() == i,
            forall|j: int| 0 <= j < i ==> #[trigger] v@[j] == fixed_lit()[j],
        decreases 288 - i,
    {
        let l: u8 = if i < 144 {
            8
        } else if i < 256 {
            9
        } else if i < 280 {
            7
        } else {
            8
        };
        v.push(l);
        i = i + 1;
    }
    assert(v@ =~= fixed_lit());
    v
}

/// The code lengths of the fixed distance alphabet.
pub fn fixed_dist_lengths() -> (r: Vec<u8>)
    ensures
        r@ == fixed_dist(),
{
    let v: Vec<u8> = vec![5u8; 32];
    assert(v@ =~= fixed_dist());
    v
}

spec fn run(n: nat, x: u8) -> Seq<u8> {
    Seq::new(n, |i: int| x)
}

proof fn lemma_count_run(a: Seq<u8>, n: nat, x: u8, l: nat)
    ensures
        huffman::count_len(a + run(n, x), l) == huffman::count_len(a, l) + if x == l {
            n
        } else {
            0
        },
    decreases n,
{
    if n == 0 {
        assert(a + run(0, x) =~= a);
    } else {
        assert((a + run(n, x)).drop_last() =~= a + run((n - 1) as nat, x));
        lemma_count_run(a, (n - 1) as nat, x, l);
    }
}

proof fn lemma_fixed_lit_counts(l: nat)
    ensures
        huffman::count_len(fixed_lit(), l) == if l == 7 {
            24nat
        } else if l == 8 {
            152
        } else if l == 9 {
            112
        } else {
            0
        },
{
    let e = Seq::<u8>::empty();
    let a = e + run(144, 8);
    let b = a + run(112, 9);
    let c = b + run(24, 7);
    let d = c + run(8, 8);
    assert(d =~= fixed_lit());
    lemma_count_run(e, 144, 8, l);
    lemma_count_run(a, 112, 9, l);
    lemma_count_run(b, 24, 7, l);
    lemma_count_run(c, 8, 8, l);
}

/// Both fixed codes are complete.
pub proof fn lemma_fixed_complete()
    ensures
        huffman::valid_lens(fixed_lit()),
        huffman::valid_lens(fixed_dist()),
        huffman::complete(fixed_lit()),
        huffman::complete(fixed_dist()),
{
    bits::lemma_p2_values();
    let f = fixed_lit();
    let d = fixed_dist();
    lemma_fixed_lit_counts(1);
    lemma_fixed_lit_counts(2);
    lemma_fixed_lit_counts(3);
    lemma_fixed_lit_counts(4);
    lemma_fixed_lit_counts(5);
    lemma_fixed_lit_counts(6);
    lemma_fixed_lit_counts(7);
    lemma_fixed_lit_counts(8);
    lemma_fixed_lit_counts(9);
    lemma_fixed_lit_counts(10);
    lemma_fixed_lit_counts(11);
    lemma_fixed_lit_counts(12);
    lemma_fixed_lit_counts(13);
    lemma_fixed_lit_counts(14);
    lemma_fixed_lit_counts(15);
    reveal_with_fuel(huffman::weight, 16);
    assert(huffman::weight(f, 7) == 24);
    assert(huffman::weight(f, 9) == 512);
    assert(huffman::weight(f, 15) == 32768);
    let e = Seq::<u8>::empty();
    assert(e + run(32, 5) =~= d);
    assert forall|l: nat| #[trigger] huffman::count_len(d, l) == if l == 5 {
        32nat
    } else {
        0
    } by {
        lemma_count_run(e, 32, 5, l);
    }
    assert(huffman::weight(d, 5) == 32);
    assert(huffman::weight(d, 15) == 32768);
}

} // verus!
