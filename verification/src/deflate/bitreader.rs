//! Reading a bit stream, least significant bit first.
//!
//! Bits lie in a byte from the least significant one up, while a Huffman code
//! is written from its most significant bit. The reader hands bits out in the
//! order of the stream; turning codes round is the table builder's business.
//!
//! After a refill the 64-bit accumulator holds at least 57 bits, or all that
//! is left.
use vstd::prelude::*;
use vstd::slice::slice_subrange;

use crate::deflate::bits;

verus! {

/// A bounds-checked cursor over a bit stream.
#[derive(Debug)]
pub struct BitReader<'a> {
    src: &'a [u8],
    /// The byte that the next refill takes.
    next: usize,
    /// The bits that were taken in but not read.
    buf: u64,
    /// How many bits `buf` holds.
    count: u32,
}

impl<'a> BitReader<'a> {
    /// The bytes under the cursor.
    pub closed spec fn source(&self) -> Seq<u8> {
        self.src@
    }

    /// The position in bits from the start of the input.
    pub closed spec fn pos(&self) -> nat {
        (8 * self.next - self.count) as nat
    }

    /// The whole stream.
    pub open spec fn stream(&self) -> Seq<bool> {
        bits::bytes_bits(self.source())
    }

    /// The bits that are left.
    pub open spec fn rest(&self) -> Seq<bool> {
        self.stream().skip(self.pos() as int)
    }

    /// The next `n` bits, or as many as are left.
    pub open spec fn look(&self, n: nat) -> Seq<bool> {
        if n <= self.rest().len() {
            self.rest().take(n as int)
        } else {
            self.rest()
        }
    }

    pub closed spec fn wf(&self) -> bool {
        &&& self.next <= self.src@.len()
        &&& self.count <= 64
        &&& self.count <= 8 * self.next
        &&& self.buf == bits::bits_nat(
            self.stream().subrange(8 * self.next - self.count, 8 * self.next as int),
        )
    }

    /// `next` reads the same stream, `n` bits further on.
    pub open spec fn moved(&self, next: &Self, n: nat) -> bool {
        next.wf() && next.source() == self.source() && next.pos() == self.pos() + n
    }

    /// The position of a cursor is inside the stream.
    pub proof fn lemma_pos_bound(&self)
        requires
            self.wf(),
        ensures
            self.pos() <= self.stream().len(),
            self.stream().len() == 8 * self.source().len(),
    {
    }

    #[must_use]
    pub fn new(src: &'a [u8]) -> (r: Self)
        ensures
            r.wf(),
            r.source() == src@,
            r.pos() == 0,
    {
        BitReader { src, next: 0, buf: 0, count: 0 }
    }

    /// Takes bytes in while there is room for them.
    fn refill(&mut self)
        requires
            old(self).wf(),
        ensures
            old(self).moved(final(self), 0),
            final(self).count >= 57 || final(self).next == final(self).src@.len(),
    {
        while self.count <= 56 && self.next < self.src.len()
            invariant
                old(self).moved(self, 0),
            decreases self.src@.len() - self.next,
        {
            let b: u8 = self.src[self.next];
            let step: u64 = bits::pow2_u64(self.count);
            proof {
                let s = self.stream().subrange(8 * self.next - self.count, 8 * self.next as int);
                let t = bits::byte_bits(b);
                bits::lemma_bytes_bits_sub(self.src@, self.next as nat, (self.next + 1) as nat);
                assert(self.src@.subrange(self.next as int, self.next + 1) =~= seq![b]);
                bits::lemma_bytes_bits_one(b);
                bits::lemma_byte_bits_len(b);
                assert(self.stream().subrange(8 * self.next - self.count, 8 * (self.next + 1))
                    =~= s + t);
                bits::lemma_bits_nat_concat(s, t);
                bits::lemma_bits_nat_bound(s);
                bits::lemma_bits_nat_bound(s + t);
                bits::lemma_p2_mono((self.count + 8) as nat, 64);
                bits::lemma_p2_large();
                assert(step * b == b * step) by (nonlinear_arith);
                assert(self.buf + step * b < p2_max());
                assert(step * b >= 0) by (nonlinear_arith);
            }
            self.buf = self.buf + step * (b as u64);
            self.count = self.count + 8;
            self.next = self.next + 1;
        }
    }

    /// Looks at `n` bits (32 at most), with zeros past the end of the stream.
    ///
    /// The zeros are harmless: reading too much is caught by [`Self::consume`],
    /// and a Huffman decoder has to see the bits before it knows the length.
    pub fn peek(&mut self, n: u32) -> (r: u32)
        requires
            old(self).wf(),
            n <= 32,
        ensures
            old(self).moved(final(self), 0),
            r == bits::bits_nat(old(self).look(n as nat)),
    {
        self.refill();
        let p: u64 = bits::pow2_u64(n);
        proof {
            let s = self.stream().subrange(8 * self.next - self.count, 8 * self.next as int);
            bits::lemma_p2_mono(n as nat, 32);
            bits::lemma_p2_large();
            if n <= self.count {
                bits::lemma_bits_nat_cut(s, n as nat);
                assert(s.take(n as int) =~= self.look(n as nat));
            } else {
                bits::lemma_bits_nat_bound(s);
                bits::lemma_p2_mono(self.count as nat, n as nat);
                assert(s =~= self.look(n as nat));
                assert(self.buf % p == self.buf) by (nonlinear_arith)
                    requires
                        self.buf < p,
                ;
            }
            assert(self.rest() == old(self).rest());
        }
        (self.buf % p) as u32
    }

    /// Drops `n` bits (32 at most); `None` when fewer are left.
    pub fn consume(&mut self, n: u32) -> (r: Option<()>)
        requires
            old(self).wf(),
            n <= 32,
        ensures
            r is Some <==> n <= old(self).rest().len(),
            old(self).moved(final(self), if r is Some { n as nat } else { 0 }),
    {
        self.refill();
        if n > self.count {
            return None;
        }
        let p: u64 = bits::pow2_u64(n);
        proof {
            let s = self.stream().subrange(8 * self.next - self.count, 8 * self.next as int);
            bits::lemma_bits_nat_cut(s, n as nat);
            assert(s.skip(n as int) =~= self.stream().subrange(
                8 * self.next - self.count + n,
                8 * self.next as int,
            ));
        }
        self.buf = self.buf / p;
        self.count = self.count - n;
        Some(())
    }

    /// Reads `n` bits (32 at most); `None` when fewer are left.
    pub fn bits(&mut self, n: u32) -> (r: Option<u32>)
        requires
            old(self).wf(),
            n <= 32,
        ensures
            r is Some <==> n <= old(self).rest().len(),
            r matches Some(v) ==> v == bits::bits_nat(old(self).rest().take(n as int)),
            old(self).moved(final(self), if r is Some { n as nat } else { 0 }),
    {
        let v: u32 = self.peek(n);
        match self.consume(n) {
            None => None,
            Some(_) => Some(v),
        }
    }

    /// The position in bits; the largest number where it does not fit.
    #[must_use]
    pub fn bit_pos(&self) -> (r: u64)
        requires
            self.wf(),
        ensures
            r == if self.pos() <= u64::MAX {
                self.pos()
            } else {
                u64::MAX as nat
            },
    {
        let pos: u128 = self.next as u128 * 8 - self.count as u128;
        if pos > 0xFFFF_FFFF_FFFF_FFFF {
            u64::MAX
        } else {
            pos as u64
        }
    }

    /// The byte that the position lies in.
    #[must_use]
    pub fn byte_pos(&self) -> (r: usize)
        requires
            self.wf(),
        ensures
            r == self.pos() / 8,
    {
        self.next - ((self.count + 7) / 8) as usize
    }

    /// The number of input bytes that were read, a started byte counted whole.
    #[must_use]
    pub fn bytes_consumed(&self) -> (r: usize)
        requires
            self.wf(),
        ensures
            r == (self.pos() + 7) / 8,
    {
        self.next - (self.count / 8) as usize
    }

    /// Moves to the next byte boundary.
    pub fn align_to_byte(&mut self)
        requires
            old(self).wf(),
        ensures
            final(self).wf(),
            final(self).source() == old(self).source(),
            final(self).pos() == 8 * ((old(self).pos() + 7) / 8),
    {
        let extra: u32 = self.count % 8;
        let p: u64 = bits::pow2_u64(extra);
        proof {
            let s = self.stream().subrange(8 * self.next - self.count, 8 * self.next as int);
            bits::lemma_bits_nat_cut(s, extra as nat);
            assert(s.skip(extra as int) =~= self.stream().subrange(
                8 * self.next - self.count + extra,
                8 * self.next as int,
            ));
        }
        self.buf = self.buf / p;
        self.count = self.count - extra;
    }

    /// Moves to the next byte boundary and reads `n` bytes; `None` when fewer
    /// are left.
    pub fn take_bytes(&mut self, n: usize) -> (r: Option<&'a [u8]>)
        requires
            old(self).wf(),
        ensures
            final(self).wf(),
            final(self).source() == old(self).source(),
            ({
                let start = (old(self).pos() + 7) / 8;
                &&& r is Some <==> start + n <= old(self).source().len()
                &&& r matches Some(b) ==> b@ == old(self).source().subrange(
                    start as int,
                    start + n as int,
                )
                &&& final(self).pos() == 8 * (start + if r is Some { n as nat } else { 0 })
            }),
    {
        self.align_to_byte();
        let start: usize = self.next - (self.count / 8) as usize;
        if n > self.src.len() - start {
            return None;
        }
        let end: usize = start + n;
        let out = slice_subrange(self.src, start, end);
        self.buf = 0;
        self.count = 0;
        self.next = end;
        assert(self.stream().subrange(8 * self.next as int, 8 * self.next as int) =~= Seq::<
            bool,
        >::empty());
        Some(out)
    }
}

spec fn p2_max() -> nat {
    18446744073709551616
}

} // verus!
