//! Writing a bit stream, least significant bit first: the mirror of
//! [`BitReader`](crate::deflate::bitreader::BitReader).
use vstd::prelude::*;

use crate::deflate::bits;

verus! {

/// A cursor that appends to a bit stream.
#[derive(Debug)]
pub struct BitWriter {
    out: Vec<u8>,
    /// The bits of the byte that is not full yet.
    acc: u64,
    /// How many bits `acc` holds: fewer than eight.
    n: u32,
}

/// How many bits lead from a position to the next byte boundary.
pub open spec fn padding(len: nat) -> nat {
    (8 - len % 8) as nat % 8
}

impl BitWriter {
    /// The bits written so far.
    pub closed spec fn view(&self) -> Seq<bool> {
        bits::bytes_bits(self.out@) + bits::nat_bits(self.acc as nat, self.n as nat)
    }

    pub closed spec fn wf(&self) -> bool {
        self.n < 8 && self.acc < bits::p2(self.n as nat)
    }

    #[must_use]
    pub fn with_capacity(cap: usize) -> (r: Self)
        ensures
            r.wf(),
            r@ == Seq::<bool>::empty(),
    {
        let w = BitWriter { out: Vec::with_capacity(cap), acc: 0, n: 0 };
        assert(w@ =~= Seq::<bool>::empty());
        w
    }

    /// Appends the `width` low bits (32 at most) of `value`.
    pub fn write_bits(&mut self, value: u32, width: u32)
        requires
            old(self).wf(),
            width <= 32,
        ensures
            final(self).wf(),
            final(self)@ == old(self)@ + bits::nat_bits(value as nat, width as nat),
    {
        if width == 0 {
            assert(self@ + bits::nat_bits(value as nat, 0) =~= self@);
            return;
        }
        let low: u64 = (value as u64) % bits::pow2_u64(width);
        let shift: u64 = bits::pow2_u64(self.n);
        let ghost full = self@ + bits::nat_bits(value as nat, width as nat);
        let ghost done = bits::bytes_bits(self.out@);
        proof {
            bits::lemma_nat_bits_mod(value as nat, width as nat);
            bits::lemma_nat_bits_concat(self.acc as nat, self.n as nat, low as nat, width as nat);
            bits::lemma_p2_add(self.n as nat, width as nat);
            bits::lemma_p2_mono((self.n + width) as nat, 40);
            bits::lemma_p2_large();
            assert(low + 1 <= bits::p2(width as nat));
            assert(shift * low + shift <= shift * bits::p2(width as nat)) by (nonlinear_arith)
                requires
                    low + 1 <= bits::p2(width as nat),
            ;
            assert(shift * low >= 0) by (nonlinear_arith);
            assert(full =~= done + (bits::nat_bits(self.acc as nat, self.n as nat)
                + bits::nat_bits(low as nat, width as nat)));
        }
        self.acc = self.acc + shift * low;
        self.n = self.n + width;
        while self.n >= 8
            invariant
                self.n <= 39,
                self.acc < bits::p2(self.n as nat),
                self@ == full,
            decreases self.n,
        {
            let b: u8 = (self.acc % 256) as u8;
            let ghost before = bits::bytes_bits(self.out@);
            let ghost acc = self.acc as nat;
            let ghost n = self.n as nat;
            proof {
                bits::lemma_nat_bits_cut(acc, n, 8);
                bits::lemma_p2_values();
                bits::lemma_nat_bits_mod(acc, 8);
                bits::lemma_bytes_bits_push(self.out@, b);
                bits::lemma_p2_add(8, (n - 8) as nat);
            }
            self.out.push(b);
            self.acc = self.acc / 256;
            self.n = self.n - 8;
            assert(self@ =~= before + (bits::nat_bits(acc, 8) + bits::nat_bits(
                acc / 256,
                (n - 8) as nat,
            )));
        }
    }

    /// How many bits were written; the largest number where that does not fit.
    #[must_use]
    pub fn bit_len(&self) -> (r: u64)
        requires
            self.wf(),
        ensures
            r == if self@.len() <= u64::MAX {
                self@.len()
            } else {
                u64::MAX as nat
            },
    {
        proof {
            bits::lemma_nat_bits_len(self.acc as nat, self.n as nat);
        }
        let len: u64 = self.out.len() as u64;
        if len > 0x1FFF_FFFF_FFFF_FFFF {
            return u64::MAX;
        }
        len * 8 + self.n as u64
    }

    /// Fills the current byte up with zeros.
    pub fn align_to_byte(&mut self)
        requires
            old(self).wf(),
        ensures
            final(self).wf(),
            final(self)@ == old(self)@ + bits::zeros(padding(old(self)@.len())),
            final(self)@.len() % 8 == 0,
    {
        proof {
            bits::lemma_nat_bits_len(self.acc as nat, self.n as nat);
        }
        if self.n > 0 {
            let b: u8 = (self.acc % 256) as u8;
            proof {
                let n = self.n as nat;
                let acc = self.acc as nat;
                bits::lemma_p2_mono(n, 8);
                bits::lemma_p2_values();
                bits::lemma_nat_bits_concat(acc, n, 0, (8 - n) as nat);
                bits::lemma_nat_bits_zero((8 - n) as nat);
                bits::lemma_bytes_bits_push(self.out@, b);
            }
            self.out.push(b);
            self.acc = 0;
            self.n = 0;
        }
        assert(self@ =~= old(self)@ + bits::zeros(padding(old(self)@.len())));
    }

    /// Fills the current byte up with zeros and appends whole bytes.
    pub fn write_bytes(&mut self, data: &[u8])
        requires
            old(self).wf(),
        ensures
            final(self).wf(),
            final(self)@ == old(self)@ + bits::zeros(padding(old(self)@.len()))
                + bits::bytes_bits(data@),
    {
        self.align_to_byte();
        proof {
            bits::lemma_nat_bits_len(self.acc as nat, self.n as nat);
            bits::lemma_bytes_bits_concat(self.out@, data@);
        }
        self.out.extend_from_slice(data);
        assert(self@ =~= old(self)@ + bits::zeros(padding(old(self)@.len())) + bits::bytes_bits(
            data@,
        ));
    }

    /// Closes the stream, the last byte filled up with zeros.
    #[must_use]
    pub fn finish(self) -> (r: Vec<u8>)
        requires
            self.wf(),
        ensures
            bits::bytes_bits(r@) == self@ + bits::zeros(padding(self@.len())),
    {
        let mut w = self;
        w.align_to_byte();
        proof {
            bits::lemma_nat_bits_len(w.acc as nat, w.n as nat);
            assert(w@ =~= bits::bytes_bits(w.out@));
        }
        w.out
    }
}

} // verus!
