//! An output buffer with fields that are filled in later.
use vstd::prelude::*;

use crate::bytes::le;
use crate::error::{Error, ZipError};

verus! {

/// A reserved place in a [`Writer`], to be filled in later.
#[derive(Debug, Clone, Copy, PartialEq, Eq, Structural)]
pub struct Patch {
    at: usize,
    len: usize,
}

impl Patch {
    /// Offset of the reserved place.
    pub closed spec fn place(self) -> nat {
        self.at as nat
    }

    /// Number of reserved bytes.
    pub closed spec fn width(self) -> nat {
        self.len as nat
    }
}

/// A growing output buffer.
#[derive(Debug)]
pub struct Writer {
    buf: Vec<u8>,
}

/// `s` with `b` written over it from `at` on.
pub open spec fn overwritten(s: Seq<u8>, at: nat, b: Seq<u8>) -> Seq<u8> {
    s.subrange(0, at as int) + b + s.subrange((at + b.len()) as int, s.len() as int)
}

/// The error for a patch that does not fit where it is applied.
pub open spec fn bad_patch(p: Patch) -> Error {
    Error::Zip { kind: ZipError::OffsetOverflow, offset: p.place() as u64 }
}

impl Writer {
    /// The bytes written so far.
    pub closed spec fn view(&self) -> Seq<u8> {
        self.buf@
    }

    #[must_use]
    pub fn new() -> (r: Self)
        ensures
            r@ == Seq::<u8>::empty(),
    {
        Writer { buf: Vec::new() }
    }

    #[must_use]
    pub fn with_capacity(cap: usize) -> (r: Self)
        ensures
            r@ == Seq::<u8>::empty(),
    {
        Writer { buf: Vec::with_capacity(cap) }
    }

    /// Length of the output, which is the offset of the next byte.
    #[must_use]
    pub fn len(&self) -> (r: usize)
        ensures
            r == self@.len(),
    {
        self.buf.len()
    }

    #[must_use]
    pub fn is_empty(&self) -> (r: bool)
        ensures
            r == (self@.len() == 0),
    {
        self.buf.is_empty()
    }

    /// The offset of the next byte as `u64`, for fields of ZIP headers.
    #[must_use]
    pub fn offset(&self) -> (r: u64)
        ensures
            r == self@.len(),
    {
        self.buf.len() as u64
    }

    pub fn bytes(&mut self, b: &[u8])
        ensures
            final(self)@ == old(self)@ + b@,
    {
        self.buf.extend_from_slice(b);
    }

    pub fn u8(&mut self, v: u8)
        ensures
            final(self)@ == old(self)@.push(v),
    {
        self.buf.push(v);
    }

    pub fn le_u16(&mut self, v: u16)
        ensures
            final(self)@ == old(self)@ + le::le_bytes(v as nat, 2),
    {
        proof {
            le::lemma_le_bytes_2(v as nat);
        }
        self.buf.push((v % 256) as u8);
        self.buf.push((v / 256 % 256) as u8);
        assert(self@ =~= old(self)@ + le::le_bytes(v as nat, 2));
    }

    pub fn le_u32(&mut self, v: u32)
        ensures
            final(self)@ == old(self)@ + le::le_bytes(v as nat, 4),
    {
        proof {
            le::lemma_le_bytes_4(v as nat);
        }
        self.buf.push((v % 256) as u8);
        self.buf.push((v / 256 % 256) as u8);
        self.buf.push((v / 65536 % 256) as u8);
        self.buf.push((v / 16777216 % 256) as u8);
        assert(self@ =~= old(self)@ + le::le_bytes(v as nat, 4));
    }

    pub fn le_u64(&mut self, v: u64)
        ensures
            final(self)@ == old(self)@ + le::le_bytes(v as nat, 8),
    {
        let w: u64 = v / 4294967296;
        proof {
            le::lemma_le_bytes_8(v as nat);
            le::lemma_le_bytes_4(v as nat);
            le::lemma_le_bytes_4(w as nat);
        }
        self.buf.push((v % 256) as u8);
        self.buf.push((v / 256 % 256) as u8);
        self.buf.push((v / 65536 % 256) as u8);
        self.buf.push((v / 16777216 % 256) as u8);
        self.buf.push((w % 256) as u8);
        self.buf.push((w / 256 % 256) as u8);
        self.buf.push((w / 65536 % 256) as u8);
        self.buf.push((w / 16777216 % 256) as u8);
        assert(self@ =~= old(self)@ + le::le_bytes(v as nat, 8));
    }

    /// Reserves 4 bytes for a value that becomes known later.
    pub fn reserve_u32(&mut self) -> (r: Patch)
        ensures
            final(self)@ == old(self)@ + seq![0u8, 0, 0, 0],
            r.place() == old(self)@.len(),
            r.width() == 4,
    {
        let at: usize = self.buf.len();
        self.buf.push(0);
        self.buf.push(0);
        self.buf.push(0);
        self.buf.push(0);
        assert(self@ =~= old(self)@ + seq![0u8, 0, 0, 0]);
        Patch { at, len: 4 }
    }

    /// Reserves 8 bytes for a value that becomes known later.
    pub fn reserve_u64(&mut self) -> (r: Patch)
        ensures
            final(self)@ == old(self)@ + seq![0u8, 0, 0, 0, 0, 0, 0, 0],
            r.place() == old(self)@.len(),
            r.width() == 8,
    {
        let at: usize = self.buf.len();
        self.buf.push(0);
        self.buf.push(0);
        self.buf.push(0);
        self.buf.push(0);
        self.buf.push(0);
        self.buf.push(0);
        self.buf.push(0);
        self.buf.push(0);
        assert(self@ =~= old(self)@ + seq![0u8, 0, 0, 0, 0, 0, 0, 0]);
        Patch { at, len: 8 }
    }

    /// Writes `b` over the bytes from `at` on, where they exist.
    fn overwrite(&mut self, at: usize, b: &[u8]) -> (r: bool)
        ensures
            r == (at + b@.len() <= old(self)@.len()),
            final(self)@ == if r { overwritten(old(self)@, at as nat, b@) } else { old(self)@ },
    {
        if at > self.buf.len() || b.len() > self.buf.len() - at {
            return false;
        }
        let mut i: usize = 0;
        let ghost before = self.buf@;
        while i < b.len()
            invariant
                i <= b@.len(),
                at + b@.len() <= before.len(),
                self.buf.len() == before.len(),
                forall|j: int|
                    0 <= j < before.len() ==> self.buf@[j] == (if at <= j < at + i {
                        b@[j - at]
                    } else {
                        before[j]
                    }),
            decreases b@.len() - i,
        {
            self.buf[at + i] = b[i];
            i = i + 1;
        }
        assert(self@ =~= overwritten(before, at as nat, b@));
        true
    }

    /// Fills in a place of 4 bytes. An error, not a panic, when the patch has
    /// another width or points past the end of this buffer.
    pub fn patch_u32(&mut self, p: Patch, v: u32) -> (r: Result<(), Error>)
        ensures
            r == if p.width() == 4 && p.place() + 4 <= old(self)@.len() {
                Ok::<(), Error>(())
            } else {
                Err(bad_patch(p))
            },
            final(self)@ == if r is Ok {
                overwritten(old(self)@, p.place(), le::le_bytes(v as nat, 4))
            } else {
                old(self)@
            },
    {
        if p.len != 4 {
            return Err(Error::Zip { kind: ZipError::OffsetOverflow, offset: p.at as u64 });
        }
        let mut w = Writer::new();
        w.le_u32(v);
        assert(w@ =~= le::le_bytes(v as nat, 4));
        proof {
            le::lemma_le_bytes_4(v as nat);
        }
        if self.overwrite(p.at, w.as_slice()) {
            Ok(())
        } else {
            Err(Error::Zip { kind: ZipError::OffsetOverflow, offset: p.at as u64 })
        }
    }

    /// Fills in a place of 8 bytes.
    pub fn patch_u64(&mut self, p: Patch, v: u64) -> (r: Result<(), Error>)
        ensures
            r == if p.width() == 8 && p.place() + 8 <= old(self)@.len() {
                Ok::<(), Error>(())
            } else {
                Err(bad_patch(p))
            },
            final(self)@ == if r is Ok {
                overwritten(old(self)@, p.place(), le::le_bytes(v as nat, 8))
            } else {
                old(self)@
            },
    {
        if p.len != 8 {
            return Err(Error::Zip { kind: ZipError::OffsetOverflow, offset: p.at as u64 });
        }
        let mut w = Writer::new();
        w.le_u64(v);
        assert(w@ =~= le::le_bytes(v as nat, 8));
        proof {
            le::lemma_le_bytes_8(v as nat);
            le::lemma_le_bytes_4(v as nat);
            le::lemma_le_bytes_4((v as nat) / 4294967296);
        }
        if self.overwrite(p.at, w.as_slice()) {
            Ok(())
        } else {
            Err(Error::Zip { kind: ZipError::OffsetOverflow, offset: p.at as u64 })
        }
    }

    #[must_use]
    pub fn as_slice(&self) -> (r: &[u8])
        ensures
            r@ == self@,
    {
        self.buf.as_slice()
    }

    #[must_use]
    pub fn finish(self) -> (r: Vec<u8>)
        ensures
            r@ == self@,
    {
        self.buf
    }
}

impl Default for Writer {
    fn default() -> (r: Self)
        ensures
            r@ == Seq::<u8>::empty(),
    {
        Writer::new()
    }
}

} // verus!
