//! A bounds-checked cursor over a byte buffer.
use vstd::prelude::*;
use vstd::slice::slice_subrange;

use crate::bytes::le;
use crate::bytes::Span;

verus! {

/// A cursor over `&[u8]` whose every operation checks the bounds.
///
/// Methods return `Option`: which layer's error a truncated buffer is, the
/// layer decides. Numbers are little-endian.
#[derive(Debug, Clone)]
pub struct Reader<'a> {
    src: &'a [u8],
    pos: usize,
}

impl<'a> Reader<'a> {
    /// The buffer under the cursor.
    pub closed spec fn data(&self) -> Seq<u8> {
        self.src@
    }

    /// Where the cursor stands.
    pub closed spec fn cursor(&self) -> nat {
        self.pos as nat
    }

    /// The cursor stands inside the buffer or at its end.
    pub open spec fn wf(&self) -> bool {
        self.cursor() <= self.data().len()
    }

    /// Whether `n` more bytes can be read.
    pub open spec fn holds(&self, n: nat) -> bool {
        self.cursor() + n <= self.data().len()
    }

    /// The next `n` bytes.
    pub open spec fn ahead(&self, n: nat) -> Seq<u8> {
        self.data().subrange(self.cursor() as int, (self.cursor() + n) as int)
    }

    /// `next` is this cursor moved by `n` bytes over the same buffer.
    pub open spec fn moved(&self, next: &Self, n: nat) -> bool {
        next.wf() && next.data() == self.data() && next.cursor() == self.cursor() + n
    }

    #[must_use]
    pub fn new(src: &'a [u8]) -> (r: Self)
        ensures
            r.wf(),
            r.data() == src@,
            r.cursor() == 0,
    {
        Reader { src, pos: 0 }
    }

    /// A cursor at `pos`; `None` when that is past the end.
    #[must_use]
    pub fn at(src: &'a [u8], pos: usize) -> (r: Option<Self>)
        ensures
            r is Some <==> pos <= src@.len(),
            r matches Some(c) ==> c.wf() && c.data() == src@ && c.cursor() == pos,
    {
        if pos > src.len() {
            return None;
        }
        Some(Reader { src, pos })
    }

    #[must_use]
    pub fn pos(&self) -> (r: usize)
        ensures
            r == self.cursor(),
    {
        self.pos
    }

    #[must_use]
    pub fn src(&self) -> (r: &'a [u8])
        ensures
            r@ == self.data(),
    {
        self.src
    }

    /// How many bytes are left.
    #[must_use]
    pub fn remaining(&self) -> (r: usize)
        requires
            self.wf(),
        ensures
            r == self.data().len() - self.cursor(),
    {
        self.src.len() - self.pos
    }

    #[must_use]
    pub fn is_eof(&self) -> (r: bool)
        requires
            self.wf(),
        ensures
            r == (self.cursor() == self.data().len()),
    {
        self.pos >= self.src.len()
    }

    /// Moves the cursor to `pos`; `None` when that is past the end.
    pub fn seek(&mut self, pos: usize) -> (r: Option<()>)
        requires
            old(self).wf(),
        ensures
            final(self).wf(),
            final(self).data() == old(self).data(),
            r is Some <==> pos <= old(self).data().len(),
            final(self).cursor() == if r is Some { pos as nat } else { old(self).cursor() },
    {
        if pos > self.src.len() {
            return None;
        }
        self.pos = pos;
        Some(())
    }

    /// Moves the cursor forward by `n`; `None` when that is past the end.
    pub fn skip(&mut self, n: usize) -> (r: Option<()>)
        requires
            old(self).wf(),
        ensures
            r is Some <==> old(self).holds(n as nat),
            old(self).moved(final(self), if r is Some { n as nat } else { 0 }),
    {
        if n > self.src.len() - self.pos {
            return None;
        }
        self.seek(self.pos + n)
    }

    /// Reads `n` bytes.
    pub fn take(&mut self, n: usize) -> (r: Option<&'a [u8]>)
        requires
            old(self).wf(),
        ensures
            r is Some <==> old(self).holds(n as nat),
            r matches Some(b) ==> b@ == old(self).ahead(n as nat),
            old(self).moved(final(self), if r is Some { n as nat } else { 0 }),
    {
        if n > self.src.len() - self.pos {
            return None;
        }
        let end: usize = self.pos + n;
        let out = slice_subrange(self.src, self.pos, end);
        self.pos = end;
        Some(out)
    }

    /// Reads `n` bytes as a span; `None` also when the end of the range does
    /// not fit into `u32`.
    pub fn take_span(&mut self, n: usize) -> (r: Option<Span>)
        requires
            old(self).wf(),
        ensures
            r is Some <==> old(self).holds(n as nat) && old(self).cursor() + n <= u32::MAX,
            r matches Some(s) ==> s.lo() == old(self).cursor() && s.hi() == old(self).cursor() + n,
            old(self).moved(final(self), if r is Some { n as nat } else { 0 }),
    {
        if n > self.src.len() - self.pos {
            return None;
        }
        let end: usize = self.pos + n;
        if end > 0xFFFF_FFFF {
            return None;
        }
        let start: u32 = self.pos as u32;
        self.pos = end;
        Span::new(start, end as u32)
    }

    /// Looks at `n` bytes without moving.
    #[must_use]
    pub fn peek(&self, n: usize) -> (r: Option<&'a [u8]>)
        requires
            self.wf(),
        ensures
            r is Some <==> self.holds(n as nat),
            r matches Some(b) ==> b@ == self.ahead(n as nat),
    {
        if n > self.src.len() - self.pos {
            return None;
        }
        let end: usize = self.pos + n;
        Some(slice_subrange(self.src, self.pos, end))
    }

    /// Looks at the byte `off` places ahead without moving.
    #[must_use]
    pub fn peek_at(&self, off: usize) -> (r: Option<u8>)
        requires
            self.wf(),
        ensures
            r is Some <==> self.holds((off + 1) as nat),
            r matches Some(b) ==> b == self.data()[self.cursor() + off],
    {
        if off >= self.src.len() - self.pos {
            return None;
        }
        Some(self.src[self.pos + off])
    }

    pub fn u8(&mut self) -> (r: Option<u8>)
        requires
            old(self).wf(),
        ensures
            r is Some <==> old(self).holds(1),
            r matches Some(b) ==> b == old(self).data()[old(self).cursor() as int],
            old(self).moved(final(self), if r is Some { 1 } else { 0 }),
    {
        if self.pos >= self.src.len() {
            return None;
        }
        let b: u8 = self.src[self.pos];
        self.pos = self.pos + 1;
        Some(b)
    }

    pub fn le_u16(&mut self) -> (r: Option<u16>)
        requires
            old(self).wf(),
        ensures
            r is Some <==> old(self).holds(2),
            r matches Some(v) ==> v == le::le_value(old(self).ahead(2)),
            old(self).moved(final(self), if r is Some { 2 } else { 0 }),
    {
        match self.take(2) {
            None => None,
            Some(b) => {
                proof {
                    le::lemma_le_value_2(b@);
                }
                Some(b[0] as u16 + 256 * b[1] as u16)
            },
        }
    }

    pub fn le_u32(&mut self) -> (r: Option<u32>)
        requires
            old(self).wf(),
        ensures
            r is Some <==> old(self).holds(4),
            r matches Some(v) ==> v == le::le_value(old(self).ahead(4)),
            old(self).moved(final(self), if r is Some { 4 } else { 0 }),
    {
        match self.take(4) {
            None => None,
            Some(b) => {
                proof {
                    le::lemma_le_value_4(b@);
                }
                Some(b[0] as u32 + 256 * b[1] as u32 + 65536 * b[2] as u32 + 16777216 * b[3] as u32)
            },
        }
    }

    pub fn le_u64(&mut self) -> (r: Option<u64>)
        requires
            old(self).wf(),
        ensures
            r is Some <==> old(self).holds(8),
            r matches Some(v) ==> v == le::le_value(old(self).ahead(8)),
            old(self).moved(final(self), if r is Some { 8 } else { 0 }),
    {
        match self.take(8) {
            None => None,
            Some(b) => {
                let lo: u64 = b[0] as u64 + 256 * b[1] as u64 + 65536 * b[2] as u64 + 16777216
                    * b[3] as u64;
                let hi: u64 = b[4] as u64 + 256 * b[5] as u64 + 65536 * b[6] as u64 + 16777216
                    * b[7] as u64;
                proof {
                    le::lemma_le_value_8(b@);
                    le::lemma_le_value_4(b@.subrange(0, 4));
                    le::lemma_le_value_4(b@.subrange(4, 8));
                }
                Some(lo + 4294967296 * hi)
            },
        }
    }

    /// Reads a signature of 4 bytes; the cursor moves only when it matches, so
    /// several signatures can be tried in a row.
    pub fn expect_sig(&mut self, sig: u32) -> (r: Option<()>)
        requires
            old(self).wf(),
        ensures
            r is Some <==> old(self).holds(4) && le::le_value(old(self).ahead(4)) == sig,
            old(self).moved(final(self), if r is Some { 4 } else { 0 }),
    {
        let saved: usize = self.pos;
        match self.le_u32() {
            Some(v) => {
                if v == sig {
                    Some(())
                } else {
                    self.pos = saved;
                    None
                }
            },
            None => None,
        }
    }

    /// Whether `needle` stands at `i`, inside the last `window` bytes of `src`.
    pub open spec fn found_in_tail(src: Seq<u8>, needle: Seq<u8>, window: nat, i: int) -> bool {
        &&& 0 <= i
        &&& src.len() - window <= i
        &&& i + needle.len() <= src.len()
        &&& src.subrange(i, i + needle.len()) == needle
    }

    /// Finds the last occurrence of `needle` in the last `window` bytes.
    #[must_use]
    pub fn rfind_in_tail(src: &[u8], needle: &[u8], window: usize) -> (r: Option<usize>)
        requires
            needle@.len() > 0,
        ensures
            r matches Some(i) ==> Self::found_in_tail(src@, needle@, window as nat, i as int)
                && forall|j: int| #[trigger]
                Self::found_in_tail(src@, needle@, window as nat, j) ==> j <= i,
            r is None ==> forall|j: int| !#[trigger]
                Self::found_in_tail(src@, needle@, window as nat, j),
    {
        let from: usize = src.len().saturating_sub(window);
        if needle.len() > src.len() - from {
            return None;
        }
        let mut i: usize = src.len() - needle.len() + 1;
        while i > from
            invariant
                from == (if src@.len() >= window { src@.len() - window } else { 0 }),
                needle@.len() > 0,
                from <= i,
                i + needle.len() <= src.len() + 1,
                forall|j: int| #[trigger]
                    Self::found_in_tail(src@, needle@, window as nat, j) ==> j < i,
            decreases i,
        {
            i = i - 1;
            let mut k: usize = 0;
            while k < needle.len() && src[i + k] == needle[k]
                invariant
                    k <= needle@.len(),
                    i + needle.len() <= src.len(),
                    forall|m: int| 0 <= m < k ==> src@[i + m] == needle@[m],
                decreases needle@.len() - k,
            {
                k = k + 1;
            }
            if k == needle.len() {
                assert(src@.subrange(i as int, i + needle@.len()) =~= needle@);
                assert(Self::found_in_tail(src@, needle@, window as nat, i as int));
                return Some(i);
            }
            proof {
                if Self::found_in_tail(src@, needle@, window as nat, i as int) {
                    assert(src@.subrange(i as int, i + needle@.len())[k as int] == src@[i + k]);
                }
            }
        }
        None
    }
}

} // verus!
