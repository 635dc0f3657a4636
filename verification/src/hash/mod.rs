//! Checksums.
//!
//! ZIP asks for the CRC-32/ISO-HDLC of every entry. Folding bit by bit takes
//! eight steps per byte; eight tables take eight bytes in one step.
use vstd::prelude::*;

pub mod laws;

verus! {

/// The generator polynomial of CRC-32/ISO-HDLC, reflected.
const POLY: u32 = 0xEDB8_8320;

/// One bit of the register is folded.
pub open spec fn crc_bit(c: u32) -> u32 {
    if c & 1 != 0 {
        (c >> 1) ^ 0xEDB8_8320u32
    } else {
        c >> 1
    }
}

/// `n` bits of the register are folded.
pub open spec fn crc_bits(c: u32, n: nat) -> u32
    decreases n,
{
    if n == 0 {
        c
    } else {
        crc_bits(crc_bit(c), (n - 1) as nat)
    }
}

/// The register after one byte of data.
pub open spec fn crc_byte(c: u32, b: u8) -> u32 {
    crc_bits(c ^ (b as u32), 8)
}

/// The register after all of `s`.
pub open spec fn crc_feed(c: u32, s: Seq<u8>) -> u32
    decreases s.len(),
{
    if s.len() == 0 {
        c
    } else {
        crc_byte(crc_feed(c, s.drop_last()), s.last())
    }
}

/// The CRC-32/ISO-HDLC of `s`, bit by bit.
pub open spec fn crc32_of(s: Seq<u8>) -> u32 {
    crc_feed(0xFFFF_FFFF, s) ^ 0xFFFF_FFFFu32
}

proof fn lemma_bit_linear(a: u32, b: u32)
    by (bit_vector)
    ensures
        crc_bit(a ^ b) == crc_bit(a) ^ crc_bit(b),
{
}

/// Folding is linear over exclusive or.
proof fn lemma_linear(a: u32, b: u32, n: nat)
    ensures
        crc_bits(a ^ b, n) == crc_bits(a, n) ^ crc_bits(b, n),
    decreases n,
{
    if n > 0 {
        lemma_bit_linear(a, b);
        lemma_linear(crc_bit(a), crc_bit(b), (n - 1) as nat);
    }
}

proof fn lemma_compose(a: u32, m: nat, n: nat)
    ensures
        crc_bits(crc_bits(a, m), n) == crc_bits(a, m + n),
    decreases m,
{
    if m > 0 {
        lemma_compose(crc_bit(a), (m - 1) as nat, n);
    }
}

proof fn lemma_low_zero(x: u32, j: u32)
    by (bit_vector)
    requires
        j < 8,
        x & 0xFF == 0,
    ensures
        (x >> j) & 1 == 0,
        (x >> j) >> 1 == x >> ((j + 1) as u32),
        x >> 0u32 == x,
{
}

/// Eight steps over a register whose low byte is clear only shift it.
proof fn lemma_shift(x: u32)
    requires
        x & 0xFF == 0,
    ensures
        crc_bits(x, 8) == x >> 8u32,
{
    reveal_with_fuel(crc_bits, 9);
    lemma_low_zero(x, 0);
    lemma_low_zero(x, 1);
    lemma_low_zero(x, 2);
    lemma_low_zero(x, 3);
    lemma_low_zero(x, 4);
    lemma_low_zero(x, 5);
    lemma_low_zero(x, 6);
    lemma_low_zero(x, 7);
}

proof fn lemma_split(x: u32)
    by (bit_vector)
    ensures
        x == (x & 0xFF) ^ (x & 0xFFFF_FF00),
        (x & 0xFFFF_FF00) & 0xFF == 0,
        (x & 0xFFFF_FF00) >> 8u32 == x >> 8u32,
        (x & 0xFF) < 256,
{
}

/// Eight steps through a table of single bytes.
proof fn lemma_table_step(x: u32)
    ensures
        crc_bits(x, 8) == crc_bits(x & 0xFF, 8) ^ (x >> 8u32),
{
    lemma_split(x);
    lemma_linear(x & 0xFF, x & 0xFFFF_FF00, 8);
    lemma_shift(x & 0xFFFF_FF00);
}

proof fn lemma_shl8(y: u32)
    by (bit_vector)
    requires
        y < 0x100_0000,
    ensures
        (y << 8u32) & 0xFF == 0,
        (y << 8u32) >> 8u32 == y,
{
}

proof fn lemma_fold_shifted(y: u32, n: nat)
    requires
        y < 0x100_0000,
        n >= 8,
    ensures
        crc_bits(y << 8u32, n) == crc_bits(y, (n - 8) as nat),
{
    lemma_shl8(y);
    lemma_shift(y << 8u32);
    lemma_compose(y << 8u32, 8, (n - 8) as nat);
}

proof fn lemma_xor3(a: u32, b: u32, c: u32)
    by (bit_vector)
    ensures
        (a ^ b) ^ c == a ^ (b ^ c),
        a ^ b == b ^ a,
{
}

/// The word of four bytes, least significant first.
pub open spec fn word(b0: u8, b1: u8, b2: u8, b3: u8) -> u32 {
    (b0 as u32) | ((b1 as u32) << 8u32) | ((b2 as u32) << 16u32) | ((b3 as u32) << 24u32)
}

proof fn lemma_word(c: u32, b0: u8, b1: u8, b2: u8, b3: u8)
    by (bit_vector)
    ensures
        c ^ word(b0, b1, b2, b3) == (((c ^ (b0 as u32)) ^ ((b1 as u32) << 8u32)) ^ ((b2 as u32)
            << 16u32)) ^ ((b3 as u32) << 24u32),
        (b2 as u32) << 16u32 == ((b2 as u32) << 8u32) << 8u32,
        (b3 as u32) << 24u32 == (((b3 as u32) << 8u32) << 8u32) << 8u32,
        (b1 as u32) < 0x100_0000,
        (b2 as u32) << 8u32 < 0x100_0000,
        ((b3 as u32) << 8u32) << 8u32 < 0x100_0000,
        (b3 as u32) << 8u32 < 0x100_0000,
        (b2 as u32) < 0x100_0000,
        (b3 as u32) < 0x100_0000,
{
}

/// Four bytes taken one by one are the word taken at once.
proof fn lemma_four(c: u32, b0: u8, b1: u8, b2: u8, b3: u8)
    ensures
        crc_byte(crc_byte(crc_byte(crc_byte(c, b0), b1), b2), b3) == crc_bits(
            c ^ word(b0, b1, b2, b3),
            32,
        ),
{
    lemma_word(c, b0, b1, b2, b3);
    let x0 = c ^ (b0 as u32);
    let y1 = (b1 as u32) << 8u32;
    let y2 = (b2 as u32) << 16u32;
    let y3 = (b3 as u32) << 24u32;
    let x1 = x0 ^ y1;
    let x2 = x1 ^ y2;
    let x3 = x2 ^ y3;
    // one byte
    lemma_linear(x0, y1, 8);
    lemma_fold_shifted(b1 as u32, 8);
    assert(crc_byte(c, b0) ^ (b1 as u32) == crc_bits(x1, 8));
    // two bytes
    lemma_compose(x1, 8, 8);
    lemma_linear(x1, y2, 16);
    lemma_fold_shifted((b2 as u32) << 8u32, 16);
    lemma_fold_shifted(b2 as u32, 8);
    assert(crc_byte(crc_byte(c, b0), b1) ^ (b2 as u32) == crc_bits(x2, 16));
    // three bytes
    lemma_compose(x2, 16, 8);
    lemma_linear(x2, y3, 24);
    lemma_fold_shifted(((b3 as u32) << 8u32) << 8u32, 24);
    lemma_fold_shifted((b3 as u32) << 8u32, 16);
    lemma_fold_shifted(b3 as u32, 8);
    assert(crc_byte(crc_byte(crc_byte(c, b0), b1), b2) ^ (b3 as u32) == crc_bits(x3, 24));
    lemma_compose(x3, 24, 8);
}

/// The four bytes of `h`, each folded from where it stands.
proof fn lemma_spread(h: u32)
    ensures
        crc_bits(h, 64) == ((crc_bits(h & 0xFF, 64) ^ crc_bits((h >> 8u32) & 0xFF, 56)) ^ crc_bits(
            (h >> 16u32) & 0xFF,
            48,
        )) ^ crc_bits((h >> 24u32) & 0xFF, 40),
{
    let h1 = h >> 8u32;
    let h2 = h >> 16u32;
    let h3 = h >> 24u32;
    assert(h1 >> 8u32 == h2 && h2 >> 8u32 == h3 && h3 & 0xFF == h3) by (bit_vector)
        requires
            h1 == h >> 8u32,
            h2 == h >> 16u32,
            h3 == h >> 24u32,
    ;
    // crc_bits(x, n) for n >= 8 peels the low byte off x
    lemma_peel(h, 64);
    lemma_peel(h1, 56);
    lemma_peel(h2, 48);
    lemma_xor3(crc_bits(h & 0xFF, 64), crc_bits(h1 & 0xFF, 56), crc_bits(h2, 48));
    lemma_xor3(
        crc_bits(h & 0xFF, 64) ^ crc_bits(h1 & 0xFF, 56),
        crc_bits(h2 & 0xFF, 48),
        crc_bits(h3, 40),
    );
}

proof fn lemma_peel(x: u32, n: nat)
    requires
        n >= 8,
    ensures
        crc_bits(x, n) == crc_bits(x & 0xFF, n) ^ crc_bits(x >> 8u32, (n - 8) as nat),
{
    lemma_compose(x, 8, (n - 8) as nat);
    lemma_compose(x & 0xFF, 8, (n - 8) as nat);
    lemma_table_step(x);
    lemma_linear(crc_bits(x & 0xFF, 8), x >> 8u32, (n - 8) as nat);
}

/// Eight bytes at once: what the eight tables compute.
proof fn lemma_eight(c: u32, b: Seq<u8>)
    requires
        b.len() == 8,
    ensures
        ({
            let h = c ^ word(b[0], b[1], b[2], b[3]);
            crc_feed(c, b) == ((((((crc_bits(h & 0xFF, 64) ^ crc_bits((h >> 8u32) & 0xFF, 56))
                ^ crc_bits((h >> 16u32) & 0xFF, 48)) ^ crc_bits((h >> 24u32) & 0xFF, 40))
                ^ crc_bits(b[4] as u32, 32)) ^ crc_bits(b[5] as u32, 24)) ^ crc_bits(
                b[6] as u32,
                16,
            )) ^ crc_bits(b[7] as u32, 8)
        }),
{
    let h = c ^ word(b[0], b[1], b[2], b[3]);
    let s4 = crc_bits(h, 32);
    lemma_feed_8(c, b);
    lemma_four(c, b[0], b[1], b[2], b[3]);
    // s5 = S(s4) ^ S(b4), and so on
    lemma_linear(s4, b[4] as u32, 8);
    let s5 = crc_byte(s4, b[4]);
    lemma_linear(s5, b[5] as u32, 8);
    let s6 = crc_byte(s5, b[5]);
    lemma_linear(s6, b[6] as u32, 8);
    let s7 = crc_byte(s6, b[6]);
    lemma_linear(s7, b[7] as u32, 8);
    let p4 = crc_bits(s4, 8);
    let q4 = crc_bits(b[4] as u32, 8);
    // push the folds of s4 and b4 through
    lemma_linear(p4, q4, 8);
    lemma_compose(s4, 8, 8);
    lemma_compose(b[4] as u32, 8, 8);
    let q5 = crc_bits(b[5] as u32, 8);
    assert(s6 == (crc_bits(s4, 16) ^ crc_bits(b[4] as u32, 16)) ^ q5);
    lemma_linear(crc_bits(s4, 16) ^ crc_bits(b[4] as u32, 16), q5, 8);
    lemma_linear(crc_bits(s4, 16), crc_bits(b[4] as u32, 16), 8);
    lemma_compose(s4, 16, 8);
    lemma_compose(b[4] as u32, 16, 8);
    lemma_compose(b[5] as u32, 8, 8);
    let q6 = crc_bits(b[6] as u32, 8);
    assert(s7 == ((crc_bits(s4, 24) ^ crc_bits(b[4] as u32, 24)) ^ crc_bits(b[5] as u32, 16))
        ^ q6);
    lemma_linear(
        (crc_bits(s4, 24) ^ crc_bits(b[4] as u32, 24)) ^ crc_bits(b[5] as u32, 16),
        q6,
        8,
    );
    lemma_linear(crc_bits(s4, 24) ^ crc_bits(b[4] as u32, 24), crc_bits(b[5] as u32, 16), 8);
    lemma_linear(crc_bits(s4, 24), crc_bits(b[4] as u32, 24), 8);
    lemma_compose(s4, 24, 8);
    lemma_compose(b[4] as u32, 24, 8);
    lemma_compose(b[5] as u32, 16, 8);
    lemma_compose(b[6] as u32, 8, 8);
    lemma_compose(h, 32, 32);
    lemma_spread(h);
}

proof fn lemma_feed_8(c: u32, b: Seq<u8>)
    requires
        b.len() == 8,
    ensures
        crc_feed(c, b) == crc_byte(
            crc_byte(
                crc_byte(
                    crc_byte(
                        crc_byte(crc_byte(crc_byte(crc_byte(c, b[0]), b[1]), b[2]), b[3]),
                        b[4],
                    ),
                    b[5],
                ),
                b[6],
            ),
            b[7],
        ),
{
    let b7 = b.drop_last();
    let b6 = b7.drop_last();
    let b5 = b6.drop_last();
    let b4 = b5.drop_last();
    let b3 = b4.drop_last();
    let b2 = b3.drop_last();
    let b1 = b2.drop_last();
    reveal_with_fuel(crc_feed, 9);
    assert(b1.drop_last().len() == 0);
}

/// Feeding two pieces one after the other is feeding them joined: where the
/// data is cut does not change the result.
pub proof fn lemma_feed_concat(c: u32, a: Seq<u8>, b: Seq<u8>)
    ensures
        crc_feed(c, a + b) == crc_feed(crc_feed(c, a), b),
    decreases b.len(),
{
    if b.len() == 0 {
        assert(a + b =~= a);
    } else {
        assert((a + b).drop_last() =~= a + b.drop_last());
        assert((a + b).last() == b.last());
        lemma_feed_concat(c, a, b.drop_last());
    }
}

/// The entry of table `n` for byte `i`: the byte folded over `n + 1` bytes.
pub open spec fn table_entry(n: nat, i: nat) -> u32 {
    crc_bits(i as u32, 8 * (n + 1))
}

/// The eight tables, one after the other.
spec fn tables_ok(t: Seq<u32>) -> bool {
    &&& t.len() == 2048
    &&& forall|n: nat, i: nat|
        n < 8 && i < 256 ==> #[trigger] t[(256 * n + i) as int] == table_entry(n, i)
}

/// Builds the eight tables: the first folds each byte bit by bit, each next
/// one folds the entries of the one before by one more byte.
fn build_tables() -> (t: Vec<u32>)
    ensures
        tables_ok(t@),
{
    let mut t: Vec<u32> = Vec::with_capacity(2048);
    let mut i: usize = 0;
    while i < 256
        invariant
            i <= 256,
            t@.len() == i,
            forall|k: nat| k < i ==> #[trigger] t@[k as int] == table_entry(0, k),
        decreases 256 - i,
    {
        let mut c: u32 = i as u32;
        let mut bit: u32 = 0;
        while bit < 8
            invariant
                bit <= 8,
                crc_bits(c, (8 - bit) as nat) == crc_bits(i as u32, 8),
            decreases 8 - bit,
        {
            c = if c & 1 != 0 {
                (c >> 1) ^ POLY
            } else {
                c >> 1
            };
            bit = bit + 1;
        }
        t.push(c);
        i = i + 1;
    }
    assert forall|m: nat, k: nat| m < 1 && k < 256 implies #[trigger] t@[(256 * m + k) as int]
        == table_entry(m, k) by {
        assert(t@[k as int] == table_entry(0, k));
    }
    let mut n: usize = 1;
    while n < 8
        invariant
            1 <= n <= 8,
            t@.len() == 256 * n,
            forall|m: nat, k: nat|
                m < n && k < 256 ==> #[trigger] t@[(256 * m + k) as int] == table_entry(m, k),
        decreases 8 - n,
    {
        let mut i: usize = 0;
        while i < 256
            invariant
                1 <= n < 8,
                i <= 256,
                t@.len() == 256 * n + i,
                forall|m: nat, k: nat|
                    m < n && k < 256 ==> #[trigger] t@[(256 * m + k) as int] == table_entry(m, k),
                forall|k: nat| k < i ==> #[trigger] t@[(256 * n + k) as int] == table_entry(n as nat, k),
            decreases 256 - i,
        {
            let prev: u32 = t[256 * (n - 1) + i];
            let low: usize = (prev & 0xFF) as usize;
            proof {
                lemma_split(prev);
                assert(t@[(256 * ((n - 1) as nat) + i as nat) as int] == table_entry(
                    (n - 1) as nat,
                    i as nat,
                ));
                assert(t@[(256 * 0nat + low as nat) as int] == table_entry(0, low as nat));
                lemma_table_step(prev);
                lemma_compose(i as u32, 8 * (n as nat), 8);
                lemma_xor3(prev >> 8u32, crc_bits(prev & 0xFF, 8), 0);
            }
            let v: u32 = (prev >> 8) ^ t[low];
            t.push(v);
            assert(v == table_entry(n as nat, i as nat));
            i = i + 1;
        }
        assert forall|m: nat, k: nat| m < n + 1 && k < 256 implies #[trigger] t@[(256 * m
            + k) as int] == table_entry(m, k) by {
            if m == n {
                assert(t@[(256 * n + k) as int] == table_entry(n as nat, k));
            }
        }
        n = n + 1;
    }
    t
}

/// The entry of table `n` for byte `i`.
fn at(t: &Vec<u32>, n: usize, i: u32) -> (r: u32)
    requires
        tables_ok(t@),
        n < 8,
        i < 256,
    ensures
        r == crc_bits(i, 8 * (n as nat + 1)),
{
    assert(t@[(256 * (n as nat) + i as nat) as int] == table_entry(n as nat, i as nat));
    t[256 * n + i as usize]
}

/// CRC-32/ISO-HDLC, the variant used in ZIP.
#[must_use]
pub fn crc32(data: &[u8]) -> (r: u32)
    ensures
        r == crc32_of(data@),
{
    let mut c = Crc32::new();
    c.update(data);
    c.finish()
}

/// CRC-32 of data that arrives in pieces.
#[derive(Debug)]
pub struct Crc32 {
    state: u32,
    tables: Vec<u32>,
}

impl Crc32 {
    /// The register: what has been fed so far, folded.
    pub closed spec fn register(&self) -> u32 {
        self.state
    }

    #[verifier::type_invariant]
    spec fn wf(&self) -> bool {
        tables_ok(self.tables@)
    }

    #[must_use]
    pub fn new() -> (r: Self)
        ensures
            r.register() == 0xFFFF_FFFF,
    {
        Crc32 { state: 0xFFFF_FFFF, tables: build_tables() }
    }

    /// Feeds `data`.
    pub fn update(&mut self, data: &[u8])
        ensures
            final(self).register() == crc_feed(old(self).register(), data@),
    {
        proof {
            use_type_invariant(&*self);
        }
        let t = &self.tables;
        let mut c: u32 = self.state;
        let mut i: usize = 0;
        let ghost start = c;
        assert(data@.subrange(0, 0) =~= Seq::<u8>::empty());
        while data.len() - i >= 8
            invariant
                i <= data@.len(),
                tables_ok(t@),
                c == crc_feed(start, data@.subrange(0, i as int)),
            decreases data@.len() - i,
        {
            let b0: u32 = data[i] as u32;
            let b1: u32 = data[i + 1] as u32;
            let b2: u32 = data[i + 2] as u32;
            let b3: u32 = data[i + 3] as u32;
            let head: u32 = c ^ (b0 | (b1 << 8) | (b2 << 16) | (b3 << 24));
            let ghost block = data@.subrange(i as int, i + 8);
            proof {
                lemma_eight(c, block);
                lemma_split(head);
                lemma_split(head >> 8u32);
                lemma_split(head >> 16u32);
                lemma_split(head >> 24u32);
                assert(data@.subrange(0, i + 8) =~= data@.subrange(0, i as int) + block);
                lemma_feed_concat(start, data@.subrange(0, i as int), block);
            }
            c = at(t, 7, head & 0xFF) ^ at(t, 6, (head >> 8) & 0xFF) ^ at(
                t,
                5,
                (head >> 16) & 0xFF,
            ) ^ at(t, 4, (head >> 24) & 0xFF) ^ at(t, 3, data[i + 4] as u32) ^ at(
                t,
                2,
                data[i + 5] as u32,
            ) ^ at(t, 1, data[i + 6] as u32) ^ at(t, 0, data[i + 7] as u32);
            i = i + 8;
        }
        while i < data.len()
            invariant
                i <= data@.len(),
                tables_ok(t@),
                c == crc_feed(start, data@.subrange(0, i as int)),
            decreases data@.len() - i,
        {
            let x: u32 = c ^ (data[i] as u32);
            proof {
                lemma_split(x);
                lemma_table_step(x);
                let b = data@[i as int];
                assert((c ^ (b as u32)) >> 8u32 == c >> 8u32) by (bit_vector);
                assert(data@.subrange(0, i + 1).drop_last() =~= data@.subrange(0, i as int));
            }
            c = at(t, 0, x & 0xFF) ^ (c >> 8);
            i = i + 1;
        }
        assert(data@.subrange(0, i as int) =~= data@);
        self.state = c;
    }

    /// The checksum of all that was fed.
    #[must_use]
    pub fn finish(self) -> (r: u32)
        ensures
            r == self.register() ^ 0xFFFF_FFFFu32,
    {
        self.state ^ 0xFFFF_FFFF
    }
}

impl Clone for Crc32 {
    fn clone(&self) -> (r: Self)
        ensures
            r.register() == self.register(),
    {
        proof {
            use_type_invariant(self);
        }
        let tables = self.tables.clone();
        assert(tables@ =~= self.tables@);
        Crc32 { state: self.state, tables }
    }
}

impl Default for Crc32 {
    fn default() -> (r: Self)
        ensures
            r.register() == 0xFFFF_FFFF,
    {
        Crc32::new()
    }
}

} // verus!
