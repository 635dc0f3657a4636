//! Canonical Huffman codes and a two-level lookup table.
//!
//! A code is given by its lengths alone (RFC 1951, section 3.2.2). Walking a
//! tree costs one memory access per bit; a root table of nine bits takes apart
//! nearly every code of a real stream in one access, and only the rare long
//! codes go through a subtable.
use vstd::prelude::*;
use vstd::arithmetic::div_mod::lemma_fundamental_div_mod;
use vstd::arithmetic::div_mod::lemma_fundamental_div_mod_converse;

use crate::deflate::bitreader::BitReader;
use crate::deflate::bits;
use crate::error::DeflateError;

verus! {

/// How many bits the root table takes apart.
const ROOT_BITS: u32 = 9;

/// The longest code of DEFLATE.
pub const MAX_BITS: u32 = 15;

/// How many symbols have a code of length `l`.
pub open spec fn count_len(lens: Seq<u8>, l: nat) -> nat
    decreases lens.len(),
{
    if lens.len() == 0 {
        0
    } else {
        count_len(lens.drop_last(), l) + if lens.last() == l {
            1nat
        } else {
            0
        }
    }
}

/// How many symbols have a code at all.
pub open spec fn used_count(lens: Seq<u8>) -> nat
    decreases lens.len(),
{
    if lens.len() == 0 {
        0
    } else {
        used_count(lens.drop_last()) + if lens.last() > 0 {
            1nat
        } else {
            0
        }
    }
}

/// How many strings of `l` bits begin with a code of at most `l` bits: the
/// Kraft sum of those codes in units of `2^-l`.
pub open spec fn weight(lens: Seq<u8>, l: nat) -> nat
    decreases l,
{
    if l == 0 {
        0
    } else {
        2 * weight(lens, (l - 1) as nat) + count_len(lens, l)
    }
}

/// The first code of length `l`.
pub open spec fn first_code(lens: Seq<u8>, l: nat) -> nat {
    if l == 0 {
        0
    } else {
        2 * weight(lens, (l - 1) as nat)
    }
}

/// The canonical code of symbol `s`: codes of one length are consecutive, in
/// the order of the symbols.
pub open spec fn code_of(lens: Seq<u8>, s: int) -> nat {
    first_code(lens, lens[s] as nat) + count_len(lens.take(s), lens[s] as nat)
}

/// The `l` low bits of `c`, most significant first.
pub open spec fn msb_bits(c: nat, l: nat) -> Seq<bool>
    decreases l,
{
    if l == 0 {
        Seq::empty()
    } else {
        msb_bits(c / 2, (l - 1) as nat).push(c % 2 == 1)
    }
}

/// The bits that stand for symbol `s` in a stream.
pub open spec fn codeword(lens: Seq<u8>, s: int) -> Seq<bool> {
    msb_bits(code_of(lens, s), lens[s] as nat)
}

/// The number that the codeword of `s` spells, read as a stream is read.
pub open spec fn rev_code(lens: Seq<u8>, s: int) -> nat {
    bits::bits_nat(codeword(lens, s))
}

pub open spec fn used(lens: Seq<u8>, s: int) -> bool {
    0 <= s < lens.len() && lens[s] > 0
}

/// Lengths as DEFLATE has them.
pub open spec fn valid_lens(lens: Seq<u8>) -> bool {
    &&& lens.len() <= 65536
    &&& forall|i: int| 0 <= i < lens.len() ==> lens[i] <= 15
}

/// The lengths do not ask for more codes than there are.
pub open spec fn not_over(lens: Seq<u8>) -> bool {
    weight(lens, 15) <= bits::p2(15)
}

/// The lengths use up all codes.
pub open spec fn complete(lens: Seq<u8>) -> bool {
    weight(lens, 15) == bits::p2(15)
}

/// The lengths that a decoder accepts: a complete code, or one of at most one
/// symbol.
pub open spec fn decodable(lens: Seq<u8>) -> bool {
    complete(lens) || (not_over(lens) && used_count(lens) <= 1)
}

/// The codeword of `s` is what a stream with the bits of `v` begins with.
pub open spec fn hit(lens: Seq<u8>, s: int, v: nat) -> bool {
    used(lens, s) && rev_code(lens, s) == v % bits::p2(lens[s] as nat)
}

/// The first 15 bits, or as many as there are.
pub open spec fn first15(rest: Seq<bool>) -> Seq<bool> {
    if rest.len() >= 15 {
        rest.take(15)
    } else {
        rest
    }
}

/// The codeword of `s` is what `rest` begins with, with zeros past its end.
pub open spec fn finds(lens: Seq<u8>, rest: Seq<bool>, s: int) -> bool {
    hit(lens, s, bits::bits_nat(first15(rest)))
}

/// What decoding one symbol gives.
pub open spec fn decoded(lens: Seq<u8>, rest: Seq<bool>) -> Result<int, DeflateError> {
    if exists|s: int| finds(lens, rest, s) {
        let s = choose|s: int| finds(lens, rest, s);
        if lens[s] <= rest.len() {
            Ok(s)
        } else {
            Err(DeflateError::UnexpectedEof)
        }
    } else {
        Err(DeflateError::InvalidCode)
    }
}

pub proof fn lemma_count_bound(lens: Seq<u8>, l: nat)
    ensures
        count_len(lens, l) <= lens.len(),
    decreases lens.len(),
{
    if lens.len() > 0 {
        lemma_count_bound(lens.drop_last(), l);
    }
}

pub proof fn lemma_count_take(lens: Seq<u8>, s: int, l: nat)
    requires
        0 <= s < lens.len(),
    ensures
        count_len(lens.take(s + 1), l) == count_len(lens.take(s), l) + if lens[s] == l {
            1nat
        } else {
            0
        },
{
    assert(lens.take(s + 1).drop_last() =~= lens.take(s));
}

pub proof fn lemma_count_mono(lens: Seq<u8>, s: int, t: int, l: nat)
    requires
        0 <= s <= t <= lens.len(),
    ensures
        count_len(lens.take(s), l) <= count_len(lens.take(t), l),
    decreases t - s,
{
    if s < t {
        lemma_count_mono(lens, s, t - 1, l);
        lemma_count_take(lens, t - 1, l);
    }
}

/// A symbol's rank among those of its length is below their number.
pub proof fn lemma_rank(lens: Seq<u8>, s: int)
    requires
        0 <= s < lens.len(),
    ensures
        count_len(lens.take(s), lens[s] as nat) < count_len(lens, lens[s] as nat),
{
    lemma_count_take(lens, s, lens[s] as nat);
    lemma_count_mono(lens, s + 1, lens.len() as int, lens[s] as nat);
    assert(lens.take(lens.len() as int) =~= lens);
}

pub proof fn lemma_weight_grows(lens: Seq<u8>, a: nat, b: nat)
    requires
        a <= b,
    ensures
        weight(lens, b) >= bits::p2((b - a) as nat) * weight(lens, a),
    decreases b - a,
{
    if a < b {
        let c = (b - 1) as nat;
        lemma_weight_grows(lens, a, c);
        assert(2 * (bits::p2((c - a) as nat) * weight(lens, a)) == (2 * bits::p2((c - a) as nat))
            * weight(lens, a)) by (nonlinear_arith);
    } else {
        assert(1 * weight(lens, a) == weight(lens, a));
    }
}

/// Codes that are not too many in the end never are.
pub proof fn lemma_weight_bound(lens: Seq<u8>, l: nat)
    requires
        not_over(lens),
        l <= 15,
    ensures
        weight(lens, l) <= bits::p2(l),
{
    lemma_weight_grows(lens, l, 15);
    bits::lemma_p2_add(l, (15 - l) as nat);
    bits::lemma_p2_pos((15 - l) as nat);
    let q = bits::p2((15 - l) as nat);
    let w = weight(lens, l);
    let p = bits::p2(l);
    assert(w <= p) by (nonlinear_arith)
        requires
            q * w <= p * q,
            q > 0,
    ;
}

pub proof fn lemma_code_bound(lens: Seq<u8>, s: int)
    requires
        not_over(lens),
        used(lens, s),
        lens[s] <= 15,
    ensures
        code_of(lens, s) < weight(lens, lens[s] as nat),
        code_of(lens, s) < bits::p2(lens[s] as nat),
{
    lemma_rank(lens, s);
    lemma_weight_bound(lens, lens[s] as nat);
}

pub proof fn lemma_msb_len(c: nat, l: nat)
    ensures
        msb_bits(c, l).len() == l,
    decreases l,
{
    if l > 0 {
        lemma_msb_len(c / 2, (l - 1) as nat);
    }
}

pub proof fn lemma_msb_take(c: nat, b: nat, a: nat)
    requires
        a <= b,
    ensures
        bits::p2((b - a) as nat) > 0,
        msb_bits(c, b).take(a as int) == msb_bits(c / bits::p2((b - a) as nat), a),
    decreases b,
{
    lemma_msb_len(c, b);
    bits::lemma_p2_pos((b - a) as nat);
    if a == b {
        assert(c / 1 == c);
        assert(msb_bits(c, b).take(a as int) =~= msb_bits(c, b));
    } else {
        let b1 = (b - 1) as nat;
        lemma_msb_take(c / 2, b1, a);
        lemma_msb_len(c / 2, b1);
        bits::lemma_p2_pos((b1 - a) as nat);
        vstd::arithmetic::div_mod::lemma_div_denominator(
            c as int,
            2,
            bits::p2((b1 - a) as nat) as int,
        );
        assert(msb_bits(c, b).take(a as int) =~= msb_bits(c / 2, b1).take(a as int));
    }
}

pub proof fn lemma_msb_inj(c: nat, d: nat, l: nat)
    requires
        c < bits::p2(l),
        d < bits::p2(l),
        msb_bits(c, l) == msb_bits(d, l),
    ensures
        c == d,
    decreases l,
{
    if l > 0 {
        let k = (l - 1) as nat;
        lemma_msb_len(c / 2, k);
        lemma_msb_len(d / 2, k);
        assert(msb_bits(c, l).last() == (c % 2 == 1));
        assert(msb_bits(d, l).last() == (d % 2 == 1));
        assert(msb_bits(c, l).drop_last() =~= msb_bits(c / 2, k));
        assert(msb_bits(d, l).drop_last() =~= msb_bits(d / 2, k));
        lemma_msb_inj(c / 2, d / 2, k);
    }
}

/// Canonical codes are ordered: a code is no extension of another.
proof fn lemma_codes_apart(lens: Seq<u8>, s: int, t: int)
    requires
        valid_lens(lens),
        not_over(lens),
        used(lens, s),
        used(lens, t),
        s != t,
        lens[s] <= lens[t],
    ensures
        bits::p2((lens[t] - lens[s]) as nat) > 0,
        code_of(lens, t) / bits::p2((lens[t] - lens[s]) as nat) != code_of(lens, s),
{
    let a = lens[s] as nat;
    let b = lens[t] as nat;
    bits::lemma_p2_pos((b - a) as nat);
    if a == b {
        assert(code_of(lens, t) / 1 == code_of(lens, t));
        if s < t {
            lemma_count_take(lens, s, a);
            lemma_count_mono(lens, s + 1, t, a);
        } else {
            lemma_count_take(lens, t, a);
            lemma_count_mono(lens, t + 1, s, a);
        }
    } else {
        lemma_code_bound(lens, s);
        lemma_weight_grows(lens, a, (b - 1) as nat);
        let q = bits::p2((b - 1 - a) as nat);
        let w = weight(lens, a);
        assert(bits::p2((b - a) as nat) == 2 * q);
        assert(first_code(lens, b) >= (2 * q) * w) by (nonlinear_arith)
            requires
                first_code(lens, b) >= 2 * (q * w),
        ;
        let d = bits::p2((b - a) as nat);
        let c = code_of(lens, t);
        vstd::arithmetic::div_mod::lemma_div_is_ordered((d * w) as int, c as int, d as int);
        assert((d * w) / d == w) by {
            vstd::arithmetic::div_mod::lemma_div_multiples_vanish(w as int, d as int);
        }
    }
}

/// The codewords of two symbols are no prefixes of one another.
pub proof fn lemma_prefix_free(lens: Seq<u8>, s: int, t: int)
    requires
        valid_lens(lens),
        not_over(lens),
        used(lens, s),
        used(lens, t),
        s != t,
        lens[s] <= lens[t],
    ensures
        codeword(lens, t).len() == lens[t],
        codeword(lens, s) != codeword(lens, t).take(lens[s] as int),
{
    let a = lens[s] as nat;
    let b = lens[t] as nat;
    lemma_msb_len(code_of(lens, t), b);
    lemma_msb_take(code_of(lens, t), b, a);
    lemma_codes_apart(lens, s, t);
    lemma_code_bound(lens, s);
    lemma_code_bound(lens, t);
    let d = bits::p2((b - a) as nat);
    let c = code_of(lens, t);
    bits::lemma_p2_add(a, (b - a) as nat);
    assert(c / d < bits::p2(a)) by (nonlinear_arith)
        requires
            c < bits::p2(a) * d,
            d > 0,
    ;
    if msb_bits(code_of(lens, s), a) == msb_bits(c / d, a) {
        lemma_msb_inj(code_of(lens, s), c / d, a);
    }
}

/// At most one symbol's codeword begins a stream.
pub proof fn lemma_hit_unique(lens: Seq<u8>, s: int, t: int, v: nat)
    requires
        valid_lens(lens),
        not_over(lens),
        hit(lens, s, v),
        hit(lens, t, v),
    ensures
        s == t,
{
    if lens[s] <= lens[t] {
        lemma_hit_ordered(lens, s, t, v);
    } else {
        lemma_hit_ordered(lens, t, s, v);
    }
}

proof fn lemma_hit_ordered(lens: Seq<u8>, s: int, t: int, v: nat)
    requires
        valid_lens(lens),
        not_over(lens),
        hit(lens, s, v),
        hit(lens, t, v),
        lens[s] <= lens[t],
    ensures
        s == t,
{
    if s != t {
        let a = lens[s] as nat;
        let b = lens[t] as nat;
        lemma_prefix_free(lens, s, t);
        lemma_msb_len(code_of(lens, s), a);
        bits::lemma_bits_nat_cut(codeword(lens, t), a);
        bits::lemma_mod_p2_mod(v, a, b);
        let x = codeword(lens, s);
        let y = codeword(lens, t).take(a as int);
        bits::lemma_bits_nat_inverse(x);
        bits::lemma_bits_nat_inverse(y);
    }
}

/// Looking at fewer bits is looking at more, cut.
pub proof fn lemma_look_mod(rest: Seq<bool>, n: nat)
    requires
        n <= 15,
    ensures
        bits::p2(n) > 0,
        bits::bits_nat(
            if n <= rest.len() {
                rest.take(n as int)
            } else {
                rest
            },
        ) == bits::bits_nat(first15(rest)) % bits::p2(n),
{
    bits::lemma_p2_pos(n);
    let f = first15(rest);
    if n <= rest.len() {
        bits::lemma_bits_nat_cut(f, n);
        assert(f.take(n as int) =~= rest.take(n as int));
    } else {
        bits::lemma_bits_nat_bound(rest);
        bits::lemma_p2_mono(rest.len(), n);
        vstd::arithmetic::div_mod::lemma_small_mod(bits::bits_nat(f), bits::p2(n));
    }
}

/// A stream that begins with a codeword decodes to its symbol.
pub proof fn lemma_decode_codeword(lens: Seq<u8>, rest: Seq<bool>, s: int)
    requires
        valid_lens(lens),
        not_over(lens),
        used(lens, s),
        lens[s] <= rest.len(),
        rest.take(lens[s] as int) == codeword(lens, s),
    ensures
        decoded(lens, rest) == Ok::<int, DeflateError>(s),
{
    let v = bits::bits_nat(first15(rest));
    lemma_look_mod(rest, lens[s] as nat);
    assert(finds(lens, rest, s));
    let t = choose|t: int| finds(lens, rest, t);
    lemma_hit_unique(lens, s, t, v);
}

/// Decoding moves on by at least one bit and stays inside the stream.
pub proof fn lemma_decoded_progress(lens: Seq<u8>, rest: Seq<bool>)
    ensures
        decoded(lens, rest) matches Ok(s) ==> used(lens, s) && 0 < lens[s] <= rest.len(),
{
}

proof fn lemma_msb_value_push(s: Seq<bool>, b: bool)
    ensures
        bits::bits_nat(s.push(b)) == bits::bits_nat(s) + bits::p2(s.len()) * if b {
            1nat
        } else {
            0
        },
{
    assert(s.push(b) =~= s + seq![b]);
    bits::lemma_bits_nat_concat(s, seq![b]);
    assert(seq![b].drop_first() =~= Seq::<bool>::empty());
    reveal_with_fuel(bits::bits_nat, 2);
    assert(bits::bits_nat(seq![b]) == if b {
        1nat
    } else {
        0
    });
}

/// Turns the low `len` bits of `code` round.
pub fn reverse_bits(code: u32, len: u32) -> (r: u32)
    requires
        len <= 15,
    ensures
        r == bits::bits_nat(msb_bits(code as nat, len as nat)),
        r < bits::p2(len as nat),
{
    let mut c: u32 = code;
    let mut r: u32 = 0;
    let mut i: u32 = 0;
    let ghost whole = bits::bits_nat(msb_bits(code as nat, len as nat));
    while i < len
        invariant
            i <= len <= 15,
            r < bits::p2(i as nat),
            whole == bits::bits_nat(msb_bits(c as nat, (len - i) as nat)) + bits::p2(
                (len - i) as nat,
            ) * r,
        decreases len - i,
    {
        let bit: u32 = c % 2;
        proof {
            let k = (len - i - 1) as nat;
            lemma_msb_len((c / 2) as nat, k);
            lemma_msb_value_push(msb_bits((c / 2) as nat, k), c % 2 == 1);
            assert(bits::p2(k + 1) * r + bits::p2(k) * bit == bits::p2(k) * (2 * r + bit))
                by (nonlinear_arith)
                requires
                    bits::p2(k + 1) == 2 * bits::p2(k),
            ;
            bits::lemma_p2_mono(i as nat, 15);
            bits::lemma_p2_values();
        }
        r = 2 * r + bit;
        c = c / 2;
        i = i + 1;
    }
    assert(bits::p2(0) * r == r);
    r
}

/// Counts the codes of each length, from 1 up.
fn count_lengths(lengths: &[u8]) -> (count: Vec<u32>)
    requires
        valid_lens(lengths@),
    ensures
        count@.len() == 16,
        count@[0] == 0,
        forall|l: int| 1 <= l <= 15 ==> #[trigger] count@[l] == count_len(lengths@, l as nat),
{
    let mut count: Vec<u32> = vec![0u32; 16];
    let mut i: usize = 0;
    while i < lengths.len()
        invariant
            i <= lengths@.len(),
            valid_lens(lengths@),
            count@.len() == 16,
            forall|l: int|
                0 <= l <= 15 ==> #[trigger] count@[l] == count_len(
                    lengths@.take(i as int),
                    l as nat,
                ),
        decreases lengths@.len() - i,
    {
        let l: usize = lengths[i] as usize;
        proof {
            lemma_count_bound(lengths@.take(i as int), l as nat);
            assert forall|k: int| 0 <= k <= 15 implies count_len(
                lengths@.take(i + 1),
                k as nat,
            ) == #[trigger] count@[k] + if k == l {
                1nat
            } else {
                0
            } by {
                lemma_count_take(lengths@, i as int, k as nat);
            }
        }
        count[l] = count[l] + 1;
        i = i + 1;
    }
    assert(lengths@.take(lengths@.len() as int) =~= lengths@);
    count[0] = 0;
    count
}

/// The canonical code of each symbol, turned round for the stream; zero for a
/// symbol without a code.
pub fn canonical_codes(lengths: &[u8]) -> (codes: Vec<u32>)
    requires
        valid_lens(lengths@),
        not_over(lengths@),
    ensures
        codes@.len() == lengths@.len(),
        forall|s: int|
            0 <= s < lengths@.len() ==> #[trigger] codes@[s] == if lengths@[s] > 0 {
                rev_code(lengths@, s)
            } else {
                0
            },
        forall|s: int|
            0 <= s < lengths@.len() ==> (#[trigger] codes@[s]) < bits::p2(lengths@[s] as nat),
{
    let ghost lens = lengths@;
    let count = count_lengths(lengths);
    let mut next: Vec<u32> = vec![0u32; 16];
    let mut code: u32 = 0;
    let mut l: usize = 1;
    while l <= 15
        invariant
            1 <= l <= 16,
            valid_lens(lens),
            not_over(lens),
            count@.len() == 16,
            count@[0] == 0,
            forall|k: int| 1 <= k <= 15 ==> #[trigger] count@[k] == count_len(lens, k as nat),
            next@.len() == 16,
            code == first_code(lens, (l - 1) as nat),
            forall|k: int| 1 <= k < l ==> #[trigger] next@[k] == first_code(lens, k as nat),
        decreases 16 - l,
    {
        proof {
            lemma_weight_bound(lens, (l - 1) as nat);
            bits::lemma_p2_mono((l - 1) as nat, 15);
            bits::lemma_p2_values();
        }
        code = (code + count[l - 1]) * 2;
        next[l] = code;
        l = l + 1;
    }
    assert(lens.take(0) =~= Seq::<u8>::empty());
    let mut codes: Vec<u32> = Vec::with_capacity(lengths.len());
    let mut i: usize = 0;
    while i < lengths.len()
        invariant
            i <= lengths@.len(),
            lens == lengths@,
            valid_lens(lens),
            not_over(lens),
            next@.len() == 16,
            codes@.len() == i,
            forall|k: int|
                1 <= k <= 15 ==> #[trigger] next@[k] == first_code(lens, k as nat) + count_len(
                    lens.take(i as int),
                    k as nat,
                ),
            forall|s: int|
                0 <= s < i ==> #[trigger] codes@[s] == if lens[s] > 0 {
                    rev_code(lens, s)
                } else {
                    0
                },
            forall|s: int|
                0 <= s < i ==> (#[trigger] codes@[s]) < bits::p2(lens[s] as nat),
        decreases lengths@.len() - i,
    {
        let len: u8 = lengths[i];
        proof {
            assert forall|k: int| 1 <= k <= 15 implies first_code(lens, k as nat) + count_len(
                lens.take(i + 1),
                k as nat,
            ) == #[trigger] next@[k] + if k == len {
                1nat
            } else {
                0
            } by {
                lemma_count_take(lens, i as int, k as nat);
            }
        }
        if len == 0 {
            codes.push(0);
            proof {
                bits::lemma_p2_pos(0);
            }
        } else {
            let c: u32 = next[len as usize];
            proof {
                lemma_code_bound(lens, i as int);
                bits::lemma_p2_mono(len as nat, 15);
                bits::lemma_p2_values();
            }
            codes.push(reverse_bits(c, len as u32));
            next[len as usize] = c + 1;
        }
        i = i + 1;
    }
    codes
}

/// What stands in a table.
#[derive(Debug, Clone, Copy)]
enum Entry {
    /// No code leads here.
    Hole,
    /// A code ends here.
    Leaf { sym: u16, len: u8 },
    /// The rest of the code is looked up in a table of `bits` bits at `off`.
    Link { off: usize, bits: u32 },
}

/// What the two tables give for the bits of `v`.
spec fn resolve(entries: Seq<Entry>, root: nat, v: nat) -> Entry {
    match entries[(v % bits::p2(root)) as int] {
        Entry::Link { off, bits } => entries[off + (v / bits::p2(root)) % bits::p2(bits as nat)],
        e => e,
    }
}

/// Entry `e` is right about the bits of `v`.
spec fn entry_right(lens: Seq<u8>, e: Entry, v: nat) -> bool {
    match e {
        Entry::Hole => forall|s: int| !hit(lens, s, v),
        Entry::Leaf { sym, len } => hit(lens, sym as int, v) && lens[sym as int] == len,
        Entry::Link { off, bits } => false,
    }
}

/// The decoder of one Huffman alphabet.
pub struct HuffTable {
    entries: Vec<Entry>,
    root: u32,
    lens: Ghost<Seq<u8>>,
}

spec fn residue(i: int, step: int) -> int {
    i % step
}

proof fn lemma_step_apart(i: nat, k: nat, step: nat, start: nat)
    requires
        step > 0,
        i % step == start,
        i < k < i + step,
    ensures
        k % step != start,
{
    let q = i as int / step as int;
    lemma_fundamental_div_mod(i as int, step as int);
    assert(step * q == q * step) by (nonlinear_arith);
    let d = k - i;
    if start + d < step {
        lemma_fundamental_div_mod_converse(k as int, step as int, q, start + d);
    } else {
        assert((q + 1) * step == q * step + step) by (nonlinear_arith);
        lemma_fundamental_div_mod_converse(k as int, step as int, q + 1, start + d - step);
    }
}

/// Puts `leaf` at every place of the table of `size` entries at `base` whose
/// index leaves `start` when divided by `step`.
fn fill(entries: &mut Vec<Entry>, base: usize, size: usize, start: usize, step: usize, leaf: Entry)
    requires
        base + size <= old(entries)@.len(),
        size <= 65536,
        start < step <= 65536,
    ensures
        final(entries)@.len() == old(entries)@.len(),
        forall|j: int|
            0 <= j < old(entries)@.len() ==> #[trigger] final(entries)@[j] == if base <= j < base
                + size && (j - base) % (step as int) == start {
                leaf
            } else {
                old(entries)@[j]
            },
{
    let mut i: usize = start;
    proof {
        vstd::arithmetic::div_mod::lemma_small_mod(start as nat, step as nat);
        assert forall|j: int| 0 <= j < start implies #[trigger] residue(j, step as int) != start by {
            vstd::arithmetic::div_mod::lemma_small_mod(j as nat, step as nat);
        }
        assert forall|j: int| 0 <= j < entries@.len() implies #[trigger] entries@[j] == if base <= j
            < base + i && j < base + size && (j - base) % (step as int) == start {
            leaf
        } else {
            old(entries)@[j]
        } by {
            if base <= j < base + i {
                assert(residue(j - base, step as int) != start);
            }
        }
    }
    while i < size
        invariant
            base + size <= entries.len(),
            entries@.len() == old(entries)@.len(),
            size <= 65536,
            start < step <= 65536,
            i as int % step as int == start,
            forall|j: int| size <= j < i ==> #[trigger] residue(j, step as int) != start,
            forall|j: int|
                0 <= j < entries@.len() ==> #[trigger] entries@[j] == if base <= j < base + i
                    && j < base + size && (j - base) % (step as int) == start {
                    leaf
                } else {
                    old(entries)@[j]
                },
        decreases size + 65536 - i,
    {
        entries[base + i] = leaf;
        proof {
            vstd::arithmetic::div_mod::lemma_mod_add_multiples_vanish(i as int, step as int);
            assert forall|k: int| i < k < i + step implies #[trigger] residue(k, step as int) != start by {
                lemma_step_apart(i as nat, k as nat, step as nat, start as nat);
            }
        }
        let ghost prev = i;
        i = i + step;
        assert forall|j: int| 0 <= j < entries@.len() implies #[trigger] entries@[j] == if base <= j
            < base + i && j < base + size && (j - base) % (step as int) == start {
            leaf
        } else {
            old(entries)@[j]
        } by {
            if base + prev < j < base + i {
                assert(residue(j - base, step as int) != start);
            }
        }
    }
}

/// What the root table holds once the symbols below `k` were placed.
spec fn root_state(entries: Seq<Entry>, lens: Seq<u8>, root: nat, k: int) -> bool {
    forall|i: int|
        0 <= i < bits::p2(root) ==> (match #[trigger] entries[i] {
            Entry::Hole => forall|s: int| s < k && lens[s] <= root ==> !hit(lens, s, i as nat),
            Entry::Leaf { sym, len } => (sym as int) < k && len <= root && hit(
                lens,
                sym as int,
                i as nat,
            ) && lens[sym as int] == len,
            Entry::Link { off, bits } => false,
        })
}

/// The bits that a long code leaves to its subtable.
spec fn long_tail(lens: Seq<u8>, root: nat, s: int) -> nat {
    (lens[s] - root) as nat
}

spec fn is_long(lens: Seq<u8>, root: nat, s: int) -> bool {
    used(lens, s) && lens[s] > root
}

/// The widths of the subtables once the symbols below `k` were seen.
spec fn widths_state(widths: Seq<u32>, lens: Seq<u8>, root: nat, k: int) -> bool {
    &&& widths.len() == bits::p2(root)
    &&& forall|p: int| 0 <= p < widths.len() ==> #[trigger] widths[p] <= 15 - root
    &&& forall|s: int| #[trigger]
        is_long(lens, root, s) && s < k ==> widths[(rev_code(lens, s) % bits::p2(root)) as int]
            >= long_tail(lens, root, s)
    &&& forall|p: int|
        0 <= p < widths.len() && #[trigger] widths[p] > 0 ==> exists|s: int| #[trigger]
            is_long(lens, root, s) && rev_code(lens, s) % bits::p2(root) == p
}

/// The subtables stand one after the other behind the root table.
spec fn layout(
    entries: Seq<Entry>,
    widths: Seq<u32>,
    offs: Seq<usize>,
    root: nat,
    upto: int,
) -> bool {
    &&& entries.len() <= bits::p2(root) + upto * 64
    &&& offs.len() == widths.len()
    &&& entries.len() >= bits::p2(root)
    &&& forall|p: int|
        0 <= p < upto && #[trigger] widths[p] > 0 ==> {
            &&& entries[p] == Entry::Link { off: offs[p], bits: widths[p] }
            &&& bits::p2(root) <= offs[p]
            &&& offs[p] + bits::p2(widths[p] as nat) <= entries.len()
        }
    &&& forall|p: int, q: int|
        0 <= p < q < upto && #[trigger] widths[p] > 0 && #[trigger] widths[q] > 0 ==> offs[p]
            + bits::p2(widths[p] as nat) <= offs[q]
}

/// Symbol `s` belongs at place `i` of the subtable of root place `p`.
spec fn sub_hit(lens: Seq<u8>, root: nat, s: int, p: int, i: int) -> bool {
    &&& is_long(lens, root, s)
    &&& rev_code(lens, s) % bits::p2(root) == p
    &&& i % (bits::p2(long_tail(lens, root, s)) as int) == rev_code(lens, s) / bits::p2(root)
}

/// What the subtables hold once the symbols below `k` were placed.
spec fn sub_state(
    entries: Seq<Entry>,
    widths: Seq<u32>,
    offs: Seq<usize>,
    lens: Seq<u8>,
    root: nat,
    k: int,
) -> bool {
    forall|p: int, i: int|
        #![trigger entries[offs[p] + i]]
        0 <= p < widths.len() && widths[p] > 0 && 0 <= i < bits::p2(widths[p] as nat) ==> (
        match entries[offs[p] + i] {
            Entry::Hole => forall|s: int| s < k ==> !sub_hit(lens, root, s, p, i),
            Entry::Leaf { sym, len } => (sym as int) < k && sub_hit(lens, root, sym as int, p, i)
                && lens[sym as int] == len,
            Entry::Link { off, bits } => false,
        })
}

proof fn lemma_rev_bound(lens: Seq<u8>, s: int)
    ensures
        codeword(lens, s).len() == lens[s],
        rev_code(lens, s) < bits::p2(lens[s] as nat),
{
    lemma_msb_len(code_of(lens, s), lens[s] as nat);
    bits::lemma_bits_nat_bound(codeword(lens, s));
}

/// A long code is hit exactly where its prefix and its tail are.
proof fn lemma_long_hit(lens: Seq<u8>, root: nat, s: int, v: nat)
    requires
        is_long(lens, root, s),
    ensures
        bits::p2(root) > 0,
        bits::p2(long_tail(lens, root, s)) > 0,
        hit(lens, s, v) <==> sub_hit(
            lens,
            root,
            s,
            (v % bits::p2(root)) as int,
            (v / bits::p2(root)) as int,
        ),
{
    let t = long_tail(lens, root, s);
    let r = rev_code(lens, s);
    lemma_rev_bound(lens, s);
    bits::lemma_mod_p2_split(v, root, t);
    bits::lemma_mod_p2_split(r, root, t);
    bits::lemma_p2_pos(lens[s] as nat);
    vstd::arithmetic::div_mod::lemma_small_mod(r, bits::p2(lens[s] as nat));
    let p = bits::p2(root);
    let x = (v / p) % bits::p2(t);
    let y = (r / p) % bits::p2(t);
    // r / p is below 2^t
    bits::lemma_p2_add(root, t);
    assert(r / p < bits::p2(t)) by (nonlinear_arith)
        requires
            r < p * bits::p2(t),
            p > 0,
    ;
    vstd::arithmetic::div_mod::lemma_small_mod(r / p, bits::p2(t));
    assert(root + t == lens[s]);
    if hit(lens, s, v) {
        // r == v % p + p * x, so r % p == v % p and r / p == x
        bits::lemma_mod_p2_mod(v, root, lens[s] as nat);
        assert(r % p == v % p);
        assert(p * x == p * y);
        assert(x == y) by (nonlinear_arith)
            requires
                p * x == p * y,
                p > 0,
        ;
    }
    if sub_hit(lens, root, s, (v % p) as int, (v / p) as int) {
        assert(x == y);
    }
}

impl HuffTable {
    /// The code lengths that the table was built from.
    pub closed spec fn lengths(&self) -> Seq<u8> {
        self.lens@
    }

    pub closed spec fn wf(&self) -> bool {
        let e = self.entries@;
        let root = self.root as nat;
        &&& 1 <= root <= 9
        &&& e.len() >= bits::p2(root)
        &&& valid_lens(self.lens@)
        &&& decodable(self.lens@)
        &&& forall|i: int|
            0 <= i < bits::p2(root) ==> (#[trigger] e[i] matches Entry::Link { off, bits } ==> bits
                <= 6 && off + bits::p2(bits as nat) <= e.len())
        &&& forall|v: nat| #[trigger] entry_right(self.lens@, resolve(e, root, v), v)
    }

    /// Builds the table for the given code lengths; the index of a length is
    /// the number of its symbol.
    pub fn build(lengths: &[u8]) -> (r: Result<HuffTable, DeflateError>)
        requires
            valid_lens(lengths@),
        ensures
            match r {
                Ok(t) => decodable(lengths@) && t.wf() && t.lengths() == lengths@,
                Err(DeflateError::OversubscribedTree) => !not_over(lengths@),
                Err(DeflateError::IncompleteTree) => not_over(lengths@) && !decodable(lengths@),
                Err(_) => false,
            },
    {
        let ghost lens = lengths@;
        let count = count_lengths(lengths);
        let mut max: u32 = 0;
        let mut total: u32 = 0;
        let mut left: i64 = 1;
        let mut l: u32 = 1;
        while l <= MAX_BITS
            invariant
                1 <= l <= 16,
                lens == lengths@,
                valid_lens(lens),
                count@.len() == 16,
                forall|k: int| 1 <= k <= 15 ==> #[trigger] count@[k] == count_len(lens, k as nat),
                max < l,
                forall|k: int| max < k < l ==> #[trigger] count@[k] == 0,
                total == total_upto(lens, (l - 1) as nat),
                total <= 65536 * (l - 1),
                left == bits::p2((l - 1) as nat) - weight(lens, (l - 1) as nat),
                0 <= left,
            decreases 16 - l,
        {
            let c: u32 = count[l as usize];
            proof {
                lemma_count_bound(lens, l as nat);
                bits::lemma_p2_mono((l - 1) as nat, 15);
                bits::lemma_p2_values();
            }
            if c > 0 {
                max = l;
            }
            total = total + c;
            left = left * 2 - c as i64;
            if left < 0 {
                proof {
                    if not_over(lens) {
                        lemma_weight_bound(lens, l as nat);
                    }
                }
                return Err(DeflateError::OversubscribedTree);
            }
            l = l + 1;
        }
        proof {
            lemma_total(lens);
        }
        if left > 0 && total > 1 {
            return Err(DeflateError::IncompleteTree);
        }
        let root: u32 = if max == 0 {
            1
        } else if max < ROOT_BITS {
            max
        } else {
            ROOT_BITS
        };
        let size: usize = bits::pow2_usize(root);
        let codes = canonical_codes(lengths);
        proof {
            bits::lemma_p2_mono(root as nat, 9);
            bits::lemma_p2_values();
        }
        let mut entries: Vec<Entry> = Vec::with_capacity(size);
        let mut i: usize = 0;
        while i < size
            invariant
                i <= size,
                entries@.len() == i,
                forall|j: int| 0 <= j < i ==> #[trigger] entries@[j] == Entry::Hole,
            decreases size - i,
        {
            entries.push(Entry::Hole);
            i = i + 1;
        }
        Self::fill_root(&mut entries, lengths, &codes, root, size);
        let ghost before = entries@;
        if max > root {
            Self::fill_subtables(&mut entries, lengths, &codes, root, size);
        } else {
            proof {
                assert forall|k: nat| max < k <= 15 implies #[trigger] count_len(lens, k) == 0 by {
                    assert(count@[k as int] == 0);
                }
                assert forall|v: nat| #[trigger] entry_right(
                    lens,
                    resolve(entries@, root as nat, v),
                    v,
                ) by {
                    lemma_root_only(entries@, lens, root as nat, v, max as nat);
                }
            }
        }
        Ok(HuffTable { entries, root, lens: Ghost(lens) })
    }

    /// Puts the codes of at most `root` bits into the root table.
    fn fill_root(
        entries: &mut Vec<Entry>,
        lengths: &[u8],
        codes: &Vec<u32>,
        root: u32,
        size: usize,
    )
        requires
            valid_lens(lengths@),
            not_over(lengths@),
            1 <= root <= 9,
            size == bits::p2(root as nat),
            old(entries)@.len() == size,
            forall|j: int| 0 <= j < size ==> #[trigger] old(entries)@[j] == Entry::Hole,
            codes@.len() == lengths@.len(),
            forall|s: int|
                0 <= s < lengths@.len() && lengths@[s] > 0 ==> #[trigger] codes@[s] == rev_code(
                    lengths@,
                    s,
                ),
        ensures
            final(entries)@.len() == size,
            root_state(final(entries)@, lengths@, root as nat, lengths@.len() as int),
    {
        let ghost lens = lengths@;
        let mut s: usize = 0;
        proof {
            bits::lemma_p2_mono(root as nat, 9);
            bits::lemma_p2_values();
        }
        while s < lengths.len()
            invariant
                s <= lengths@.len(),
                lens == lengths@,
                valid_lens(lens),
                not_over(lens),
                1 <= root <= 9,
                size == bits::p2(root as nat),
                size <= 512,
                entries@.len() == size,
                codes@.len() == lengths@.len(),
                forall|k: int|
                    0 <= k < lens.len() && lens[k] > 0 ==> #[trigger] codes@[k] == rev_code(
                        lens,
                        k,
                    ),
                root_state(entries@, lens, root as nat, s as int),
            decreases lengths@.len() - s,
        {
            let len: u8 = lengths[s];
            if len > 0 && len as u32 <= root {
                let step: usize = bits::pow2_usize(len as u32);
                let start: usize = codes[s] as usize;
                proof {
                    lemma_rev_bound(lens, s as int);
                    bits::lemma_p2_mono(len as nat, 9);
                }
                let leaf = Entry::Leaf { sym: s as u16, len };
                let ghost before = entries@;
                fill(entries, 0, size, start, step, leaf);
                assert forall|i: int| 0 <= i < size implies (entries@[i] == leaf && hit(
                    lens,
                    s as int,
                    i as nat,
                )) || (#[trigger] entries@[i] == before[i] && !hit(lens, s as int, i as nat)) by {
                    assert(i - 0 == i);
                }
                assert forall|i: int| 0 <= i < bits::p2(root as nat) implies (
                match #[trigger] entries@[i] {
                    Entry::Hole => forall|k: int|
                        k < s + 1 && lens[k] <= root ==> !hit(lens, k, i as nat),
                    Entry::Leaf { sym, len } => (sym as int) < s + 1 && len <= root && hit(
                        lens,
                        sym as int,
                        i as nat,
                    ) && lens[sym as int] == len,
                    Entry::Link { off, bits } => false,
                }) by {
                    assert((entries@[i] == leaf && hit(lens, s as int, i as nat)) || (entries@[i]
                        == before[i] && !hit(lens, s as int, i as nat)));
                }
            } else {
                assert(root_state(entries@, lens, root as nat, s + 1)) by {
                    assert(len == 0 ==> forall|v: nat| !hit(lens, s as int, v));
                }
            }
            s = s + 1;
        }
    }

    /// Lays out the subtables behind the root table and puts the codes of more
    /// than `root` bits into them.
    fn fill_subtables(
        entries: &mut Vec<Entry>,
        lengths: &[u8],
        codes: &Vec<u32>,
        root: u32,
        size: usize,
    )
        requires
            valid_lens(lengths@),
            not_over(lengths@),
            root == 9,
            size == 512,
            size == bits::p2(root as nat),
            old(entries)@.len() == size,
            root_state(old(entries)@, lengths@, root as nat, lengths@.len() as int),
            codes@.len() == lengths@.len(),
            forall|s: int|
                0 <= s < lengths@.len() && lengths@[s] > 0 ==> #[trigger] codes@[s] == rev_code(
                    lengths@,
                    s,
                ),
        ensures
            final(entries)@.len() >= size,
            forall|i: int|
                0 <= i < size ==> (#[trigger] final(entries)@[i] matches Entry::Link { off, bits }
                    ==> bits <= 6 && off + bits::p2(bits as nat) <= final(entries)@.len()),
            forall|v: nat| #[trigger]
                entry_right(lengths@, resolve(final(entries)@, root as nat, v), v),
    {
        let ghost lens = lengths@;
        let ghost r = root as nat;
        let ghost root_part = entries@;
        // widths of the subtables
        let mut widths: Vec<u32> = vec![0u32; 512];
        let mut s: usize = 0;
        while s < lengths.len()
            invariant
                s <= lengths@.len(),
                lens == lengths@,
                valid_lens(lens),
                r == 9,
                size == 512,
                size == bits::p2(r),
                codes@.len() == lengths@.len(),
                forall|k: int|
                    0 <= k < lens.len() && lens[k] > 0 ==> #[trigger] codes@[k] == rev_code(
                        lens,
                        k,
                    ),
                widths_state(widths@, lens, r, s as int),
            decreases lengths@.len() - s,
        {
            let len: u8 = lengths[s];
            if len > 9 {
                let p: usize = (codes[s] % 512) as usize;
                let need: u32 = len as u32 - 9;
                assert(is_long(lens, r, s as int));
                if widths[p] < need {
                    widths[p] = need;
                }
            }
            s = s + 1;
        }
        // places of the subtables
        let mut offs: Vec<usize> = vec![0usize; 512];
        let mut p: usize = 0;
        while p < 512
            invariant
                p <= 512,
                lens == lengths@,
                r == 9,
                bits::p2(r) == 512,
                widths_state(widths@, lens, r, lens.len() as int),
                offs@.len() == 512,
                layout(entries@, widths@, offs@, r, p as int),
                root_part.len() == 512,
                forall|q: int|
                    0 <= q < 512 && (q >= p || widths@[q] == 0) ==> #[trigger] entries@[q]
                        == root_part[q],
                forall|j: int| 512 <= j < entries@.len() ==> #[trigger] entries@[j] == Entry::Hole,
            decreases 512 - p,
        {
            let w: u32 = widths[p];
            if w > 0 {
                proof {
                    bits::lemma_p2_mono(w as nat, 6);
                    bits::lemma_p2_values();
                }
                let off: usize = entries.len();
                let extra: usize = bits::pow2_usize(w);
                let ghost before = entries@;
                let mut i: usize = 0;
                while i < extra
                    invariant
                        i <= extra,
                        entries@.len() == before.len() + i,
                        before.len() >= 512,
                        forall|j: int| 0 <= j < before.len() ==> #[trigger] entries@[j] == before[j],
                        forall|j: int|
                            before.len() <= j < entries@.len() ==> #[trigger] entries@[j]
                                == Entry::Hole,
                    decreases extra - i,
                {
                    entries.push(Entry::Hole);
                    i = i + 1;
                }
                let ghost old_offs = offs@;
                offs[p] = off;
                entries[p] = Entry::Link { off, bits: w };
                assert(layout(entries@, widths@, offs@, r, p + 1)) by {
                    assert forall|q: int| 0 <= q < p + 1 && #[trigger] widths@[q] > 0 implies {
                        &&& entries@[q] == Entry::Link { off: offs@[q], bits: widths@[q] }
                        &&& bits::p2(r) <= offs@[q]
                        &&& offs@[q] + bits::p2(widths@[q] as nat) <= entries@.len()
                    } by {
                        if q < p {
                            assert(offs@[q] == old_offs[q]);
                            assert(entries@[q] == before[q]);
                        }
                    }
                }
            }
            p = p + 1;
        }
        // the long codes
        let ghost laid = entries@;
        assert(sub_state(entries@, widths@, offs@, lens, r, 0)) by {
            assert forall|p: int, i: int|
                #![trigger entries@[offs@[p] + i]]
                0 <= p < widths@.len() && widths@[p] > 0 && 0 <= i < bits::p2(
                    widths@[p] as nat,
                ) implies entries@[offs@[p] + i] == Entry::Hole by {
                assert(512 <= offs@[p] + i < entries@.len());
            }
        }
        let mut s: usize = 0;
        while s < lengths.len()
            invariant
                s <= lengths@.len(),
                lens == lengths@,
                valid_lens(lens),
                not_over(lens),
                r == 9,
                bits::p2(r) == 512,
                codes@.len() == lengths@.len(),
                forall|k: int|
                    0 <= k < lens.len() && lens[k] > 0 ==> #[trigger] codes@[k] == rev_code(
                        lens,
                        k,
                    ),
                widths_state(widths@, lens, r, lens.len() as int),
                offs@.len() == 512,
                layout(laid, widths@, offs@, r, 512),
                entries@.len() == laid.len(),
                forall|q: int| 0 <= q < 512 ==> #[trigger] entries@[q] == laid[q],
                sub_state(entries@, widths@, offs@, lens, r, s as int),
            decreases lengths@.len() - s,
        {
            let len: u8 = lengths[s];
            if len > 9 {
                let p: usize = (codes[s] % 512) as usize;
                let start: usize = (codes[s] / 512) as usize;
                assert(is_long(lens, r, s as int));
                let w: u32 = widths[p];
                let step: usize = bits::pow2_usize(len as u32 - 9);
                let sub: usize = bits::pow2_usize(w);
                let leaf = Entry::Leaf { sym: s as u16, len };
                let ghost before = entries@;
                proof {
                    lemma_rev_bound(lens, s as int);
                    bits::lemma_p2_add(9, (len - 9) as nat);
                    bits::lemma_p2_mono(w as nat, 6);
                    bits::lemma_p2_mono((len - 9) as nat, 6);
                    bits::lemma_p2_values();
                    assert(start < step) by (nonlinear_arith)
                        requires
                            codes@[s as int] < 512 * step,
                            start == codes@[s as int] / 512,
                    ;
                }
                let off: usize = offs[p];
                fill(entries, off, sub, start, step, leaf);
                proof {
                    lemma_sub_step(
                        before,
                        entries@,
                        widths@,
                        offs@,
                        laid,
                        lens,
                        r,
                        s as int,
                        p as int,
                        leaf,
                    );
                }
            } else {
                assert forall|p: int, i: int| !sub_hit(lens, r, s as int, p, i) by {}
                assert(sub_state(entries@, widths@, offs@, lens, r, s + 1));
            }
            s = s + 1;
        }
        proof {
            assert forall|i: int| 0 <= i < size implies (#[trigger] entries@[i] matches Entry::Link {
                off,
                bits,
            } ==> bits <= 6 && off + bits::p2(bits as nat) <= entries@.len()) by {
                assert(laid[i] == entries@[i]);
                if widths@[i] == 0 {
                    assert(entries@[i] == root_part[i]);
                }
            }
            assert forall|v: nat| #[trigger] entry_right(lens, resolve(entries@, r, v), v) by {
                lemma_two_levels(entries@, root_part, widths@, offs@, laid, lens, r, v);
            }
        }
    }

    /// Decodes one symbol and reads exactly the length of its code.
    pub fn decode(&self, br: &mut BitReader<'_>) -> (r: Result<u16, DeflateError>)
        requires
            self.wf(),
            old(br).wf(),
        ensures
            match r {
                Ok(sym) => decoded(self.lengths(), old(br).rest()) == Ok::<int, DeflateError>(
                    sym as int,
                ) && old(br).moved(final(br), self.lengths()[sym as int] as nat),
                Err(e) => decoded(self.lengths(), old(br).rest()) == Err::<int, DeflateError>(e)
                    && old(br).moved(final(br), 0),
            },
    {
        let ghost rest = br.rest();
        let ghost v = bits::bits_nat(first15(rest));
        let ghost lens = self.lens@;
        let look: usize = br.peek(self.root) as usize;
        let mut e: Entry = Entry::Hole;
        proof {
            lemma_look_mod(rest, self.root as nat);
            bits::lemma_p2_pos(self.root as nat);
            assert(look == v % bits::p2(self.root as nat));
            assert(entry_right(lens, resolve(self.entries@, self.root as nat, v), v));
        }
        e = self.entries[look];
        if let Entry::Link { off, bits } = e {
            let p: u32 = bits::pow2_usize(self.root) as u32;
            let both: u32 = br.peek(self.root + bits);
            let idx: usize = (both / p) as usize;
            proof {
                let root = self.root as nat;
                bits::lemma_p2_mono(root, 9);
                bits::lemma_p2_values();
                lemma_look_mod(rest, root + bits as nat);
                bits::lemma_mod_p2_split(v, root, bits as nat);
                let q = (v / bits::p2(root)) % bits::p2(bits as nat);
                assert(bits::p2(root) * q == q * bits::p2(root)) by (nonlinear_arith);
                lemma_fundamental_div_mod_converse(
                    both as int,
                    bits::p2(root) as int,
                    q as int,
                    (v % bits::p2(root)) as int,
                );
                assert(off + idx < self.entries.len());
            }
            e = self.entries[off + idx];
        }
        match e {
            Entry::Leaf { sym, len } => {
                proof {
                    let t = choose|t: int| finds(lens, rest, t);
                    assert(finds(lens, rest, sym as int));
                    lemma_hit_unique(lens, sym as int, t, v);
                }
                match br.consume(len as u32) {
                    Some(_) => Ok(sym),
                    None => Err(DeflateError::UnexpectedEof),
                }
            },
            _ => Err(DeflateError::InvalidCode),
        }
    }
}

/// How many symbols have a code of at most `l` bits.
spec fn total_upto(lens: Seq<u8>, l: nat) -> nat
    decreases l,
{
    if l == 0 {
        0
    } else {
        total_upto(lens, (l - 1) as nat) + count_len(lens, l)
    }
}

proof fn lemma_total_step(lens: Seq<u8>, l: nat)
    requires
        lens.len() > 0,
    ensures
        total_upto(lens, l) == total_upto(lens.drop_last(), l) + if 1 <= lens.last() <= l {
            1nat
        } else {
            0
        },
    decreases l,
{
    if l > 0 {
        lemma_total_step(lens, (l - 1) as nat);
    }
}

proof fn lemma_total_empty(l: nat)
    ensures
        total_upto(Seq::<u8>::empty(), l) == 0,
    decreases l,
{
    if l > 0 {
        lemma_total_empty((l - 1) as nat);
    }
}

proof fn lemma_total(lens: Seq<u8>)
    requires
        valid_lens(lens),
    ensures
        total_upto(lens, 15) == used_count(lens),
    decreases lens.len(),
{
    if lens.len() == 0 {
        assert(lens =~= Seq::<u8>::empty());
        lemma_total_empty(15);
    } else {
        assert(valid_lens(lens.drop_last()));
        lemma_total(lens.drop_last());
        lemma_total_step(lens, 15);
    }
}

/// With no code longer than the root table, the root table is right.
proof fn lemma_root_only(entries: Seq<Entry>, lens: Seq<u8>, root: nat, v: nat, max: nat)
    requires
        valid_lens(lens),
        root_state(entries, lens, root, lens.len() as int),
        max <= root <= 9,
        forall|k: nat| max < k <= 15 ==> #[trigger] count_len(lens, k) == 0,
        entries.len() >= bits::p2(root),
    ensures
        entry_right(lens, resolve(entries, root, v), v),
{
    bits::lemma_p2_pos(root);
    let i = v % bits::p2(root);
    let e = entries[i as int];
    assert forall|s: int| used(lens, s) implies lens[s] <= root by {
        lemma_rank(lens, s);
        assert(lens[s] > max ==> count_len(lens, lens[s] as nat) == 0);
    }
    assert forall|s: int| used(lens, s) && lens[s] <= root implies (hit(lens, s, v) <==> hit(
        lens,
        s,
        i,
    )) by {
        bits::lemma_mod_p2_mod(v, lens[s] as nat, root);
    }
}

proof fn lemma_sub_step(
    before: Seq<Entry>,
    after: Seq<Entry>,
    widths: Seq<u32>,
    offs: Seq<usize>,
    laid: Seq<Entry>,
    lens: Seq<u8>,
    r: nat,
    s: int,
    p: int,
    leaf: Entry,
)
    requires
        r == 9,
        bits::p2(r) == 512,
        valid_lens(lens),
        is_long(lens, r, s),
        p == rev_code(lens, s) % 512,
        widths_state(widths, lens, r, lens.len() as int),
        layout(laid, widths, offs, r, 512),
        before.len() == laid.len(),
        sub_state(before, widths, offs, lens, r, s),
        leaf == (Entry::Leaf { sym: s as u16, len: lens[s] }),
        after.len() == before.len(),
        forall|j: int|
            0 <= j < before.len() ==> #[trigger] after[j] == if offs[p] <= j < offs[p] + bits::p2(
                widths[p] as nat,
            ) && (j - offs[p]) % (bits::p2(long_tail(lens, r, s)) as int) == rev_code(lens, s)
                / 512 {
                leaf
            } else {
                before[j]
            },
    ensures
        sub_state(after, widths, offs, lens, r, s + 1),
        forall|q: int| 0 <= q < 512 ==> #[trigger] after[q] == before[q],
{
    assert(widths[p] >= long_tail(lens, r, s));
    assert(s as u16 == s);
    assert forall|q: int, i: int|
        #![trigger after[offs[q] + i]]
        0 <= q < widths.len() && widths[q] > 0 && 0 <= i < bits::p2(widths[q] as nat) implies (
    match after[offs[q] + i] {
        Entry::Hole => forall|t: int| t < s + 1 ==> !sub_hit(lens, r, t, q, i),
        Entry::Leaf { sym, len } => (sym as int) < s + 1 && sub_hit(lens, r, sym as int, q, i)
            && lens[sym as int] == len,
        Entry::Link { off, bits } => false,
    }) by {
        let j = offs[q] + i;
        assert(0 <= j < before.len());
        if q == p {
            assert(j - offs[p] == i);
            if after[j] == before[j] {
                assert(before[offs[q] + i] == after[j]);
            }
        } else {
            if q < p {
                assert(offs[q] + bits::p2(widths[q] as nat) <= offs[p]);
            } else {
                assert(offs[p] + bits::p2(widths[p] as nat) <= offs[q]);
            }
            assert(after[j] == before[offs[q] + i]);
            assert(!sub_hit(lens, r, s, q, i));
        }
    }
    assert forall|q: int| 0 <= q < 512 implies #[trigger] after[q] == before[q] by {
        assert(512 <= offs[p]);
    }
}

/// The two tables together are right about every stream.
proof fn lemma_two_levels(
    entries: Seq<Entry>,
    root_part: Seq<Entry>,
    widths: Seq<u32>,
    offs: Seq<usize>,
    laid: Seq<Entry>,
    lens: Seq<u8>,
    r: nat,
    v: nat,
)
    requires
        r == 9,
        bits::p2(r) == 512,
        valid_lens(lens),
        not_over(lens),
        root_state(root_part, lens, r, lens.len() as int),
        widths_state(widths, lens, r, lens.len() as int),
        layout(laid, widths, offs, r, 512),
        entries.len() == laid.len(),
        sub_state(entries, widths, offs, lens, r, lens.len() as int),
        forall|q: int| 0 <= q < 512 ==> #[trigger] entries[q] == laid[q],
        forall|q: int| 0 <= q < 512 && widths[q] == 0 ==> #[trigger] laid[q] == root_part[q],
    ensures
        entry_right(lens, resolve(entries, r, v), v),
{
    let p = (v % 512) as int;
    assert(entries[p] == laid[p]);
    if widths[p] > 0 {
        let w = widths[p] as nat;
        bits::lemma_p2_pos(w);
        let i = ((v / 512) % bits::p2(w)) as int;
        let e = entries[offs[p] + i];
        assert(resolve(entries, r, v) == e);
        assert forall|s: int| is_long(lens, r, s) implies (hit(lens, s, v) <==> sub_hit(
            lens,
            r,
            s,
            p,
            i,
        )) by {
            lemma_long_hit(lens, r, s, v);
            if rev_code(lens, s) % 512 == p {
                assert(w >= long_tail(lens, r, s));
                bits::lemma_mod_p2_mod(v / 512, long_tail(lens, r, s), w);
            }
        }
        let t = choose|t: int| #[trigger]
            is_long(lens, r, t) && rev_code(lens, t) % bits::p2(r) == p;
        assert forall|s: int| hit(lens, s, v) implies is_long(lens, r, s) by {
            if lens[s] <= 9 {
                let x = rev_code(lens, t);
                lemma_rev_bound(lens, t);
                bits::lemma_p2_pos(lens[t] as nat);
                vstd::arithmetic::div_mod::lemma_small_mod(x, bits::p2(lens[t] as nat));
                assert(hit(lens, t, x));
                bits::lemma_mod_p2_mod(v, lens[s] as nat, 9);
                bits::lemma_mod_p2_mod(x, lens[s] as nat, 9);
                assert(hit(lens, s, x));
                lemma_hit_unique(lens, s, t, x);
            }
        }
        match e {
            Entry::Hole => {
                assert forall|s: int| !hit(lens, s, v) by {
                    if hit(lens, s, v) {
                        assert(is_long(lens, r, s));
                        assert(!sub_hit(lens, r, s, p, i));
                    }
                }
            },
            Entry::Leaf { sym, len } => {
                assert(is_long(lens, r, sym as int));
            },
            Entry::Link { off, bits } => {},
        }
    } else {
        assert(entries[p] == root_part[p]);
        assert forall|s: int| used(lens, s) && lens[s] <= 9 implies (hit(lens, s, v) <==> hit(
            lens,
            s,
            p as nat,
        )) by {
            bits::lemma_mod_p2_mod(v, lens[s] as nat, 9);
        }
        assert forall|s: int| hit(lens, s, v) implies lens[s] <= 9 by {
            if lens[s] > 9 {
                assert(is_long(lens, r, s));
                lemma_long_hit(lens, r, s, v);
            }
        }
        assert(root_part[p] is Hole ==> forall|s: int| !hit(lens, s, v)) by {
            assert forall|s: int| root_part[p] is Hole implies !hit(lens, s, v) by {
                if hit(lens, s, v) {
                    assert(hit(lens, s, p as nat));
                }
            }
        }
    }
}

} // verus!
