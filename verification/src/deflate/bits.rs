//! Bit sequences and the numbers they spell, least significant bit first.
use vstd::prelude::*;
use vstd::arithmetic::div_mod::lemma_fundamental_div_mod_converse;

verus! {

/// Two to the power `n`.
pub open spec fn p2(n: nat) -> nat
    decreases n,
{
    if n == 0 {
        1
    } else {
        2 * p2((n - 1) as nat)
    }
}

/// The `n` low bits of `v`, least significant first.
pub open spec fn nat_bits(v: nat, n: nat) -> Seq<bool>
    decreases n,
{
    if n == 0 {
        Seq::empty()
    } else {
        seq![v % 2 == 1] + nat_bits(v / 2, (n - 1) as nat)
    }
}

/// The number that `s` spells, least significant bit first.
pub open spec fn bits_nat(s: Seq<bool>) -> nat
    decreases s.len(),
{
    if s.len() == 0 {
        0
    } else {
        (if s[0] {
            1nat
        } else {
            0
        }) + 2 * bits_nat(s.drop_first())
    }
}

/// The eight bits of a byte.
pub open spec fn byte_bits(b: u8) -> Seq<bool> {
    nat_bits(b as nat, 8)
}

/// The bits of a byte sequence, in the order of the stream.
pub open spec fn bytes_bits(b: Seq<u8>) -> Seq<bool> {
    Seq::new(8 * b.len(), |i: int| byte_bits(b[i / 8])[i % 8])
}

/// The bytes that bits spell.
pub open spec fn bits_bytes(s: Seq<bool>) -> Seq<u8> {
    Seq::new(s.len() / 8, |i: int| bits_nat(s.subrange(8 * i, 8 * i + 8)) as u8)
}

/// `n` clear bits.
pub open spec fn zeros(n: nat) -> Seq<bool> {
    Seq::new(n, |i: int| false)
}

pub proof fn lemma_p2_pos(n: nat)
    ensures
        p2(n) > 0,
    decreases n,
{
    if n > 0 {
        lemma_p2_pos((n - 1) as nat);
    }
}

pub proof fn lemma_p2_add(a: nat, b: nat)
    ensures
        p2(a + b) == p2(a) * p2(b),
    decreases a,
{
    if a == 0 {
        assert(1 * p2(b) == p2(b));
    } else {
        lemma_p2_add((a - 1) as nat, b);
        assert((a + b - 1) as nat == (a - 1) as nat + b);
        assert((2 * p2((a - 1) as nat)) * p2(b) == 2 * (p2((a - 1) as nat) * p2(b)))
            by (nonlinear_arith);
    }
}

pub proof fn lemma_p2_mono(a: nat, b: nat)
    requires
        a <= b,
    ensures
        p2(a) <= p2(b),
    decreases b,
{
    if a < b {
        lemma_p2_mono(a, (b - 1) as nat);
    }
}

pub proof fn lemma_p2_values()
    ensures
        p2(0) == 1,
        p2(1) == 2,
        p2(2) == 4,
        p2(3) == 8,
        p2(4) == 16,
        p2(5) == 32,
        p2(6) == 64,
        p2(7) == 128,
        p2(8) == 256,
        p2(9) == 512,
        p2(10) == 1024,
        p2(11) == 2048,
        p2(12) == 4096,
        p2(13) == 8192,
        p2(14) == 16384,
        p2(15) == 32768,
        p2(16) == 65536,
{
    reveal_with_fuel(p2, 17);
}

pub proof fn lemma_p2_large()
    ensures
        p2(32) == 4294967296,
        p2(40) == 1099511627776,
        p2(56) == 72057594037927936,
        p2(57) == 144115188075855872,
        p2(64) == 18446744073709551616,
{
    lemma_p2_values();
    lemma_p2_add(16, 16);
    lemma_p2_add(8, 32);
    lemma_p2_add(16, 40);
    lemma_p2_add(1, 56);
    lemma_p2_add(8, 56);
}

proof fn lemma_shl_step(n: u64)
    by (bit_vector)
    requires
        0 < n < 64,
    ensures
        1u64 << n == 2 * (1u64 << ((n - 1) as u64)),
        1u64 << 0u64 == 1,
{
}

proof fn lemma_shl_is_p2(n: u64)
    requires
        n < 64,
    ensures
        (1u64 << n) == p2(n as nat),
    decreases n,
{
    if n == 0 {
        lemma_shl_step(1);
    } else {
        lemma_shl_step(n);
        lemma_shl_is_p2((n - 1) as u64);
    }
}

/// Two to the power `n`.
pub fn pow2_u64(n: u32) -> (r: u64)
    requires
        n < 64,
    ensures
        r == p2(n as nat),
        r > 0,
{
    proof {
        lemma_shl_is_p2(n as u64);
        lemma_p2_pos(n as nat);
    }
    1u64 << (n as u64)
}

/// Two to the power `n`, for table sizes.
pub fn pow2_usize(n: u32) -> (r: usize)
    requires
        n <= 16,
    ensures
        r == p2(n as nat),
        0 < r <= 65536,
{
    proof {
        lemma_p2_mono(n as nat, 16);
        lemma_p2_values();
    }
    pow2_u64(n) as usize
}

pub proof fn lemma_nat_bits_len(v: nat, n: nat)
    ensures
        nat_bits(v, n).len() == n,
    decreases n,
{
    if n > 0 {
        lemma_nat_bits_len(v / 2, (n - 1) as nat);
    }
}

pub proof fn lemma_bits_nat_bound(s: Seq<bool>)
    ensures
        bits_nat(s) < p2(s.len()),
    decreases s.len(),
{
    if s.len() > 0 {
        lemma_bits_nat_bound(s.drop_first());
    }
}

/// Bits of a number and back: the low bits of the number.
pub proof fn lemma_nat_bits_value(v: nat, n: nat)
    ensures
        bits_nat(nat_bits(v, n)) == v % p2(n),
        p2(n) > 0,
    decreases n,
{
    if n == 0 {
        assert(v % 1 == 0);
    } else {
        let m = (n - 1) as nat;
        lemma_nat_bits_value(v / 2, m);
        lemma_p2_pos(m);
        assert(nat_bits(v, n).drop_first() =~= nat_bits(v / 2, m));
        // v % (2 * q) == v % 2 + 2 * (v / 2 % q)
        vstd::arithmetic::div_mod::lemma_mod_breakdown(v as int, 2, p2(m) as int);
    }
}

/// A bit sequence is the bits of its number.
pub proof fn lemma_bits_nat_inverse(s: Seq<bool>)
    ensures
        nat_bits(bits_nat(s), s.len()) == s,
    decreases s.len(),
{
    if s.len() > 0 {
        let t = s.drop_first();
        lemma_bits_nat_inverse(t);
        let v = bits_nat(s);
        assert(v / 2 == bits_nat(t));
        assert(seq![v % 2 == 1] + t =~= s);
    } else {
        assert(nat_bits(bits_nat(s), 0) =~= s);
    }
}

pub proof fn lemma_nat_bits_concat(a: nat, n: nat, b: nat, m: nat)
    requires
        a < p2(n),
    ensures
        nat_bits(a + p2(n) * b, n + m) == nat_bits(a, n) + nat_bits(b, m),
    decreases n,
{
    if n == 0 {
        assert(1 * b == b);
        assert(nat_bits(a, 0) + nat_bits(b, m) =~= nat_bits(b, m));
    } else {
        let k = (n - 1) as nat;
        let v = a + p2(n) * b;
        assert(p2(n) * b == 2 * (p2(k) * b)) by (nonlinear_arith)
            requires
                p2(n) == 2 * p2(k),
        ;
        assert(v / 2 == a / 2 + p2(k) * b);
        assert(v % 2 == a % 2);
        lemma_nat_bits_concat(a / 2, k, b, m);
        assert((n + m - 1) as nat == k + m);
        assert(nat_bits(v, n + m) =~= seq![a % 2 == 1] + (nat_bits(a / 2, k) + nat_bits(b, m)));
        assert(nat_bits(a, n) + nat_bits(b, m) =~= seq![a % 2 == 1] + (nat_bits(a / 2, k)
            + nat_bits(b, m)));
    }
}

pub proof fn lemma_bits_nat_concat(s: Seq<bool>, t: Seq<bool>)
    ensures
        bits_nat(s + t) == bits_nat(s) + p2(s.len()) * bits_nat(t),
    decreases s.len(),
{
    if s.len() == 0 {
        assert(s + t =~= t);
        assert(1 * bits_nat(t) == bits_nat(t));
    } else {
        let s1 = s.drop_first();
        lemma_bits_nat_concat(s1, t);
        assert((s + t).drop_first() =~= s1 + t);
        assert(p2(s.len()) * bits_nat(t) == 2 * (p2(s1.len()) * bits_nat(t))) by (nonlinear_arith)
            requires
                p2(s.len()) == 2 * p2(s1.len()),
        ;
    }
}

/// Cutting a bit sequence is dividing its number.
pub proof fn lemma_bits_nat_cut(s: Seq<bool>, n: nat)
    requires
        n <= s.len(),
    ensures
        p2(n) > 0,
        bits_nat(s.take(n as int)) == bits_nat(s) % p2(n),
        bits_nat(s.skip(n as int)) == bits_nat(s) / p2(n),
{
    let a = s.take(n as int);
    let b = s.skip(n as int);
    assert(a + b =~= s);
    lemma_bits_nat_concat(a, b);
    lemma_bits_nat_bound(a);
    lemma_p2_pos(n);
    assert(p2(n) * bits_nat(b) == bits_nat(b) * p2(n)) by (nonlinear_arith);
    lemma_fundamental_div_mod_converse(
        bits_nat(s) as int,
        p2(n) as int,
        bits_nat(b) as int,
        bits_nat(a) as int,
    );
}

pub proof fn lemma_nat_bits_cut(v: nat, n: nat, k: nat)
    requires
        k <= n,
    ensures
        nat_bits(v, n) == nat_bits(v, k) + nat_bits(v / p2(k), (n - k) as nat),
    decreases k,
{
    if k == 0 {
        assert(v / 1 == v);
        assert(nat_bits(v, 0) + nat_bits(v, n) =~= nat_bits(v, n));
    } else {
        let j = (k - 1) as nat;
        lemma_nat_bits_cut(v / 2, (n - 1) as nat, j);
        lemma_p2_pos(j);
        vstd::arithmetic::div_mod::lemma_div_denominator(v as int, 2, p2(j) as int);
        assert((n - 1 - j) as nat == (n - k) as nat);
        assert(nat_bits(v, n) =~= nat_bits(v, k) + nat_bits(v / p2(k), (n - k) as nat));
    }
}

/// Only the low bits of a number count.
pub proof fn lemma_nat_bits_mod(v: nat, n: nat)
    ensures
        p2(n) > 0,
        nat_bits(v % p2(n), n) == nat_bits(v, n),
{
    lemma_nat_bits_value(v, n);
    lemma_nat_bits_len(v, n);
    lemma_bits_nat_inverse(nat_bits(v, n));
}

pub proof fn lemma_nat_bits_zero(n: nat)
    ensures
        nat_bits(0, n) == zeros(n),
    decreases n,
{
    if n > 0 {
        lemma_nat_bits_zero((n - 1) as nat);
    }
    assert(nat_bits(0, n) =~= zeros(n));
}

pub proof fn lemma_byte_bits_len(b: u8)
    ensures
        byte_bits(b).len() == 8,
        bits_nat(byte_bits(b)) == b,
{
    lemma_nat_bits_len(b as nat, 8);
    lemma_nat_bits_value(b as nat, 8);
    lemma_p2_values();
}

pub proof fn lemma_bytes_bits_concat(a: Seq<u8>, b: Seq<u8>)
    ensures
        bytes_bits(a + b) == bytes_bits(a) + bytes_bits(b),
{
    assert(bytes_bits(a + b) =~= bytes_bits(a) + bytes_bits(b));
}

pub proof fn lemma_bytes_bits_one(b: u8)
    ensures
        bytes_bits(seq![b]) == byte_bits(b),
{
    lemma_byte_bits_len(b);
    assert(bytes_bits(seq![b]) =~= byte_bits(b));
}

pub proof fn lemma_bytes_bits_push(a: Seq<u8>, b: u8)
    ensures
        bytes_bits(a.push(b)) == bytes_bits(a) + byte_bits(b),
{
    lemma_bytes_bits_one(b);
    assert(a.push(b) =~= a + seq![b]);
    lemma_bytes_bits_concat(a, seq![b]);
}

pub proof fn lemma_bytes_bits_sub(a: Seq<u8>, i: nat, j: nat)
    requires
        i <= j <= a.len(),
    ensures
        bytes_bits(a).subrange(8 * i as int, 8 * j as int) == bytes_bits(
            a.subrange(i as int, j as int),
        ),
{
    assert(bytes_bits(a).subrange(8 * i as int, 8 * j as int) =~= bytes_bits(
        a.subrange(i as int, j as int),
    ));
}

/// The bits of bytes spell them.
pub proof fn lemma_bits_bytes(b: Seq<u8>)
    ensures
        bits_bytes(bytes_bits(b)) == b,
{
    let s = bytes_bits(b);
    assert forall|i: int| 0 <= i < b.len() implies #[trigger] bits_bytes(s)[i] == b[i] by {
        lemma_byte_bits_len(b[i]);
        assert(s.subrange(8 * i, 8 * i + 8) =~= byte_bits(b[i])) by {
            assert forall|k: int| 0 <= k < 8 implies #[trigger] s.subrange(8 * i, 8 * i + 8)[k]
                == byte_bits(b[i])[k] by {
                assert((8 * i + k) / 8 == i && (8 * i + k) % 8 == k);
            }
        }
        lemma_nat_bits_value(b[i] as nat, 8);
        lemma_p2_values();
    }
    assert(bits_bytes(s) =~= b);
}

/// Two byte sequences with the same bits are the same.
pub proof fn lemma_bytes_bits_inj(a: Seq<u8>, b: Seq<u8>)
    requires
        bytes_bits(a) == bytes_bits(b),
    ensures
        a == b,
{
    assert(bytes_bits(a).len() == 8 * a.len() && bytes_bits(b).len() == 8 * b.len());
    assert forall|i: int| 0 <= i < a.len() implies a[i] == b[i] by {
        lemma_bytes_bits_sub(a, i as nat, (i + 1) as nat);
        lemma_bytes_bits_sub(b, i as nat, (i + 1) as nat);
        assert(a.subrange(i, i + 1) =~= seq![a[i]]);
        assert(b.subrange(i, i + 1) =~= seq![b[i]]);
        lemma_bytes_bits_one(a[i]);
        lemma_bytes_bits_one(b[i]);
        lemma_byte_bits_len(a[i]);
        lemma_byte_bits_len(b[i]);
    }
    assert(a =~= b);
}

/// What is read from behind `before` out of a stream into which the low `n`
/// bits of `v` were written there is `v` cut to `n` bits.
pub proof fn lemma_bits_round_trip(before: Seq<bool>, v: nat, n: nat, after: Seq<bool>)
    ensures
        ({
            let stream = before + nat_bits(v, n) + after;
            bits_nat(stream.subrange(before.len() as int, (before.len() + n) as int)) == v % p2(n)
        }),
{
    lemma_nat_bits_len(v, n);
    lemma_nat_bits_value(v, n);
    let stream = before + nat_bits(v, n) + after;
    assert(stream.subrange(before.len() as int, (before.len() + n) as int) =~= nat_bits(v, n));
}

pub proof fn lemma_mod_p2_mod(v: nat, a: nat, b: nat)
    requires
        a <= b,
    ensures
        p2(a) > 0,
        p2(b) > 0,
        (v % p2(b)) % p2(a) == v % p2(a),
{
    lemma_p2_pos(a);
    lemma_p2_pos(b);
    lemma_p2_pos((b - a) as nat);
    lemma_p2_add(a, (b - a) as nat);
    vstd::arithmetic::div_mod::lemma_mod_mod(v as int, p2(a) as int, p2((b - a) as nat) as int);
}

/// The low `a + b` bits of a number: the low `a`, then `b` of the quotient.
pub proof fn lemma_mod_p2_split(v: nat, a: nat, b: nat)
    ensures
        p2(a) > 0,
        p2(b) > 0,
        v % p2(a + b) == v % p2(a) + p2(a) * ((v / p2(a)) % p2(b)),
{
    lemma_p2_pos(a);
    lemma_p2_pos(b);
    lemma_p2_add(a, b);
    vstd::arithmetic::div_mod::lemma_mod_breakdown(v as int, p2(a) as int, p2(b) as int);
}

} // verus!
