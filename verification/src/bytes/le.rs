//! Little-endian numbers as byte sequences.
use vstd::prelude::*;

verus! {

/// The number that `s` spells, least significant byte first.
pub open spec fn le_value(s: Seq<u8>) -> nat
    decreases s.len(),
{
    if s.len() == 0 {
        0
    } else {
        s[0] as nat + 256 * le_value(s.drop_first())
    }
}

/// The `n` low bytes of `v`, least significant first.
pub open spec fn le_bytes(v: nat, n: nat) -> Seq<u8>
    decreases n,
{
    if n == 0 {
        Seq::empty()
    } else {
        seq![(v % 256) as u8] + le_bytes(v / 256, (n - 1) as nat)
    }
}

/// How many numbers fit into `n` bytes.
pub open spec fn le_range(n: nat) -> nat
    decreases n,
{
    if n == 0 {
        1
    } else {
        256 * le_range((n - 1) as nat)
    }
}

/// Writing a number that fits into `n` bytes and reading those bytes gives the
/// number back.
pub proof fn lemma_le_round_trip(v: nat, n: nat)
    requires
        v < le_range(n),
    ensures
        le_bytes(v, n).len() == n,
        le_value(le_bytes(v, n)) == v,
    decreases n,
{
    if n > 0 {
        lemma_le_round_trip(v / 256, (n - 1) as nat);
        let s = le_bytes(v, n);
        assert(s.drop_first() =~= le_bytes(v / 256, (n - 1) as nat));
        assert(s[0] as nat == v % 256);
    }
}

pub proof fn lemma_le_value_2(s: Seq<u8>)
    requires
        s.len() == 2,
    ensures
        le_value(s) == s[0] + 256 * s[1],
{
    reveal_with_fuel(le_value, 3);
    assert(s.drop_first()[0] == s[1]);
}

pub proof fn lemma_le_value_4(s: Seq<u8>)
    requires
        s.len() == 4,
    ensures
        le_value(s) == s[0] + 256 * s[1] + 65536 * s[2] + 16777216 * s[3],
{
    let t = s.drop_first().drop_first();
    lemma_le_value_2(t);
    assert(le_value(s) == s[0] as nat + 256 * le_value(s.drop_first()));
    assert(le_value(s.drop_first()) == s[1] as nat + 256 * le_value(t));
}

pub proof fn lemma_le_value_8(s: Seq<u8>)
    requires
        s.len() == 8,
    ensures
        le_value(s) == le_value(s.subrange(0, 4)) + 4294967296 * le_value(s.subrange(4, 8)),
{
    let s1 = s.drop_first();
    let s2 = s1.drop_first();
    let s3 = s2.drop_first();
    let s4 = s3.drop_first();
    assert(s4 =~= s.subrange(4, 8));
    assert(le_value(s) == s[0] as nat + 256 * le_value(s1));
    assert(le_value(s1) == s[1] as nat + 256 * le_value(s2));
    assert(le_value(s2) == s[2] as nat + 256 * le_value(s3));
    assert(le_value(s3) == s[3] as nat + 256 * le_value(s4));
    lemma_le_value_4(s.subrange(0, 4));
}

pub proof fn lemma_le_bytes_2(v: nat)
    ensures
        le_bytes(v, 2) == seq![(v % 256) as u8, (v / 256 % 256) as u8],
{
    reveal_with_fuel(le_bytes, 3);
    assert(le_bytes(v, 2) =~= seq![(v % 256) as u8, (v / 256 % 256) as u8]);
}

pub proof fn lemma_le_bytes_4(v: nat)
    ensures
        le_bytes(v, 4) == seq![
            (v % 256) as u8,
            (v / 256 % 256) as u8,
            (v / 65536 % 256) as u8,
            (v / 16777216 % 256) as u8,
        ],
{
    lemma_le_bytes_2(v / 65536);
    assert(v / 256 / 256 == v / 65536);
    assert(v / 65536 / 256 == v / 16777216);
    assert(le_bytes(v, 4) =~= seq![(v % 256) as u8] + le_bytes(v / 256, 3));
    assert(le_bytes(v / 256, 3) =~= seq![(v / 256 % 256) as u8] + le_bytes(v / 65536, 2));
    assert(le_bytes(v, 4) =~= seq![
        (v % 256) as u8,
        (v / 256 % 256) as u8,
        (v / 65536 % 256) as u8,
        (v / 16777216 % 256) as u8,
    ]);
}

/// The bytes of a number split: the low ones, then those of the quotient.
pub proof fn lemma_le_bytes_split(v: nat, n: nat, m: nat)
    ensures
        le_range(n) > 0,
        le_bytes(v, n + m) == le_bytes(v, n) + le_bytes(v / le_range(n), m),
    decreases n,
{
    if n == 0 {
        assert(v / 1 == v);
        assert(le_bytes(v, 0) + le_bytes(v, m) =~= le_bytes(v, m));
    } else {
        lemma_le_bytes_split(v / 256, (n - 1) as nat, m);
        let r = le_range((n - 1) as nat);
        vstd::arithmetic::div_mod::lemma_div_denominator(v as int, 256, r as int);
        assert((n + m - 1) as nat == (n - 1) as nat + m);
        assert(le_bytes(v, n + m) =~= seq![(v % 256) as u8] + le_bytes(
            v / 256,
            (n - 1) as nat + m,
        ));
        assert(le_bytes(v, n) + le_bytes(v / le_range(n), m) =~= seq![(v % 256) as u8] + (le_bytes(
            v / 256,
            (n - 1) as nat,
        ) + le_bytes(v / 256 / r, m)));
    }
}

pub proof fn lemma_le_bytes_8(v: nat)
    ensures
        le_bytes(v, 8) == le_bytes(v, 4) + le_bytes(v / 4294967296, 4),
{
    reveal_with_fuel(le_range, 5);
    lemma_le_bytes_split(v, 4, 4);
}

} // verus!
