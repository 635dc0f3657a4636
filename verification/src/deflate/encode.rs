//! The DEFLATE encoder (RFC 1951).
//!
//! For each block the cost of the stored, the fixed and the dynamic form is
//! computed exactly, and the cheapest is written: a dynamic header alone takes
//! dozens of bytes, which a short input would not earn back.
use vstd::prelude::*;

use crate::deflate::bits;
use crate::deflate::bitwriter;
use crate::deflate::bitwriter::BitWriter;
use crate::deflate::huffman;
use crate::deflate::inflate;
use crate::deflate::inflate::{Fail, St};
use crate::deflate::lz77;
use crate::deflate::lz77::{Config, Lz77, Token};
use crate::deflate::rle;
use crate::deflate::tables;
use crate::deflate::tables::{
    CLEN_ORDER, DIST_BASE, DIST_EXTRA, LENGTH_BASE, LENGTH_EXTRA, NUM_CLEN,
};
use crate::deflate::tree;
use crate::deflate::Level;

verus! {

/// The longest code of DEFLATE.
pub const MAX_CODE_BITS: usize = 15;

/// The longest code of the code length alphabet.
pub const MAX_CLEN_BITS: usize = 7;

/// The longest stored block.
const STORED_MAX: usize = 65_535;

/// The greatest index up to `i` whose length base does not exceed `len`.
pub open spec fn len_code_from(len: nat, i: nat) -> nat
    decreases i,
{
    if i == 0 || LENGTH_BASE@[i as int] <= len {
        i
    } else {
        len_code_from(len, (i - 1) as nat)
    }
}

/// The length code of a match length, counted from 257.
pub open spec fn len_code(len: nat) -> nat {
    len_code_from(len, 28)
}

/// The greatest index up to `i` whose distance base does not exceed `dist`.
pub open spec fn dist_code_from(dist: nat, i: nat) -> nat
    decreases i,
{
    if i == 0 || DIST_BASE@[i as int] <= dist {
        i
    } else {
        dist_code_from(dist, (i - 1) as nat)
    }
}

/// The distance code of a distance.
pub open spec fn dist_code(dist: nat) -> nat {
    dist_code_from(dist, 29)
}

proof fn lemma_len_code_from(len: nat, i: nat)
    requires
        i <= 28,
        len >= 3,
        i == 28 || len < LENGTH_BASE@[i as int + 1],
    ensures
        ({
            let c = len_code_from(len, i);
            &&& c <= i
            &&& LENGTH_BASE@[c as int] <= len
            &&& c == 28 || len < LENGTH_BASE@[c as int + 1]
        }),
    decreases i,
{
    if !(i == 0 || LENGTH_BASE@[i as int] <= len) {
        lemma_len_code_from(len, (i - 1) as nat);
    }
}

proof fn lemma_dist_code_from(dist: nat, i: nat)
    requires
        i <= 29,
        dist >= 1,
        i == 29 || dist < DIST_BASE@[i as int + 1],
    ensures
        ({
            let c = dist_code_from(dist, i);
            &&& c <= i
            &&& DIST_BASE@[c as int] <= dist
            &&& c == 29 || dist < DIST_BASE@[c as int + 1]
        }),
    decreases i,
{
    if !(i == 0 || DIST_BASE@[i as int] <= dist) {
        lemma_dist_code_from(dist, (i - 1) as nat);
    }
}

/// Every match length lies in the range of its code.
pub proof fn lemma_len_code(len: nat)
    requires
        3 <= len <= 258,
    ensures
        len_code(len) <= 28,
        LENGTH_BASE@[len_code(len) as int] <= len,
        len < LENGTH_BASE@[len_code(len) as int] + bits::p2(
            LENGTH_EXTRA@[len_code(len) as int] as nat,
        ),
{
    lemma_len_code_from(len, 28);
    bits::lemma_p2_values();
    let c = len_code(len) as int;
    assert(c == 28 || LENGTH_BASE@[c + 1] <= LENGTH_BASE@[c] + bits::p2(LENGTH_EXTRA@[c] as nat));
}

/// Every distance lies in the range of its code.
pub proof fn lemma_dist_code(dist: nat)
    requires
        1 <= dist <= 32768,
    ensures
        dist_code(dist) <= 29,
        DIST_BASE@[dist_code(dist) as int] <= dist,
        dist < DIST_BASE@[dist_code(dist) as int] + bits::p2(
            DIST_EXTRA@[dist_code(dist) as int] as nat,
        ),
{
    lemma_dist_code_from(dist, 29);
    bits::lemma_p2_values();
    let c = dist_code(dist) as int;
    assert(c == 29 || DIST_BASE@[c + 1] <= DIST_BASE@[c] + bits::p2(DIST_EXTRA@[c] as nat));
}

/// The length code of a match length, counted from 257.
pub fn len_index(len: usize) -> (r: usize)
    requires
        3 <= len <= 258,
    ensures
        r == len_code(len as nat),
        r <= 28,
        LENGTH_BASE@[r as int] <= len < LENGTH_BASE@[r as int] + bits::p2(
            LENGTH_EXTRA@[r as int] as nat,
        ),
{
    proof {
        lemma_len_code(len as nat);
    }
    let mut i: usize = 28;
    while i > 0 && LENGTH_BASE[i] as usize > len
        invariant
            i <= 28,
            len_code_from(len as nat, i as nat) == len_code(len as nat),
        decreases i,
    {
        i = i - 1;
    }
    i
}

/// The distance code of a distance.
pub fn dist_index(dist: usize) -> (r: usize)
    requires
        1 <= dist <= 32768,
    ensures
        r == dist_code(dist as nat),
        r <= 29,
        DIST_BASE@[r as int] <= dist < DIST_BASE@[r as int] + bits::p2(
            DIST_EXTRA@[r as int] as nat,
        ),
{
    proof {
        lemma_dist_code(dist as nat);
    }
    let mut i: usize = 29;
    while i > 0 && DIST_BASE[i] as usize > dist
        invariant
            i <= 29,
            dist_code_from(dist as nat, i as nat) == dist_code(dist as nat),
        decreases i,
    {
        i = i - 1;
    }
    i
}

/// The bits of one token under the two codes.
pub open spec fn token_bits(lit: Seq<u8>, dist: Seq<u8>, t: Token) -> Seq<bool> {
    if t.back() == 0 {
        huffman::codeword(lit, t.amount() as int)
    } else {
        let li = len_code(t.amount()) as int;
        let di = dist_code(t.back()) as int;
        huffman::codeword(lit, 257 + li) + bits::nat_bits(
            (t.amount() - LENGTH_BASE@[li]) as nat,
            LENGTH_EXTRA@[li] as nat,
        ) + huffman::codeword(dist, di) + bits::nat_bits(
            (t.back() - DIST_BASE@[di]) as nat,
            DIST_EXTRA@[di] as nat,
        )
    }
}

/// The bits of tokens under the two codes.
pub open spec fn tokens_bits(lit: Seq<u8>, dist: Seq<u8>, tokens: Seq<Token>) -> Seq<bool>
    decreases tokens.len(),
{
    if tokens.len() == 0 {
        Seq::empty()
    } else {
        tokens_bits(lit, dist, tokens.drop_last()) + token_bits(lit, dist, tokens.last())
    }
}

/// The bits of the tokens of a block and of its end.
pub open spec fn body_bits(lit: Seq<u8>, dist: Seq<u8>, tokens: Seq<Token>) -> Seq<bool> {
    tokens_bits(lit, dist, tokens) + huffman::codeword(lit, 256)
}

/// A token that DEFLATE can express.
pub open spec fn expressible(t: Token) -> bool {
    if t.back() == 0 {
        t.amount() < 256
    } else {
        3 <= t.amount() <= 258 && t.back() <= 32768
    }
}

pub open spec fn all_expressible(tokens: Seq<Token>) -> bool {
    forall|i: int| 0 <= i < tokens.len() ==> expressible(#[trigger] tokens[i])
}

/// The two codes have a word for everything that a token needs.
pub open spec fn covers(lit: Seq<u8>, dist: Seq<u8>, t: Token) -> bool {
    if t.back() == 0 {
        huffman::used(lit, t.amount() as int)
    } else {
        huffman::used(lit, 257 + len_code(t.amount()) as int) && huffman::used(
            dist,
            dist_code(t.back()) as int,
        )
    }
}

pub open spec fn covers_all(lit: Seq<u8>, dist: Seq<u8>, tokens: Seq<Token>) -> bool {
    &&& huffman::used(lit, 256)
    &&& forall|i: int| 0 <= i < tokens.len() ==> covers(lit, dist, #[trigger] tokens[i])
}

/// `b` stands in the stream of `src` at `at`.
pub open spec fn stands(src: Seq<u8>, at: nat, b: Seq<bool>) -> bool {
    &&& at + b.len() <= bits::bytes_bits(src).len()
    &&& bits::bytes_bits(src).subrange(at as int, (at + b.len()) as int) == b
}

proof fn lemma_stands_split(src: Seq<u8>, at: nat, a: Seq<bool>, b: Seq<bool>)
    requires
        stands(src, at, a + b),
    ensures
        stands(src, at, a),
        stands(src, at + a.len(), b),
{
    let s = bits::bytes_bits(src);
    let w = s.subrange(at as int, (at + (a + b).len()) as int);
    assert(s.subrange(at as int, (at + a.len()) as int) =~= w.take(a.len() as int));
    assert((a + b).take(a.len() as int) =~= a);
    assert(s.subrange((at + a.len()) as int, (at + a.len() + b.len()) as int) =~= w.skip(
        a.len() as int,
    ));
    assert((a + b).skip(a.len() as int) =~= b);
}

/// Bits that were written are read back.
proof fn lemma_read(src: Seq<u8>, st: St, v: nat, n: nat)
    requires
        stands(src, st.at, bits::nat_bits(v, n)),
        v < bits::p2(n),
    ensures
        inflate::read(src, st, n) == Ok::<(nat, St), Fail>((v, St { at: st.at + n, ..st })),
{
    bits::lemma_nat_bits_len(v, n);
    bits::lemma_nat_bits_value(v, n);
    vstd::arithmetic::div_mod::lemma_small_mod(v, bits::p2(n));
}

/// A codeword that was written is read back as its symbol.
proof fn lemma_read_sym(src: Seq<u8>, lens: Seq<u8>, st: St, s: int)
    requires
        huffman::valid_lens(lens),
        huffman::not_over(lens),
        huffman::used(lens, s),
        stands(src, st.at, huffman::codeword(lens, s)),
    ensures
        huffman::codeword(lens, s).len() == lens[s],
        inflate::read_sym(src, lens, st) == Ok::<(int, St), Fail>(
            (s, St { at: st.at + lens[s] as nat, ..st }),
        ),
{
    huffman::lemma_msb_len(huffman::code_of(lens, s), lens[s] as nat);
    let rest = bits::bytes_bits(src).skip(st.at as int);
    assert(rest.take(lens[s] as int) =~= huffman::codeword(lens, s)) by {
        assert(rest.take(lens[s] as int) =~= bits::bytes_bits(src).subrange(
            st.at as int,
            (st.at + lens[s]) as int,
        ));
    }
    huffman::lemma_decode_codeword(lens, rest, s);
}

/// A token that was written is decoded.
#[verifier::spinoff_prover]
proof fn lemma_decode_token(src: Seq<u8>, lit: Seq<u8>, dist: Seq<u8>, st: St, t: Token)
    requires
        huffman::valid_lens(lit),
        huffman::valid_lens(dist),
        huffman::not_over(lit),
        huffman::not_over(dist),
        expressible(t),
        t.back() <= st.out.len(),
        covers(lit, dist, t),
        stands(src, st.at, token_bits(lit, dist, t)),
    ensures
        inflate::one_symbol(src, lit, dist, None, st) == Ok::<(bool, St), Fail>(
            (
                false,
                St {
                    at: st.at + token_bits(lit, dist, t).len(),
                    out: lz77::expand_one(st.out, t),
                    check: st.check,
                },
            ),
        ),
{
    if t.back() == 0 {
        lemma_read_sym(src, lit, st, t.amount() as int);
    } else {
        let li = len_code(t.amount()) as int;
        let di = dist_code(t.back()) as int;
        let a = huffman::codeword(lit, 257 + li);
        let b = bits::nat_bits(
            (t.amount() - LENGTH_BASE@[li]) as nat,
            LENGTH_EXTRA@[li] as nat,
        );
        let c = huffman::codeword(dist, di);
        let d = bits::nat_bits((t.back() - DIST_BASE@[di]) as nat, DIST_EXTRA@[di] as nat);
        lemma_len_code(t.amount());
        lemma_dist_code(t.back());
        lemma_stands_split(src, st.at, a + b + c, d);
        lemma_stands_split(src, st.at, a + b, c);
        lemma_stands_split(src, st.at, a, b);
        lemma_read_sym(src, lit, st, 257 + li);
        let st1 = St { at: st.at + a.len(), ..st };
        lemma_read(
            src,
            st1,
            (t.amount() - LENGTH_BASE@[li]) as nat,
            LENGTH_EXTRA@[li] as nat,
        );
        bits::lemma_nat_bits_len(
            (t.amount() - LENGTH_BASE@[li]) as nat,
            LENGTH_EXTRA@[li] as nat,
        );
        let st2 = St { at: st1.at + b.len(), ..st1 };
        lemma_read_sym(src, dist, st2, di);
        let st3 = St { at: st2.at + c.len(), ..st2 };
        lemma_read(src, st3, (t.back() - DIST_BASE@[di]) as nat, DIST_EXTRA@[di] as nat);
        bits::lemma_nat_bits_len((t.back() - DIST_BASE@[di]) as nat, DIST_EXTRA@[di] as nat);
        let st4 = St { at: st3.at + d.len(), ..st3 };
        assert(inflate::copy_back(st4, t.amount(), t.back()) == Ok::<St, Fail>(
            St { out: lz77::expand_one(st.out, t), ..st4 },
        ));
        assert(inflate::match_tail(src, dist, None, st2, t.amount()) == Ok::<St, Fail>(
            St { out: lz77::expand_one(st.out, t), ..st4 },
        ));
        assert(token_bits(lit, dist, t).len() == a.len() + b.len() + c.len() + d.len());
    }
}

/// The first `i` tokens are decoded.
proof fn lemma_decode_tokens(
    src: Seq<u8>,
    lit: Seq<u8>,
    dist: Seq<u8>,
    st: St,
    tokens: Seq<Token>,
    i: nat,
)
    requires
        i <= tokens.len(),
        huffman::valid_lens(lit),
        huffman::valid_lens(dist),
        huffman::not_over(lit),
        huffman::not_over(dist),
        lz77::tokens_ok(st.out, tokens),
        covers_all(lit, dist, tokens),
        stands(src, st.at, body_bits(lit, dist, tokens)),
    ensures
        ({
            let part = tokens.take(i as int);
            let mid = St {
                at: st.at + tokens_bits(lit, dist, part).len(),
                out: lz77::expand(st.out, part),
                check: st.check,
            };
            &&& mid.at <= 8 * src.len()
            &&& inflate::symbols(src, lit, dist, None, st) == inflate::symbols(
                src,
                lit,
                dist,
                None,
                mid,
            )
            &&& stands(src, st.at, tokens_bits(lit, dist, part))
        }),
    decreases i,
{
    let part = tokens.take(i as int);
    lemma_stands_split(
        src,
        st.at,
        tokens_bits(lit, dist, tokens),
        huffman::codeword(lit, 256),
    );
    lemma_bits_prefix(lit, dist, tokens, i);
    let whole = tokens_bits(lit, dist, tokens);
    let pb = tokens_bits(lit, dist, part);
    assert(whole =~= pb + whole.skip(pb.len() as int));
    lemma_stands_split(src, st.at, pb, whole.skip(pb.len() as int));
    if i == 0 {
        assert(part =~= Seq::<Token>::empty());
        assert(st == (St { at: st.at + 0, out: lz77::expand(st.out, part), check: st.check }));
    } else {
        let j = (i - 1) as nat;
        lemma_decode_tokens(src, lit, dist, st, tokens, j);
        let before = tokens.take(j as int);
        let t = tokens[j as int];
        assert(part.drop_last() =~= before);
        assert(part.last() == t);
        lemma_tokens_ok_take(st.out, tokens, i);
        let mid = St {
            at: st.at + tokens_bits(lit, dist, before).len(),
            out: lz77::expand(st.out, before),
            check: st.check,
        };
        lemma_stands_split(
            src,
            st.at,
            tokens_bits(lit, dist, before),
            token_bits(lit, dist, t),
        );
        lemma_decode_token(src, lit, dist, mid, t);
    }
}

proof fn lemma_tokens_ok_take(out: Seq<u8>, tokens: Seq<Token>, i: nat)
    requires
        lz77::tokens_ok(out, tokens),
        i <= tokens.len(),
    ensures
        lz77::tokens_ok(out, tokens.take(i as int)),
    decreases tokens.len(),
{
    if i == tokens.len() {
        assert(tokens.take(i as int) =~= tokens);
    } else {
        lemma_tokens_ok_take(out, tokens.drop_last(), i);
        assert(tokens.drop_last().take(i as int) =~= tokens.take(i as int));
    }
}

proof fn lemma_bits_prefix(lit: Seq<u8>, dist: Seq<u8>, tokens: Seq<Token>, i: nat)
    requires
        i <= tokens.len(),
    ensures
        ({
            let pb = tokens_bits(lit, dist, tokens.take(i as int));
            let whole = tokens_bits(lit, dist, tokens);
            pb.len() <= whole.len() && whole.take(pb.len() as int) == pb
        }),
    decreases tokens.len(),
{
    if i == tokens.len() {
        assert(tokens.take(i as int) =~= tokens);
        let whole = tokens_bits(lit, dist, tokens);
        assert(whole.take(whole.len() as int) =~= whole);
    } else {
        let shorter = tokens.drop_last();
        lemma_bits_prefix(lit, dist, shorter, i);
        assert(shorter.take(i as int) =~= tokens.take(i as int));
        let pb = tokens_bits(lit, dist, tokens.take(i as int));
        let whole = tokens_bits(lit, dist, tokens);
        assert(whole.take(pb.len() as int) =~= tokens_bits(lit, dist, shorter).take(
            pb.len() as int,
        ));
    }
}

proof fn lemma_ok_means_expressible(out: Seq<u8>, tokens: Seq<Token>)
    requires
        lz77::tokens_ok(out, tokens),
    ensures
        all_expressible(tokens),
    decreases tokens.len(),
{
    if tokens.len() > 0 {
        lemma_ok_means_expressible(out, tokens.drop_last());
        assert forall|i: int| 0 <= i < tokens.len() implies expressible(#[trigger] tokens[i]) by {
            if i < tokens.len() - 1 {
                assert(tokens.drop_last()[i] == tokens[i]);
            }
        }
    }
}

/// The body of a block is decoded to what its tokens expand to.
proof fn lemma_decode_body(src: Seq<u8>, lit: Seq<u8>, dist: Seq<u8>, st: St, tokens: Seq<Token>)
    requires
        huffman::valid_lens(lit),
        huffman::valid_lens(dist),
        huffman::not_over(lit),
        huffman::not_over(dist),
        lz77::tokens_ok(st.out, tokens),
        covers_all(lit, dist, tokens),
        stands(src, st.at, body_bits(lit, dist, tokens)),
    ensures
        inflate::symbols(src, lit, dist, None, st) == Ok::<St, Fail>(
            St {
                at: st.at + body_bits(lit, dist, tokens).len(),
                out: lz77::expand(st.out, tokens),
                check: st.check,
            },
        ),
{
    let n = tokens.len();
    lemma_decode_tokens(src, lit, dist, st, tokens, n);
    assert(tokens.take(n as int) =~= tokens);
    lemma_stands_split(
        src,
        st.at,
        tokens_bits(lit, dist, tokens),
        huffman::codeword(lit, 256),
    );
    let mid = St {
        at: st.at + tokens_bits(lit, dist, tokens).len(),
        out: lz77::expand(st.out, tokens),
        check: st.check,
    };
    lemma_read_sym(src, lit, mid, 256);
}

/// The cost of symbols with the given frequencies under the given lengths.
pub open spec fn cost(freq: Seq<u32>, lens: Seq<u8>) -> nat
    decreases freq.len(),
{
    if freq.len() == 0 {
        0
    } else {
        cost(freq.drop_last(), lens) + freq.last() as nat * lens[freq.len() - 1] as nat
    }
}

proof fn lemma_cost_bump(freq: Seq<u32>, lens: Seq<u8>, s: int)
    requires
        0 <= s < freq.len(),
        freq[s] < u32::MAX,
    ensures
        cost(freq.update(s, (freq[s] + 1) as u32), lens) == cost(freq, lens) + lens[s],
    decreases freq.len(),
{
    let f2 = freq.update(s, (freq[s] + 1) as u32);
    if s == freq.len() - 1 {
        assert(f2.drop_last() =~= freq.drop_last());
        let a = freq[s] as nat;
        let b = lens[s] as nat;
        assert((a + 1) * b == a * b + b) by (nonlinear_arith);
    } else {
        assert(f2.drop_last() =~= freq.drop_last().update(s, (freq[s] + 1) as u32));
        lemma_cost_bump(freq.drop_last(), lens, s);
    }
}

proof fn lemma_cost_zero(freq: Seq<u32>, lens: Seq<u8>)
    requires
        forall|i: int| 0 <= i < freq.len() ==> #[trigger] freq[i] == 0,
    ensures
        cost(freq, lens) == 0,
    decreases freq.len(),
{
    if freq.len() > 0 {
        assert forall|i: int| 0 <= i < freq.len() - 1 implies #[trigger] freq.drop_last()[i] == 0 by {
            assert(freq[i] == 0);
        }
        lemma_cost_zero(freq.drop_last(), lens);
    }
}

/// Frequencies with one symbol counted once more.
pub open spec fn bumped(freq: Seq<u32>, s: int) -> Seq<u32> {
    freq.update(s, (freq[s] + 1) as u32)
}

/// How often each symbol of the literal alphabet stands in a block. The end of
/// the block stands there once.
pub open spec fn lit_freq(tokens: Seq<Token>) -> Seq<u32>
    decreases tokens.len(),
{
    if tokens.len() == 0 {
        Seq::new(286, |s: int| 0u32).update(256, 1)
    } else {
        let t = tokens.last();
        bumped(
            lit_freq(tokens.drop_last()),
            if t.back() == 0 {
                t.amount() as int
            } else {
                257 + len_code(t.amount()) as int
            },
        )
    }
}

/// How often each symbol of the distance alphabet stands in a block.
pub open spec fn dist_freq(tokens: Seq<Token>) -> Seq<u32>
    decreases tokens.len(),
{
    if tokens.len() == 0 {
        Seq::new(30, |s: int| 0u32)
    } else if tokens.last().back() == 0 {
        dist_freq(tokens.drop_last())
    } else {
        bumped(dist_freq(tokens.drop_last()), dist_code(tokens.last().back()) as int)
    }
}

/// The literal code of a dynamic block.
pub open spec fn lit_lens(tokens: Seq<Token>) -> Seq<u8> {
    tree::lengths_of(tree::forced(lit_freq(tokens)), 15)
}

/// The distance code of a dynamic block.
pub open spec fn dist_lens(tokens: Seq<Token>) -> Seq<u8> {
    tree::lengths_of(tree::forced(dist_freq(tokens)), 15)
}

/// The symbol frequencies of a block.
#[derive(Debug)]
struct Freqs {
    lit: Vec<u32>,
    dist: Vec<u32>,
    /// The extra bits of lengths and distances: the same under any code.
    extra: u64,
}

/// The cost of a block body under two codes is what its frequencies say.
spec fn freqs_cost(f: Freqs, tokens: Seq<Token>, lit: Seq<u8>, dist: Seq<u8>) -> bool {
    body_bits(lit, dist, tokens).len() == f.extra + cost(f.lit@, lit) + cost(f.dist@, dist)
}

/// Frequencies of the symbols of `tokens`.
spec fn freqs_ok(f: Freqs, tokens: Seq<Token>) -> bool {
    &&& f.lit@ == lit_freq(tokens)
    &&& f.dist@ == dist_freq(tokens)
    &&& f.lit@.len() == 286
    &&& f.dist@.len() == 30
    &&& forall|s: int| 0 <= s < 286 ==> #[trigger] f.lit@[s] <= tokens.len() + 1
    &&& forall|s: int| 0 <= s < 30 ==> #[trigger] f.dist@[s] <= tokens.len()
    &&& f.extra <= 18 * tokens.len()
    &&& f.lit@[256] >= 1
    &&& forall|i: int|
        0 <= i < tokens.len() ==> {
            let t = #[trigger] tokens[i];
            if t.back() == 0 {
                f.lit@[t.amount() as int] >= 1
            } else {
                f.lit@[257 + len_code(t.amount()) as int] >= 1 && f.dist@[dist_code(
                    t.back(),
                ) as int] >= 1
            }
        }
    &&& forall|lit: Seq<u8>, dist: Seq<u8>| #[trigger] freqs_cost(f, tokens, lit, dist)
}

proof fn lemma_token_len(lit: Seq<u8>, dist: Seq<u8>, t: Token)
    ensures
        token_bits(lit, dist, t).len() == if t.back() == 0 {
            lit[t.amount() as int] as nat
        } else {
            lit[257 + len_code(t.amount()) as int] as nat + LENGTH_EXTRA@[len_code(
                t.amount(),
            ) as int] as nat + dist[dist_code(t.back()) as int] as nat + DIST_EXTRA@[dist_code(
                t.back(),
            ) as int] as nat
        },
{
    if t.back() == 0 {
        let s = t.amount() as int;
        huffman::lemma_msb_len(huffman::code_of(lit, s), lit[s] as nat);
    } else {
        let li = len_code(t.amount()) as int;
        let di = dist_code(t.back()) as int;
        huffman::lemma_msb_len(huffman::code_of(lit, 257 + li), lit[257 + li] as nat);
        huffman::lemma_msb_len(huffman::code_of(dist, di), dist[di] as nat);
        bits::lemma_nat_bits_len(
            (t.amount() - LENGTH_BASE@[li]) as nat,
            LENGTH_EXTRA@[li] as nat,
        );
        bits::lemma_nat_bits_len((t.back() - DIST_BASE@[di]) as nat, DIST_EXTRA@[di] as nat);
    }
}

impl Freqs {
    #[verifier::spinoff_prover]
    fn count(tokens: &Vec<Token>) -> (f: Self)
        requires
            all_expressible(tokens@),
            tokens@.len() <= 65535,
        ensures
            freqs_ok(f, tokens@),
    {
        let mut f = Freqs {
            lit: vec![0u32; 286],
            dist: vec![0u32; 30],
            extra: 0,
        };
        let ghost zero_lit = f.lit@;
        // The end of the block stands in every compressed block once.
        f.lit[256] = 1;
        proof {
            assert(tokens@.take(0) =~= Seq::<Token>::empty());
            assert(f.lit@ =~= lit_freq(tokens@.take(0)));
            assert(f.dist@ =~= dist_freq(tokens@.take(0)));
            assert forall|lit: Seq<u8>, dist: Seq<u8>| #[trigger] freqs_cost(
                f,
                tokens@.take(0),
                lit,
                dist,
            ) by {
                lemma_cost_zero(zero_lit, lit);
                lemma_cost_zero(f.dist@, dist);
                lemma_cost_bump(zero_lit, lit, 256);
                huffman::lemma_msb_len(huffman::code_of(lit, 256), lit[256] as nat);
                assert(tokens@.take(0) =~= Seq::<Token>::empty());
            }
        }
        let mut i: usize = 0;
        while i < tokens.len()
            invariant
                i <= tokens@.len() <= 65535,
                all_expressible(tokens@),
                freqs_ok(f, tokens@.take(i as int)),
            decreases tokens@.len() - i,
        {
            let t: Token = tokens[i];
            let d: usize = t.dist() as usize;
            let v: usize = t.value() as usize;
            let ghost f0 = f;
            let ghost before = tokens@.take(i as int);
            let ghost after = tokens@.take(i + 1);
            assert(expressible(tokens@[i as int]));
            assert(after.drop_last() =~= before);
            assert(after.last() == t);
            if d == 0 {
                assert(f.lit@[v as int] <= i + 1);
                f.lit[v] = f.lit[v] + 1;
                proof {
                    assert forall|lit: Seq<u8>, dist: Seq<u8>| #[trigger] freqs_cost(
                        f,
                        after,
                        lit,
                        dist,
                    ) by {
                        assert(freqs_cost(f0, before, lit, dist));
                        lemma_cost_bump(f0.lit@, lit, v as int);
                        lemma_token_len(lit, dist, t);
                    }
                }
            } else {
                let li: usize = len_index(v);
                let di: usize = dist_index(d);
                assert(f.lit@[257 + li as int] <= i + 1);
                assert(f.dist@[di as int] <= i);
                f.lit[257 + li] = f.lit[257 + li] + 1;
                f.dist[di] = f.dist[di] + 1;
                assert(LENGTH_EXTRA@[li as int] <= 5 && DIST_EXTRA@[di as int] <= 13);
                f.extra = f.extra + LENGTH_EXTRA[li] as u64 + DIST_EXTRA[di] as u64;
                proof {
                    assert forall|lit: Seq<u8>, dist: Seq<u8>| #[trigger] freqs_cost(
                        f,
                        after,
                        lit,
                        dist,
                    ) by {
                        assert(freqs_cost(f0, before, lit, dist));
                        lemma_cost_bump(f0.lit@, lit, 257 + li as int);
                        lemma_cost_bump(f0.dist@, dist, di as int);
                        lemma_token_len(lit, dist, t);
                    }
                }
            }
            proof {
                assert forall|s: int| 0 <= s < 286 implies #[trigger] f.lit@[s] <= after.len() + 1
                    && f.lit@[s] >= f0.lit@[s] by {
                    assert(f0.lit@[s] <= before.len() + 1);
                }
                assert forall|s: int| 0 <= s < 30 implies #[trigger] f.dist@[s] <= after.len()
                    && f.dist@[s] >= f0.dist@[s] by {
                    assert(f0.dist@[s] <= before.len());
                }
                assert forall|k: int| 0 <= k < after.len() implies ({
                    let t = #[trigger] after[k];
                    if t.back() == 0 {
                        f.lit@[t.amount() as int] >= 1
                    } else {
                        f.lit@[257 + len_code(t.amount()) as int] >= 1 && f.dist@[dist_code(
                            t.back(),
                        ) as int] >= 1
                    }
                }) by {
                    assert(expressible(tokens@[k]));
                    if k < i {
                        assert(before[k] == after[k]);
                        if after[k].back() > 0 {
                            lemma_len_code(after[k].amount());
                            lemma_dist_code(after[k].back());
                        }
                    }
                }
            }
            i = i + 1;
        }
        assert(tokens@.take(i as int) =~= tokens@);
        f
    }
}

/// The lengths and codes of one alphabet.
#[derive(Debug)]
struct Alphabet {
    lens: Vec<u8>,
    codes: Vec<u32>,
}

impl Alphabet {
    spec fn wf(&self) -> bool {
        &&& huffman::valid_lens(self.lens@)
        &&& huffman::not_over(self.lens@)
        &&& self.codes@.len() == self.lens@.len()
        &&& forall|s: int|
            0 <= s < self.lens@.len() && self.lens@[s] > 0 ==> #[trigger] self.codes@[s]
                == huffman::rev_code(self.lens@, s)
    }

    fn from_lens(lens: Vec<u8>) -> (r: Self)
        requires
            huffman::valid_lens(lens@),
            huffman::not_over(lens@),
        ensures
            r.wf(),
            r.lens@ == lens@,
    {
        let codes = huffman::canonical_codes(lens.as_slice());
        Alphabet { lens, codes }
    }

    /// Writes the codeword of a symbol; nothing for a symbol without a code.
    fn put(&self, bw: &mut BitWriter, sym: usize)
        requires
            self.wf(),
            old(bw).wf(),
            sym < self.lens@.len(),
        ensures
            final(bw).wf(),
            final(bw)@ == old(bw)@ + huffman::codeword(self.lens@, sym as int),
    {
        let len: u8 = self.lens[sym];
        let code: u32 = self.codes[sym];
        proof {
            let w = huffman::codeword(self.lens@, sym as int);
            huffman::lemma_msb_len(huffman::code_of(self.lens@, sym as int), len as nat);
            bits::lemma_bits_nat_inverse(w);
            if len == 0 {
                assert(bits::nat_bits(code as nat, 0) =~= w);
            }
        }
        bw.write_bits(code, len as u32);
    }
}

/// The two codes of a dynamic block.
#[derive(Debug)]
struct Trees {
    lit: Alphabet,
    dist: Alphabet,
}

spec fn trees_ok(t: Trees, tokens: Seq<Token>) -> bool {
    &&& t.lit.wf()
    &&& t.dist.wf()
    &&& t.lit.lens@.len() == 286
    &&& t.dist.lens@.len() == 30
    &&& huffman::complete(t.lit.lens@)
    &&& huffman::complete(t.dist.lens@)
    &&& covers_all(t.lit.lens@, t.dist.lens@, tokens)
    &&& t.lit.lens@ == lit_lens(tokens)
    &&& t.dist.lens@ == dist_lens(tokens)
}

impl Trees {
    fn build(freqs: &Freqs, Ghost(tokens): Ghost<Seq<Token>>) -> (r: Self)
        requires
            freqs_ok(*freqs, tokens),
            all_expressible(tokens),
        ensures
            trees_ok(r, tokens),
    {
        let mut lit_freq: Vec<u32> = freqs.lit.clone();
        let mut dist_freq: Vec<u32> = freqs.dist.clone();
        assert(lit_freq@ =~= freqs.lit@);
        assert(dist_freq@ =~= freqs.dist@);
        tree::force_two_symbols(&mut lit_freq);
        tree::force_two_symbols(&mut dist_freq);
        proof {
            bits::lemma_p2_values();
            tree::lemma_positive_bound(lit_freq@);
            tree::lemma_positive_bound(dist_freq@);
        }
        let lit_lens = tree::code_lengths(&lit_freq, MAX_CODE_BITS);
        let dist_lens = tree::code_lengths(&dist_freq, MAX_CODE_BITS);
        proof {
            assert forall|i: int| 0 <= i < 286 && freqs.lit@[i] >= 1 implies #[trigger] lit_lens@[i]
                > 0 by {
                assert(lit_freq@[i] > 0);
            }
            assert forall|i: int|
                0 <= i < 30 && freqs.dist@[i] >= 1 implies #[trigger] dist_lens@[i] > 0 by {
                assert(dist_freq@[i] > 0);
            }
            assert forall|i: int| 0 <= i < tokens.len() implies covers(
                lit_lens@,
                dist_lens@,
                #[trigger] tokens[i],
            ) by {
                let t = tokens[i];
                assert(expressible(t));
                if t.back() > 0 {
                    lemma_len_code(t.amount());
                    lemma_dist_code(t.back());
                    assert(lit_lens@[257 + len_code(t.amount()) as int] > 0);
                    assert(dist_lens@[dist_code(t.back()) as int] > 0);
                } else {
                    assert(lit_lens@[t.amount() as int] > 0);
                }
            }
            assert(lit_lens@[256] > 0);
        }
        Trees { lit: Alphabet::from_lens(lit_lens), dist: Alphabet::from_lens(dist_lens) }
    }
}

/// The lengths of the code length alphabet, in the order of the format.
pub open spec fn order_bits(lens: Seq<u8>, n: nat) -> Seq<bool>
    decreases n,
{
    if n == 0 {
        Seq::empty()
    } else {
        order_bits(lens, (n - 1) as nat) + bits::nat_bits(
            lens[CLEN_ORDER@[n - 1] as int] as nat,
            3,
        )
    }
}

/// The bits of run-length operations.
pub open spec fn ops_bits(lens: Seq<u8>, ops: Seq<(u8, u8, u8)>) -> Seq<bool>
    decreases ops.len(),
{
    if ops.len() == 0 {
        Seq::empty()
    } else {
        ops_bits(lens, ops.drop_last()) + huffman::codeword(lens, ops.last().0 as int)
            + bits::nat_bits(ops.last().1 as nat, ops.last().2 as nat)
    }
}

/// How often each symbol of the code length alphabet stands in a header.
pub open spec fn op_freq(ops: Seq<(u8, u8, u8)>) -> Seq<u32> {
    Seq::new(19, |s: int| rle::held(rle::op_count(ops, s)) as u32)
}

/// The code of the code lengths.
pub open spec fn clen_lens(ops: Seq<(u8, u8, u8)>) -> Seq<u8> {
    tree::lengths_of(tree::forced(op_freq(ops)), 7)
}

/// How many lengths of that code are written, of the first `n`: a tail of zeros
/// is not, but four are in any case.
pub open spec fn order_used(lens: Seq<u8>, n: nat) -> nat
    decreases n,
{
    if n <= 4 || lens[CLEN_ORDER@[n - 1] as int] != 0 {
        n
    } else {
        order_used(lens, (n - 1) as nat)
    }
}

/// The code lengths of a dynamic block, folded into operations.
pub open spec fn header_ops(lit: Seq<u8>, dist: Seq<u8>) -> Seq<(u8, u8, u8)> {
    rle::folded(
        lit.take(rle::used_len(lit, 257) as int) + dist.take(rle::used_len(dist, 1) as int),
    )
}

/// The header of a dynamic block with two codes.
pub open spec fn codes_bits(lit: Seq<u8>, dist: Seq<u8>) -> Seq<bool> {
    let ops = header_ops(lit, dist);
    let clen = clen_lens(ops);
    let hclen = order_used(clen, 19);
    bits::nat_bits((rle::used_len(lit, 257) - 257) as nat, 5) + bits::nat_bits(
        (rle::used_len(dist, 1) - 1) as nat,
        5,
    ) + bits::nat_bits((hclen - 4) as nat, 4) + order_bits(clen, hclen) + ops_bits(clen, ops)
}

/// The header of a dynamic block.
#[derive(Debug)]
struct Header {
    hlit: usize,
    hdist: usize,
    hclen: usize,
    /// The code lengths as operations of the code length alphabet.
    ops: Vec<(u8, u8, u8)>,
    clen: Alphabet,
    /// The length of the header in bits, without the three of the block type.
    bits: u64,
}

spec fn header_bits(h: Header) -> Seq<bool> {
    bits::nat_bits((h.hlit - 257) as nat, 5) + bits::nat_bits((h.hdist - 1) as nat, 5)
        + bits::nat_bits((h.hclen - 4) as nat, 4) + order_bits(h.clen.lens@, h.hclen as nat)
        + ops_bits(h.clen.lens@, h.ops@)
}

spec fn header_ok(h: Header, t: Trees) -> bool {
    &&& 257 <= h.hlit <= 286
    &&& 1 <= h.hdist <= 30
    &&& 4 <= h.hclen <= 19
    &&& forall|i: int| h.hlit <= i < 286 ==> #[trigger] t.lit.lens@[i] == 0
    &&& forall|i: int| h.hdist <= i < 30 ==> #[trigger] t.dist.lens@[i] == 0
    &&& rle::ops_ok(h.ops@)
    &&& rle::rle_expand(h.ops@) == t.lit.lens@.take(h.hlit as int) + t.dist.lens@.take(
        h.hdist as int,
    )
    &&& h.clen.wf()
    &&& h.clen.lens@.len() == 19
    &&& huffman::complete(h.clen.lens@)
    &&& forall|i: int| 0 <= i < 19 ==> #[trigger] h.clen.lens@[i] <= 7
    &&& forall|i: int|
        h.hclen <= i < 19 ==> h.clen.lens@[#[trigger] CLEN_ORDER@[i] as int] == 0
    &&& forall|i: int| 0 <= i < h.ops@.len() ==> huffman::used(h.clen.lens@, (#[trigger] h.ops@[i]).0 as int)
    &&& h.bits == header_bits(h).len()
    &&& h.bits <= 100000
    &&& header_bits(h) == codes_bits(t.lit.lens@, t.dist.lens@)
}

proof fn lemma_order_len(lens: Seq<u8>, n: nat)
    ensures
        order_bits(lens, n).len() == 3 * n,
    decreases n,
{
    if n > 0 {
        lemma_order_len(lens, (n - 1) as nat);
        bits::lemma_nat_bits_len(lens[CLEN_ORDER@[n - 1] as int] as nat, 3);
    }
}

proof fn lemma_op_used(ops: Seq<(u8, u8, u8)>, i: int)
    requires
        0 <= i < ops.len(),
    ensures
        rle::op_count(ops, ops[i].0 as int) >= 1,
    decreases ops.len(),
{
    if i < ops.len() - 1 {
        lemma_op_used(ops.drop_last(), i);
    }
}

proof fn lemma_ops_ok_each(ops: Seq<(u8, u8, u8)>, i: int)
    requires
        rle::ops_ok(ops),
        0 <= i < ops.len(),
    ensures
        ops[i].0 <= 18,
        ops[i].2 == rle::extra_width(ops[i].0),
    decreases ops.len(),
{
    if i < ops.len() - 1 {
        lemma_ops_ok_each(ops.drop_last(), i);
    }
}

impl Header {
    #[verifier::spinoff_prover]
    #[verifier::rlimit(60)]
    fn build(trees: &Trees, Ghost(tokens): Ghost<Seq<Token>>) -> (h: Self)
        requires
            trees_ok(*trees, tokens),
        ensures
            header_ok(h, *trees),
    {
        let hlit: usize = rle::used_upto(trees.lit.lens.as_slice(), 257);
        let hdist: usize = rle::used_upto(trees.dist.lens.as_slice(), 1);
        let mut seq: Vec<u8> = Vec::with_capacity(hlit + hdist);
        seq.extend_from_slice(vstd::slice::slice_subrange(trees.lit.lens.as_slice(), 0, hlit));
        seq.extend_from_slice(vstd::slice::slice_subrange(trees.dist.lens.as_slice(), 0, hdist));
        assert(seq@ =~= trees.lit.lens@.take(hlit as int) + trees.dist.lens@.take(hdist as int));
        assert forall|i: int| 0 <= i < seq@.len() implies #[trigger] seq@[i] <= 15 by {}
        let (ops, counts) = rle::rle_lengths(seq.as_slice());
        let mut clen_freq: Vec<u32> = counts;
        let ghost freq0 = clen_freq@;
        proof {
            assert forall|s: int| 0 <= s < 19 implies #[trigger] freq0[s] == rle::op_count(ops@, s) by {
                rle::lemma_op_count_bound(ops@, s);
            }
            assert(freq0 =~= op_freq(ops@));
        }
        tree::force_two_symbols(&mut clen_freq);
        proof {
            bits::lemma_p2_values();
            tree::lemma_positive_bound(clen_freq@);
        }
        let clen_lens = tree::code_lengths(&clen_freq, MAX_CLEN_BITS);
        proof {
            assert forall|i: int| 0 <= i < ops@.len() implies huffman::used(
                clen_lens@,
                (#[trigger] ops@[i]).0 as int,
            ) by {
                lemma_ops_ok_each(ops@, i);
                lemma_op_used(ops@, i);
                let s = ops@[i].0 as int;
                assert(freq0[s] >= 1);
                assert(clen_freq@[s] > 0);
                assert(clen_lens@[s] > 0);
            }
        }
        // A tail of zeros is not written.
        let mut hclen: usize = NUM_CLEN;
        while hclen > 4 && clen_lens[CLEN_ORDER[hclen - 1] as usize] == 0
            invariant
                4 <= hclen <= 19,
                clen_lens@.len() == 19,
                order_used(clen_lens@, 19) == order_used(clen_lens@, hclen as nat),
                forall|i: int| 0 <= i < 19 ==> #[trigger] CLEN_ORDER@[i] < 19,
                forall|i: int|
                    hclen <= i < 19 ==> clen_lens@[#[trigger] CLEN_ORDER@[i] as int] == 0,
            decreases hclen,
        {
            hclen = hclen - 1;
        }
        let clen = Alphabet::from_lens(clen_lens);
        let mut bits: u64 = 14 + 3 * hclen as u64;
        let mut i: usize = 0;
        assert(ops@.take(0) =~= Seq::<(u8, u8, u8)>::empty());
        while i < ops.len()
            invariant
                i <= ops@.len() <= 316,
                clen.wf(),
                clen.lens@.len() == 19,
                hclen <= 19,
                rle::ops_ok(ops@),
                bits == 14 + 3 * hclen + ops_bits(clen.lens@, ops@.take(i as int)).len(),
                bits <= 71 + 300 * i,
            decreases ops@.len() - i,
        {
            let (sym, value, width) = ops[i];
            proof {
                lemma_ops_ok_each(ops@, i as int);
                let part = ops@.take(i + 1);
                assert(part.drop_last() =~= ops@.take(i as int));
                huffman::lemma_msb_len(
                    huffman::code_of(clen.lens@, sym as int),
                    clen.lens@[sym as int] as nat,
                );
                bits::lemma_nat_bits_len(value as nat, width as nat);
            }
            bits = bits + clen.lens[sym as usize] as u64 + width as u64;
            i = i + 1;
        }
        assert(ops@.take(i as int) =~= ops@);
        let h = Header { hlit, hdist, hclen, ops, clen, bits };
        proof {
            lemma_order_len(h.clen.lens@, hclen as nat);
            bits::lemma_nat_bits_len((hlit - 257) as nat, 5);
            bits::lemma_nat_bits_len((hdist - 1) as nat, 5);
            bits::lemma_nat_bits_len((hclen - 4) as nat, 4);
        }
        h
    }

    fn emit(&self, bw: &mut BitWriter, Ghost(t): Ghost<Trees>)
        requires
            header_ok(*self, t),
            old(bw).wf(),
        ensures
            final(bw).wf(),
            final(bw)@ == old(bw)@ + header_bits(*self),
    {
        let ghost start = bw@;
        let ghost lens = self.clen.lens@;
        bw.write_bits((self.hlit - 257) as u32, 5);
        bw.write_bits((self.hdist - 1) as u32, 5);
        bw.write_bits((self.hclen - 4) as u32, 4);
        let ghost counts = bw@;
        let mut i: usize = 0;
        assert(counts + order_bits(lens, 0) =~= counts);
        while i < self.hclen
            invariant
                i <= self.hclen <= 19,
                bw.wf(),
                self.clen.lens@ == lens,
                lens.len() == 19,
                bw@ == counts + order_bits(lens, i as nat),
            decreases self.hclen - i,
        {
            let l: u8 = self.clen.lens[CLEN_ORDER[i] as usize];
            bw.write_bits(l as u32, 3);
            i = i + 1;
            assert(bw@ =~= counts + order_bits(lens, i as nat));
        }
        let ghost ordered = bw@;
        let mut i: usize = 0;
        assert(self.ops@.take(0) =~= Seq::<(u8, u8, u8)>::empty());
        assert(ordered + ops_bits(lens, self.ops@.take(0)) =~= ordered);
        while i < self.ops.len()
            invariant
                i <= self.ops@.len(),
                bw.wf(),
                self.clen.wf(),
                self.clen.lens@ == lens,
                lens.len() == 19,
                rle::ops_ok(self.ops@),
                bw@ == ordered + ops_bits(lens, self.ops@.take(i as int)),
            decreases self.ops@.len() - i,
        {
            let (sym, value, width) = self.ops[i];
            proof {
                lemma_ops_ok_each(self.ops@, i as int);
                assert(self.ops@.take(i + 1).drop_last() =~= self.ops@.take(i as int));
            }
            let ghost before = ops_bits(lens, self.ops@.take(i as int));
            self.clen.put(bw, sym as usize);
            bw.write_bits(value as u32, width as u32);
            i = i + 1;
            assert(bw@ =~= ordered + ops_bits(lens, self.ops@.take(i as int)));
        }
        assert(self.ops@.take(i as int) =~= self.ops@);
        assert(bw@ =~= start + header_bits(*self));
    }
}

/// Where in the written order the length of symbol `s` stands.
spec fn clen_place(s: int) -> int {
    if s == 0 {
        3
    } else if s == 1 {
        17
    } else if s == 2 {
        15
    } else if s == 3 {
        13
    } else if s == 4 {
        11
    } else if s == 5 {
        9
    } else if s == 6 {
        7
    } else if s == 7 {
        5
    } else if s == 8 {
        4
    } else if s == 9 {
        6
    } else if s == 10 {
        8
    } else if s == 11 {
        10
    } else if s == 12 {
        12
    } else if s == 13 {
        14
    } else if s == 14 {
        16
    } else if s == 15 {
        18
    } else {
        s - 16
    }
}

/// What is known of the code length code once `i` lengths were read.
spec fn clen_read(lens: Seq<u8>, got: Seq<u8>, i: nat) -> bool {
    &&& got.len() == 19
    &&& forall|s: int|
        0 <= s < 19 ==> #[trigger] got[s] == if clen_place(s) < i {
            lens[s]
        } else {
            0
        }
}

proof fn lemma_order(s: int, i: int)
    requires
        0 <= s < 19,
        0 <= i < 19,
    ensures
        0 <= clen_place(s) < 19,
        CLEN_ORDER@[clen_place(s)] == s,
        CLEN_ORDER@[i] < 19,
        clen_place(CLEN_ORDER@[i] as int) == i,
{
}

/// The lengths of the code length code are read back.
proof fn lemma_decode_clen(src: Seq<u8>, st: St, lens: Seq<u8>, hclen: nat, i: nat, got: Seq<u8>)
    requires
        i <= hclen <= 19,
        lens.len() == 19,
        forall|s: int| 0 <= s < 19 ==> #[trigger] lens[s] <= 7,
        forall|k: int| hclen <= k < 19 ==> lens[#[trigger] CLEN_ORDER@[k] as int] == 0,
        clen_read(lens, got, i),
        st.at >= 3 * i,
        stands(src, (st.at - 3 * i) as nat, order_bits(lens, hclen)),
    ensures
        inflate::clen_lengths(src, st, i, hclen, got) == Ok::<(Seq<u8>, St), Fail>(
            (lens, St { at: (st.at + 3 * (hclen - i)) as nat, ..st }),
        ),
    decreases hclen - i,
{
    if i == hclen {
        assert forall|s: int| 0 <= s < 19 implies got[s] == lens[s] by {
            lemma_order(s, clen_place(s));
            if clen_place(s) >= hclen {
                assert(lens[CLEN_ORDER@[clen_place(s)] as int] == 0);
            }
        }
        assert(got =~= lens);
    } else {
        let p = CLEN_ORDER@[i as int] as int;
        lemma_order(0, i as int);
        let v = lens[p] as nat;
        lemma_order_at(src, (st.at - 3 * i) as nat, lens, hclen, i);
        bits::lemma_p2_values();
        lemma_read(src, st, v, 3);
        let got1 = got.update(p, v as u8);
        assert(clen_read(lens, got1, i + 1)) by {
            assert forall|s: int| 0 <= s < 19 implies #[trigger] got1[s] == if clen_place(s) < i
                + 1 {
                lens[s]
            } else {
                0
            } by {
                lemma_order(s, i as int);
                assert(got[s] == if clen_place(s) < i {
                    lens[s]
                } else {
                    0
                });
            }
        }
        lemma_decode_clen(src, St { at: st.at + 3, ..st }, lens, hclen, i + 1, got1);
    }
}

proof fn lemma_order_at(src: Seq<u8>, at: nat, lens: Seq<u8>, n: nat, i: nat)
    requires
        i < n,
        stands(src, at, order_bits(lens, n)),
    ensures
        stands(src, at + 3 * i, bits::nat_bits(lens[CLEN_ORDER@[i as int] as int] as nat, 3)),
    decreases n,
{
    let last = bits::nat_bits(lens[CLEN_ORDER@[n - 1] as int] as nat, 3);
    lemma_stands_split(src, at, order_bits(lens, (n - 1) as nat), last);
    lemma_order_len(lens, (n - 1) as nat);
    if i < n - 1 {
        lemma_order_at(src, at, lens, (n - 1) as nat, i);
    }
}

proof fn lemma_rle_grows(ops: Seq<(u8, u8, u8)>, i: nat)
    requires
        i <= ops.len(),
    ensures
        rle::rle_expand(ops.take(i as int)).len() + (ops.len() - i) <= rle::rle_expand(ops).len(),
    decreases ops.len(),
{
    if i == ops.len() {
        assert(ops.take(i as int) =~= ops);
    } else {
        lemma_rle_grows(ops.drop_last(), i);
        assert(ops.drop_last().take(i as int) =~= ops.take(i as int));
    }
}

proof fn lemma_ops_ok_take(ops: Seq<(u8, u8, u8)>, i: nat)
    requires
        rle::ops_ok(ops),
        i <= ops.len(),
    ensures
        rle::ops_ok(ops.take(i as int)),
    decreases ops.len(),
{
    if i == ops.len() {
        assert(ops.take(i as int) =~= ops);
    } else {
        lemma_ops_ok_take(ops.drop_last(), i);
        assert(ops.drop_last().take(i as int) =~= ops.take(i as int));
    }
}

proof fn lemma_ops_prefix(lens: Seq<u8>, ops: Seq<(u8, u8, u8)>, i: nat)
    requires
        i <= ops.len(),
    ensures
        ({
            let pb = ops_bits(lens, ops.take(i as int));
            let whole = ops_bits(lens, ops);
            pb.len() <= whole.len() && whole.take(pb.len() as int) == pb
        }),
    decreases ops.len(),
{
    let whole = ops_bits(lens, ops);
    if i == ops.len() {
        assert(ops.take(i as int) =~= ops);
        assert(whole.take(whole.len() as int) =~= whole);
    } else {
        let shorter = ops.drop_last();
        lemma_ops_prefix(lens, shorter, i);
        assert(shorter.take(i as int) =~= ops.take(i as int));
        let pb = ops_bits(lens, ops.take(i as int));
        assert(whole.take(pb.len() as int) =~= ops_bits(lens, shorter).take(pb.len() as int));
    }
}

/// One run-length operation is read back.
proof fn lemma_decode_op(
    src: Seq<u8>,
    lens: Seq<u8>,
    st: St,
    op: (u8, u8, u8),
    acc: Seq<u8>,
    total: nat,
)
    requires
        huffman::valid_lens(lens),
        huffman::not_over(lens),
        huffman::used(lens, op.0 as int),
        rle::op_ok(op, acc.len()),
        rle::rle_one(acc, op).len() <= total,
        stands(
            src,
            st.at,
            huffman::codeword(lens, op.0 as int) + bits::nat_bits(op.1 as nat, op.2 as nat),
        ),
    ensures
        inflate::one_length(src, lens, st, total, acc) == Ok::<(Seq<u8>, St), Fail>(
            (
                rle::rle_one(acc, op),
                St { at: st.at + lens[op.0 as int] as nat + op.2 as nat, ..st },
            ),
        ),
{
    let a = huffman::codeword(lens, op.0 as int);
    let b = bits::nat_bits(op.1 as nat, op.2 as nat);
    lemma_stands_split(src, st.at, a, b);
    lemma_read_sym(src, lens, st, op.0 as int);
    bits::lemma_p2_values();
    let st1 = St { at: st.at + a.len(), ..st };
    lemma_read(src, st1, op.1 as nat, op.2 as nat);
}

/// The code lengths are read back, up to the first `i` operations.
proof fn lemma_decode_ops(
    src: Seq<u8>,
    lens: Seq<u8>,
    st: St,
    ops: Seq<(u8, u8, u8)>,
    i: nat,
)
    requires
        i <= ops.len(),
        huffman::valid_lens(lens),
        huffman::not_over(lens),
        rle::ops_ok(ops),
        forall|k: int| 0 <= k < ops.len() ==> huffman::used(lens, (#[trigger] ops[k]).0 as int),
        stands(src, st.at, ops_bits(lens, ops)),
    ensures
        ({
            let part = ops.take(i as int);
            let total = rle::rle_expand(ops).len();
            let mid = St { at: st.at + ops_bits(lens, part).len(), ..st };
            &&& mid.at <= 8 * src.len()
            &&& inflate::code_lengths(src, lens, st, total, Seq::empty()) == inflate::code_lengths(
                src,
                lens,
                mid,
                total,
                rle::rle_expand(part),
            )
        }),
    decreases i,
{
    let part = ops.take(i as int);
    let total = rle::rle_expand(ops).len();
    lemma_ops_prefix(lens, ops, i);
    if i == 0 {
        assert(part =~= Seq::<(u8, u8, u8)>::empty());
        assert(st == (St { at: st.at + 0, ..st }));
    } else {
        let j = (i - 1) as nat;
        lemma_decode_ops(src, lens, st, ops, j);
        let before = ops.take(j as int);
        let op = ops[j as int];
        assert(part.drop_last() =~= before);
        assert(part.last() == op);
        lemma_ops_ok_take(ops, i);
        lemma_rle_grows(ops, i);
        lemma_rle_grows(ops, j);
        let whole = ops_bits(lens, ops);
        let pb = ops_bits(lens, part);
        assert(whole =~= pb + whole.skip(pb.len() as int));
        lemma_stands_split(src, st.at, pb, whole.skip(pb.len() as int));
        let a = ops_bits(lens, before);
        let b = huffman::codeword(lens, op.0 as int) + bits::nat_bits(op.1 as nat, op.2 as nat);
        assert(pb =~= a + b);
        lemma_stands_split(src, st.at, a, b);
        let mid = St { at: st.at + a.len(), ..st };
        lemma_decode_op(src, lens, mid, op, rle::rle_expand(before), total);
        huffman::lemma_msb_len(huffman::code_of(lens, op.0 as int), lens[op.0 as int] as nat);
        bits::lemma_nat_bits_len(op.1 as nat, op.2 as nat);
    }
}

/// Leaving out a tail of zeros does not change a code.
proof fn lemma_shorter_code(lens: Seq<u8>, h: int)
    requires
        0 <= h <= lens.len(),
        forall|i: int| h <= i < lens.len() ==> #[trigger] lens[i] == 0,
    ensures
        forall|l: nat| #[trigger] huffman::weight(lens.take(h), l) == huffman::weight(lens, l),
        forall|s: int|
            0 <= s < h ==> #[trigger] huffman::codeword(lens.take(h), s) == huffman::codeword(
                lens,
                s,
            ),
{
    let t = lens.take(h);
    assert forall|l: nat| #[trigger] huffman::weight(t, l) == huffman::weight(lens, l) by {
        lemma_weight_take(lens, h, l);
    }
    assert forall|s: int| 0 <= s < h implies #[trigger] huffman::codeword(t, s)
        == huffman::codeword(lens, s) by {
        assert(t.take(s) =~= lens.take(s));
        if t[s] > 0 {
            lemma_weight_take(lens, h, (t[s] - 1) as nat);
        }
    }
}

proof fn lemma_weight_take(lens: Seq<u8>, h: int, l: nat)
    requires
        0 <= h <= lens.len(),
        forall|i: int| h <= i < lens.len() ==> #[trigger] lens[i] == 0,
    ensures
        huffman::weight(lens.take(h), l) == huffman::weight(lens, l),
    decreases l,
{
    if l > 0 {
        lemma_weight_take(lens, h, (l - 1) as nat);
        lemma_count_take_zeros(lens, h, l);
    }
}

proof fn lemma_count_take_zeros(lens: Seq<u8>, h: int, l: nat)
    requires
        0 <= h <= lens.len(),
        l > 0,
        forall|i: int| h <= i < lens.len() ==> #[trigger] lens[i] == 0,
    ensures
        huffman::count_len(lens.take(h), l) == huffman::count_len(lens, l),
    decreases lens.len(),
{
    if h == lens.len() {
        assert(lens.take(h) =~= lens);
    } else {
        lemma_count_take_zeros(lens.drop_last(), h, l);
        assert(lens.drop_last().take(h) =~= lens.take(h));
    }
}

proof fn lemma_shorter_body(lit: Seq<u8>, dist: Seq<u8>, h: int, g: int, tokens: Seq<Token>)
    requires
        257 <= h <= lit.len(),
        0 <= g <= dist.len(),
        forall|i: int| h <= i < lit.len() ==> #[trigger] lit[i] == 0,
        forall|i: int| g <= i < dist.len() ==> #[trigger] dist[i] == 0,
        all_expressible(tokens),
        forall|i: int| 0 <= i < tokens.len() ==> covers(lit, dist, #[trigger] tokens[i]),
    ensures
        tokens_bits(lit.take(h), dist.take(g), tokens) == tokens_bits(lit, dist, tokens),
        forall|i: int|
            0 <= i < tokens.len() ==> covers(lit.take(h), dist.take(g), #[trigger] tokens[i]),
    decreases tokens.len(),
{
    if tokens.len() > 0 {
        let shorter = tokens.drop_last();
        assert forall|i: int| 0 <= i < shorter.len() implies covers(
            lit,
            dist,
            #[trigger] shorter[i],
        ) && expressible(shorter[i]) by {
            assert(covers(lit, dist, tokens[i]));
            assert(expressible(tokens[i]));
        }
        lemma_shorter_body(lit, dist, h, g, shorter);
        let t = tokens.last();
        lemma_shorter_code(lit, h);
        lemma_shorter_code(dist, g);
        assert(covers(lit, dist, tokens[tokens.len() - 1]));
        assert(expressible(tokens[tokens.len() - 1]));
        assert(token_bits(lit.take(h), dist.take(g), t) == token_bits(lit, dist, t));
        assert forall|i: int| 0 <= i < tokens.len() implies covers(
            lit.take(h),
            dist.take(g),
            #[trigger] tokens[i],
        ) by {
            if i < tokens.len() - 1 {
                assert(covers(lit.take(h), dist.take(g), shorter[i]));
            }
        }
    }
}

/// The header of a dynamic block is read back.
proof fn lemma_decode_header(src: Seq<u8>, st: St, h: Header, t: Trees)
    requires
        header_ok(h, t),
        t.lit.wf(),
        t.dist.wf(),
        t.lit.lens@.len() == 286,
        t.dist.lens@.len() == 30,
        huffman::complete(t.lit.lens@),
        huffman::complete(t.dist.lens@),
        stands(src, st.at, header_bits(h)),
    ensures
        inflate::dynamic_trees(src, st) == Ok::<(Seq<u8>, Seq<u8>, St), Fail>(
            (
                t.lit.lens@.take(h.hlit as int),
                t.dist.lens@.take(h.hdist as int),
                St { at: st.at + header_bits(h).len(), ..st },
            ),
        ),
{
    let lens = h.clen.lens@;
    let a = bits::nat_bits((h.hlit - 257) as nat, 5);
    let b = bits::nat_bits((h.hdist - 1) as nat, 5);
    let c = bits::nat_bits((h.hclen - 4) as nat, 4);
    let d = order_bits(lens, h.hclen as nat);
    let e = ops_bits(lens, h.ops@);
    bits::lemma_nat_bits_len((h.hlit - 257) as nat, 5);
    bits::lemma_nat_bits_len((h.hdist - 1) as nat, 5);
    bits::lemma_nat_bits_len((h.hclen - 4) as nat, 4);
    lemma_order_len(lens, h.hclen as nat);
    bits::lemma_p2_values();
    lemma_stands_split(src, st.at, a + b + c + d, e);
    lemma_stands_split(src, st.at, a + b + c, d);
    lemma_stands_split(src, st.at, a + b, c);
    lemma_stands_split(src, st.at, a, b);
    lemma_read(src, st, (h.hlit - 257) as nat, 5);
    let st1 = St { at: st.at + 5, ..st };
    lemma_read(src, st1, (h.hdist - 1) as nat, 5);
    let st2 = St { at: st1.at + 5, ..st1 };
    lemma_read(src, st2, (h.hclen - 4) as nat, 4);
    let st3 = St { at: st2.at + 4, ..st2 };
    assert(clen_read(lens, inflate::repeated(19, 0), 0)) by {
        assert forall|s: int| 0 <= s < 19 implies #[trigger] inflate::repeated(19, 0)[s]
            == if clen_place(s) < 0 {
            lens[s]
        } else {
            0
        } by {
            lemma_order(s, 0);
        }
    }
    lemma_decode_clen(src, st3, lens, h.hclen as nat, 0, inflate::repeated(19, 0));
    let st4 = St { at: st3.at + 3 * h.hclen as nat, ..st3 };
    let n = h.ops@.len();
    lemma_decode_ops(src, lens, st4, h.ops@, n);
    assert(h.ops@.take(n as int) =~= h.ops@);
    let seq = rle::rle_expand(h.ops@);
    let lit = t.lit.lens@.take(h.hlit as int);
    let dist = t.dist.lens@.take(h.hdist as int);
    assert(seq.len() == h.hlit + h.hdist);
    assert(seq.take(h.hlit as int) =~= lit);
    assert(seq.skip(h.hlit as int) =~= dist);
    lemma_shorter_code(t.lit.lens@, h.hlit as int);
    lemma_shorter_code(t.dist.lens@, h.hdist as int);
}

/// `b`, standing at `at`, is a block: it takes the output from `before` to
/// `after`, and `last` tells whether it is the final one.
pub open spec fn is_block(
    at: nat,
    b: Seq<bool>,
    before: Seq<u8>,
    after: Seq<u8>,
    last: bool,
) -> bool {
    forall|src: Seq<u8>, st: St|
        stands(src, at, b) && st.at == at && st.out == before ==> #[trigger] inflate::one_block(
            src,
            None,
            st,
        ) == Ok::<(bool, St), Fail>(
            (last, St { at: at + b.len(), out: after, check: st.check }),
        )
}

spec fn flag(last: bool) -> nat {
    if last {
        1
    } else {
        0
    }
}

/// The three header bits of a block are read back.
proof fn lemma_block_head(src: Seq<u8>, st: St, last: bool, btype: nat)
    requires
        btype < 4,
        stands(src, st.at, bits::nat_bits(flag(last), 1) + bits::nat_bits(btype, 2)),
    ensures
        inflate::read(src, st, 1) == Ok::<(nat, St), Fail>(
            (flag(last), St { at: st.at + 1, ..st }),
        ),
        inflate::read(src, St { at: st.at + 1, ..st }, 2) == Ok::<(nat, St), Fail>(
            (btype, St { at: st.at + 3, ..st }),
        ),
{
    bits::lemma_nat_bits_len(flag(last), 1);
    bits::lemma_p2_values();
    lemma_stands_split(src, st.at, bits::nat_bits(flag(last), 1), bits::nat_bits(btype, 2));
    lemma_read(src, st, flag(last), 1);
    lemma_read(src, St { at: st.at + 1, ..st }, btype, 2);
}

/// The bits of a stored block that begins at `at`.
pub open spec fn stored_bits(at: nat, data: Seq<u8>, last: bool) -> Seq<bool> {
    bits::nat_bits(
        if last {
            1
        } else {
            0
        },
        1,
    ) + bits::nat_bits(0, 2) + bits::zeros(bitwriter::padding(at + 3)) + bits::nat_bits(
        data.len(),
        16,
    ) + bits::nat_bits((65535 - data.len()) as nat, 16) + bits::bytes_bits(data)
}

/// The parts of a stored block.
proof fn lemma_stored_parts(src: Seq<u8>, at: nat, data: Seq<u8>, last: bool)
    requires
        data.len() <= 65535,
        stands(src, at, stored_bits(at, data, last)),
    ensures
        ({
            let to = (at + 3 + bitwriter::padding(at + 3)) as nat;
            &&& stands(src, at, bits::nat_bits(flag(last), 1) + bits::nat_bits(0, 2))
            &&& stands(src, to, bits::nat_bits(data.len(), 16))
            &&& stands(src, to + 16, bits::nat_bits((65535 - data.len()) as nat, 16))
            &&& stands(src, to + 32, bits::bytes_bits(data))
        }),
{
    let f = bits::nat_bits(flag(last), 1);
    let z2 = bits::nat_bits(0, 2);
    let z = bits::zeros(bitwriter::padding(at + 3));
    let n1 = bits::nat_bits(data.len(), 16);
    let n2 = bits::nat_bits((65535 - data.len()) as nat, 16);
    let d = bits::bytes_bits(data);
    bits::lemma_nat_bits_len(flag(last), 1);
    bits::lemma_nat_bits_len(0, 2);
    bits::lemma_nat_bits_len(data.len(), 16);
    bits::lemma_nat_bits_len((65535 - data.len()) as nat, 16);
    lemma_stands_split(src, at, f + z2 + z + n1 + n2, d);
    lemma_stands_split(src, at, f + z2 + z + n1, n2);
    lemma_stands_split(src, at, f + z2 + z, n1);
    lemma_stands_split(src, at, f + z2, z);
}

/// The bytes of a stored block are those of the stream.
proof fn lemma_stored_bytes(src: Seq<u8>, from: nat, data: Seq<u8>)
    requires
        stands(src, 8 * from, bits::bytes_bits(data)),
    ensures
        from + data.len() <= src.len(),
        src.subrange(from as int, (from + data.len()) as int) == data,
{
    assert(bits::bytes_bits(data).len() == 8 * data.len());
    assert(bits::bytes_bits(src).len() == 8 * src.len());
    bits::lemma_bytes_bits_sub(src, from, from + data.len());
    bits::lemma_bytes_bits_inj(src.subrange(from as int, (from + data.len()) as int), data);
}

proof fn lemma_decode_stored(src: Seq<u8>, st: St, data: Seq<u8>, last: bool)
    requires
        data.len() <= 65535,
        stands(src, st.at, stored_bits(st.at, data, last)),
    ensures
        inflate::one_block(src, None, st) == Ok::<(bool, St), Fail>(
            (
                last,
                St {
                    at: (st.at + 3 + bitwriter::padding(st.at + 3) + 32 + 8 * data.len()) as nat,
                    out: st.out + data,
                    check: st.check,
                },
            ),
        ),
{
    let at = st.at;
    let to = (at + 3 + bitwriter::padding(at + 3)) as nat;
    lemma_stored_parts(src, at, data, last);
    lemma_block_head(src, st, last, 0);
    lemma_aligned(at + 3);
    lemma_stored_body(src, St { at: at + 3, ..st }, data, to / 8);
}

#[verifier::spinoff_prover]
proof fn lemma_aligned(at: nat)
    ensures
        8 * ((at + 7) / 8) == at + bitwriter::padding(at),
        (at + bitwriter::padding(at)) % 8 == 0,
{
    let q = at / 8;
    let r = at % 8;
    assert(at == 8 * q + r);
    if r == 0 {
        assert((at + 7) / 8 == q);
    } else {
        assert((at + 7) / 8 == q + 1);
    }
}

proof fn lemma_stored_body(src: Seq<u8>, st: St, data: Seq<u8>, from: nat)
    requires
        data.len() <= 65535,
        8 * ((st.at + 7) / 8) == 8 * from,
        stands(src, 8 * from, bits::nat_bits(data.len(), 16)),
        stands(src, 8 * from + 16, bits::nat_bits((65535 - data.len()) as nat, 16)),
        stands(src, 8 * from + 32, bits::bytes_bits(data)),
    ensures
        inflate::stored_block(src, None, st) == Ok::<St, Fail>(
            St { at: 8 * from + 32 + 8 * data.len(), out: st.out + data, check: st.check },
        ),
{
    let st0 = St { at: 8 * ((st.at + 7) / 8), ..st };
    bits::lemma_p2_values();
    lemma_read(src, st0, data.len(), 16);
    let st1 = St { at: st0.at + 16, ..st0 };
    lemma_read(src, st1, (65535 - data.len()) as nat, 16);
    let st2 = St { at: st1.at + 16, ..st1 };
    assert(st2.at == 8 * (from + 4));
    assert(st2.at / 8 == from + 4);
    lemma_stored_bytes(src, from + 4, data);
}

/// A stored block is read back.
proof fn lemma_stored_is_block(at: nat, data: Seq<u8>, before: Seq<u8>, last: bool)
    requires
        data.len() <= 65535,
    ensures
        is_block(at, stored_bits(at, data, last), before, before + data, last),
        stored_bits(at, data, last).len() == 3 + bitwriter::padding(at + 3) + 32 + 8 * data.len(),
{
    let all = stored_bits(at, data, last);
    bits::lemma_nat_bits_len(flag(last), 1);
    bits::lemma_nat_bits_len(0, 2);
    bits::lemma_nat_bits_len(data.len(), 16);
    bits::lemma_nat_bits_len((65535 - data.len()) as nat, 16);
    assert(all.len() == 3 + bitwriter::padding(at + 3) + 32 + 8 * data.len());
    assert forall|src: Seq<u8>, st: St|
        stands(src, at, all) && st.at == at && st.out == before implies #[trigger] inflate::one_block(
        src,
        None,
        st,
    ) == Ok::<(bool, St), Fail>(
        (last, St { at: at + all.len(), out: before + data, check: st.check }),
    ) by {
        lemma_decode_stored(src, st, data, last);
    }
}

/// The bits of a block under the fixed codes.
pub open spec fn fixed_bits(tokens: Seq<Token>, last: bool) -> Seq<bool> {
    bits::nat_bits(
        if last {
            1
        } else {
            0
        },
        1,
    ) + bits::nat_bits(1, 2) + body_bits(tables::fixed_lit(), tables::fixed_dist(), tokens)
}

proof fn lemma_fixed_covers(tokens: Seq<Token>)
    requires
        all_expressible(tokens),
    ensures
        covers_all(tables::fixed_lit(), tables::fixed_dist(), tokens),
{
    assert forall|i: int| 0 <= i < tokens.len() implies covers(
        tables::fixed_lit(),
        tables::fixed_dist(),
        #[trigger] tokens[i],
    ) by {
        assert(expressible(tokens[i]));
        if tokens[i].back() > 0 {
            lemma_len_code(tokens[i].amount());
            lemma_dist_code(tokens[i].back());
        }
    }
}

/// A block under the fixed codes is read back.
proof fn lemma_fixed_is_block(at: nat, tokens: Seq<Token>, before: Seq<u8>, last: bool)
    requires
        lz77::tokens_ok(before, tokens),
    ensures
        is_block(at, fixed_bits(tokens, last), before, lz77::expand(before, tokens), last),
{
    let lit = tables::fixed_lit();
    let dist = tables::fixed_dist();
    tables::lemma_fixed_complete();
    lemma_ok_means_expressible(before, tokens);
    lemma_fixed_covers(tokens);
    let head = bits::nat_bits(flag(last), 1) + bits::nat_bits(1, 2);
    let body = body_bits(lit, dist, tokens);
    bits::lemma_nat_bits_len(flag(last), 1);
    bits::lemma_nat_bits_len(1, 2);
    let all = fixed_bits(tokens, last);
    assert forall|src: Seq<u8>, st: St|
        stands(src, at, all) && st.at == at && st.out == before implies #[trigger] inflate::one_block(
        src,
        None,
        st,
    ) == Ok::<(bool, St), Fail>(
        (
            last,
            St { at: at + all.len(), out: lz77::expand(before, tokens), check: st.check },
        ),
    ) by {
        assert(all =~= head + body);
        lemma_stands_split(src, at, head, body);
        lemma_block_head(src, st, last, 1);
        lemma_decode_body(src, lit, dist, St { at: at + 3, ..st }, tokens);
    }
}

/// A dynamic block is read back.
#[verifier::spinoff_prover]
#[verifier::rlimit(100)]
proof fn lemma_dynamic_is_block(
    at: nat,
    h: Header,
    t: Trees,
    tokens: Seq<Token>,
    before: Seq<u8>,
    last: bool,
)
    requires
        lz77::tokens_ok(before, tokens),
        trees_ok(t, tokens),
        header_ok(h, t),
    ensures
        is_block(
            at,
            bits::nat_bits(flag(last), 1) + bits::nat_bits(2, 2) + header_bits(h) + body_bits(
                t.lit.lens@,
                t.dist.lens@,
                tokens,
            ),
            before,
            lz77::expand(before, tokens),
            last,
        ),
{
    let lit = t.lit.lens@.take(h.hlit as int);
    let dist = t.dist.lens@.take(h.hdist as int);
    let head = bits::nat_bits(flag(last), 1) + bits::nat_bits(2, 2);
    let body = body_bits(t.lit.lens@, t.dist.lens@, tokens);
    let all = head + header_bits(h) + body;
    bits::lemma_nat_bits_len(flag(last), 1);
    bits::lemma_nat_bits_len(2, 2);
    lemma_ok_means_expressible(before, tokens);
    lemma_shorter_body(t.lit.lens@, t.dist.lens@, h.hlit as int, h.hdist as int, tokens);
    lemma_shorter_code(t.lit.lens@, h.hlit as int);
    lemma_shorter_code(t.dist.lens@, h.hdist as int);
    assert(huffman::codeword(lit, 256) == huffman::codeword(t.lit.lens@, 256));
    assert(body == body_bits(lit, dist, tokens));
    assert(huffman::weight(lit, 15) == huffman::weight(t.lit.lens@, 15));
    assert(huffman::weight(dist, 15) == huffman::weight(t.dist.lens@, 15));
    assert forall|src: Seq<u8>, st: St|
        stands(src, at, all) && st.at == at && st.out == before implies #[trigger] inflate::one_block(
        src,
        None,
        st,
    ) == Ok::<(bool, St), Fail>(
        (
            last,
            St { at: at + all.len(), out: lz77::expand(before, tokens), check: st.check },
        ),
    ) by {
        lemma_stands_split(src, at, head + header_bits(h), body);
        lemma_stands_split(src, at, head, header_bits(h));
        lemma_block_head(src, st, last, 2);
        let st1 = St { at: at + 3, ..st };
        lemma_decode_header(src, st1, h, t);
        let st2 = St { at: st1.at + header_bits(h).len(), ..st1 };
        lemma_decode_body(src, lit, dist, st2, tokens);
    }
}

/// The bits of a block under codes of its own.
pub open spec fn dynamic_bits(tokens: Seq<Token>, last: bool) -> Seq<bool> {
    bits::nat_bits(
        if last {
            1
        } else {
            0
        },
        1,
    ) + bits::nat_bits(2, 2) + codes_bits(lit_lens(tokens), dist_lens(tokens)) + body_bits(
        lit_lens(tokens),
        dist_lens(tokens),
        tokens,
    )
}

/// A block in the cheapest of its three forms; of two that cost the same, the
/// stored one, then the one under the fixed codes.
pub open spec fn block_bits(at: nat, data: Seq<u8>, tokens: Seq<Token>, last: bool) -> Seq<bool> {
    let stored = stored_bits(at, data, last);
    let fixed = fixed_bits(tokens, last);
    let dynamic = dynamic_bits(tokens, last);
    if stored.len() <= dynamic.len() && stored.len() <= fixed.len() {
        stored
    } else if fixed.len() <= dynamic.len() {
        fixed
    } else {
        dynamic
    }
}

/// A block is never longer than in any of its three forms.
pub proof fn lemma_block_is_cheapest(at: nat, data: Seq<u8>, tokens: Seq<Token>, last: bool)
    ensures
        block_bits(at, data, tokens, last).len() <= stored_bits(at, data, last).len(),
        block_bits(at, data, tokens, last).len() <= fixed_bits(tokens, last).len(),
        block_bits(at, data, tokens, last).len() <= dynamic_bits(tokens, last).len(),
{
}

/// The cost of a block body in bits under the given lengths.
fn stream_bits(
    freqs: &Freqs,
    lit_lens: &Vec<u8>,
    dist_lens: &Vec<u8>,
    Ghost(tokens): Ghost<Seq<Token>>,
) -> (r: u64)
    requires
        freqs_ok(*freqs, tokens),
        tokens.len() <= 65535,
        lit_lens@.len() >= 286,
        dist_lens@.len() >= 30,
    ensures
        r == body_bits(lit_lens@, dist_lens@, tokens).len(),
        r <= 10_000_000_000,
{
    let a: u64 = table_cost(&freqs.lit, lit_lens);
    let b: u64 = table_cost(&freqs.dist, dist_lens);
    assert(freqs_cost(*freqs, tokens, lit_lens@, dist_lens@));
    freqs.extra + a + b
}

/// The cost of symbols with the given frequencies under the given lengths.
fn table_cost(freq: &Vec<u32>, lens: &Vec<u8>) -> (r: u64)
    requires
        freq@.len() <= 286,
        freq@.len() <= lens@.len(),
        forall|s: int| 0 <= s < freq@.len() ==> #[trigger] freq@[s] <= 65536,
    ensures
        r == cost(freq@, lens@),
        r <= 286 * 65536 * 255,
{
    let mut sum: u64 = 0;
    let mut i: usize = 0;
    assert(freq@.take(0) =~= Seq::<u32>::empty());
    while i < freq.len()
        invariant
            i <= freq@.len() <= 286,
            freq@.len() <= lens@.len(),
            forall|s: int| 0 <= s < freq@.len() ==> #[trigger] freq@[s] <= 65536,
            sum == cost(freq@.take(i as int), lens@),
            sum <= i * 65536 * 255,
        decreases freq@.len() - i,
    {
        let f: u64 = freq[i] as u64;
        let w: u64 = lens[i] as u64;
        assert(0 <= f * w <= 65536 * 255) by (nonlinear_arith)
            requires
                0 <= f <= 65536,
                0 <= w <= 255,
        ;
        assert(freq@.take(i + 1).drop_last() =~= freq@.take(i as int));
        sum = sum + f * w;
        i = i + 1;
    }
    assert(freq@.take(i as int) =~= freq@);
    sum
}

/// Writes one token.
fn emit_token(bw: &mut BitWriter, t: Token, lit: &Alphabet, dist: &Alphabet)
    requires
        old(bw).wf(),
        lit.wf(),
        dist.wf(),
        lit.lens@.len() >= 286,
        dist.lens@.len() >= 30,
        expressible(t),
    ensures
        final(bw).wf(),
        final(bw)@ == old(bw)@ + token_bits(lit.lens@, dist.lens@, t),
{
    let d: usize = t.dist() as usize;
    let v: usize = t.value() as usize;
    if d == 0 {
        lit.put(bw, v);
    } else {
        let li: usize = len_index(v);
        let di: usize = dist_index(d);
        assert(LENGTH_EXTRA@[li as int] <= 32 && DIST_EXTRA@[di as int] <= 32);
        let len_extra: u32 = (v - LENGTH_BASE[li] as usize) as u32;
        let dist_extra: u32 = (d - DIST_BASE[di] as usize) as u32;
        lit.put(bw, 257 + li);
        bw.write_bits(len_extra, LENGTH_EXTRA[li] as u32);
        dist.put(bw, di);
        bw.write_bits(dist_extra, DIST_EXTRA[di] as u32);
        assert(bw@ =~= old(bw)@ + token_bits(lit.lens@, dist.lens@, t));
    }
}

/// Writes the tokens of a block and its end.
fn emit_tokens(bw: &mut BitWriter, tokens: &Vec<Token>, lit: &Alphabet, dist: &Alphabet)
    requires
        old(bw).wf(),
        lit.wf(),
        dist.wf(),
        lit.lens@.len() >= 286,
        dist.lens@.len() >= 30,
        all_expressible(tokens@),
    ensures
        final(bw).wf(),
        final(bw)@ == old(bw)@ + body_bits(lit.lens@, dist.lens@, tokens@),
{
    let ghost start = bw@;
    let mut i: usize = 0;
    assert(tokens@.take(0) =~= Seq::<Token>::empty());
    assert(start + tokens_bits(lit.lens@, dist.lens@, tokens@.take(0)) =~= start);
    while i < tokens.len()
        invariant
            i <= tokens@.len(),
            bw.wf(),
            lit.wf(),
            dist.wf(),
            lit.lens@.len() >= 286,
            dist.lens@.len() >= 30,
            all_expressible(tokens@),
            bw@ == start + tokens_bits(lit.lens@, dist.lens@, tokens@.take(i as int)),
        decreases tokens@.len() - i,
    {
        let t: Token = tokens[i];
        assert(expressible(tokens@[i as int]));
        assert(tokens@.take(i + 1).drop_last() =~= tokens@.take(i as int));
        let ghost before = tokens_bits(lit.lens@, dist.lens@, tokens@.take(i as int));
        emit_token(bw, t, lit, dist);
        assert(bw@ =~= start + (before + token_bits(lit.lens@, dist.lens@, t)));
        i = i + 1;
    }
    assert(tokens@.take(i as int) =~= tokens@);
    lit.put(bw, 256);
    assert(bw@ =~= start + body_bits(lit.lens@, dist.lens@, tokens@));
}

/// Writes one stored block.
fn emit_stored(bw: &mut BitWriter, data: &[u8], start: usize, end: usize, last: bool)
    requires
        old(bw).wf(),
        start <= end <= data@.len(),
        end - start <= 65535,
    ensures
        final(bw).wf(),
        final(bw)@ == old(bw)@ + stored_bits(
            old(bw)@.len(),
            data@.subrange(start as int, end as int),
            last,
        ),
{
    let ghost before = bw@;
    let ghost piece = data@.subrange(start as int, end as int);
    let f: u32 = if last {
        1
    } else {
        0
    };
    proof {
        bits::lemma_nat_bits_len(f as nat, 1);
        bits::lemma_nat_bits_len(0, 2);
    }
    bw.write_bits(f, 1);
    bw.write_bits(0, 2);
    bw.align_to_byte();
    let len: u32 = (end - start) as u32;
    let ghost aligned = bw@;
    proof {
        bits::lemma_nat_bits_len(len as nat, 16);
        bits::lemma_nat_bits_len((65535 - len) as nat, 16);
    }
    bw.write_bits(len, 16);
    // NLEN is LEN inverted.
    bw.write_bits(65535 - len, 16);
    bw.write_bytes(vstd::slice::slice_subrange(data, start, end));
    proof {
        assert((aligned.len() + 32) % 8 == 0);
        assert(bitwriter::padding(aligned.len() + 32) == 0);
        assert(bw@ =~= before + stored_bits(before.len(), piece, last));
    }
}

/// Everything decoded so far: `b` holds blocks that are not final, and they
/// give `out`.
pub open spec fn prefix_ok(b: Seq<bool>, out: Seq<u8>) -> bool {
    forall|src: Seq<u8>|
        stands(src, 0, b) ==> #[trigger] inflate::blocks(src, None, inflate::start())
            == inflate::blocks(
            src,
            None,
            (St { at: b.len(), out, check: inflate::start().check }),
        )
}

/// A whole stream: `b` holds blocks of which the last is final, and they give
/// `out`.
pub open spec fn stream_ok(b: Seq<bool>, out: Seq<u8>) -> bool {
    forall|src: Seq<u8>|
        stands(src, 0, b) ==> #[trigger] inflate::blocks(src, None, inflate::start()) == Ok::<
            St,
            Fail,
        >(St { at: b.len(), out, check: inflate::start().check })
}

proof fn lemma_prefix_empty()
    ensures
        prefix_ok(Seq::empty(), Seq::empty()),
{
    assert(inflate::start() == (St {
        at: Seq::<bool>::empty().len(),
        out: Seq::empty(),
        check: inflate::start().check,
    }));
}

/// One more block.
proof fn lemma_add_block(
    b: Seq<bool>,
    out: Seq<u8>,
    e: Seq<bool>,
    out2: Seq<u8>,
    last: bool,
)
    requires
        prefix_ok(b, out),
        is_block(b.len(), e, out, out2, last),
    ensures
        last ==> stream_ok(b + e, out2),
        !last ==> prefix_ok(b + e, out2),
{
    let c = inflate::start().check;
    assert forall|src: Seq<u8>| stands(src, 0, b + e) implies inflate::blocks(
        src,
        None,
        inflate::start(),
    ) == if last {
        Ok::<St, Fail>(St { at: (b + e).len(), out: out2, check: c })
    } else {
        inflate::blocks(src, None, St { at: (b + e).len(), out: out2, check: c })
    } by {
        lemma_stands_split(src, 0, b, e);
        let mid = St { at: b.len(), out, check: c };
        assert(inflate::blocks(src, None, inflate::start()) == inflate::blocks(src, None, mid));
        assert(inflate::one_block(src, None, mid) == Ok::<(bool, St), Fail>(
            (last, St { at: b.len() + e.len(), out: out2, check: c }),
        ));
    }
}

/// Data as stored blocks, each as long as one can be but for the last, which is
/// final.
pub open spec fn stored_run(at: nat, data: Seq<u8>) -> Seq<bool>
    decreases data.len(),
{
    if data.len() > 65535 {
        let h = stored_bits(at, data.take(65535), false);
        h + stored_run(at + h.len(), data.skip(65535))
    } else {
        stored_bits(at, data, true)
    }
}

proof fn lemma_stored_len(at: nat, data: Seq<u8>, last: bool)
    ensures
        stored_bits(at, data, last).len() <= 42 + 8 * data.len(),
{
    bits::lemma_nat_bits_len(
        if last {
            1
        } else {
            0
        },
        1,
    );
    bits::lemma_nat_bits_len(0, 2);
    bits::lemma_nat_bits_len(data.len(), 16);
    bits::lemma_nat_bits_len((65535 - data.len()) as nat, 16);
}

proof fn lemma_stored_run_len(at: nat, data: Seq<u8>)
    ensures
        stored_run(at, data).len() <= 42 * (data.len() / 32768 + 1) + 8 * data.len(),
    decreases data.len(),
{
    if data.len() > 65535 {
        let h = stored_bits(at, data.take(65535), false);
        lemma_stored_len(at, data.take(65535), false);
        lemma_stored_run_len(at + h.len(), data.skip(65535));
        assert(data.len() / 32768 >= (data.len() - 65535) as nat / 32768 + 1);
    } else {
        lemma_stored_len(at, data, true);
    }
}

/// Writes a part of the input as stored blocks, the last of them final.
fn emit_stored_run(bw: &mut BitWriter, data: &[u8], start: usize, end: usize)
    requires
        old(bw).wf(),
        start <= end <= data@.len(),
        prefix_ok(old(bw)@, data@.take(start as int)),
    ensures
        final(bw).wf(),
        stream_ok(final(bw)@, data@.take(end as int)),
        final(bw)@ == old(bw)@ + stored_run(
            old(bw)@.len(),
            data@.subrange(start as int, end as int),
        ),
{
    let mut p: usize = start;
    let ghost whole = bw@ + stored_run(bw@.len(), data@.subrange(start as int, end as int));
    loop
        invariant_except_break
            prefix_ok(bw@, data@.take(p as int)),
            whole == bw@ + stored_run(bw@.len(), data@.subrange(p as int, end as int)),
        invariant
            bw.wf(),
            p <= end <= data@.len(),
        ensures
            stream_ok(bw@, data@.take(end as int)),
            bw@ == whole,
        decreases end - p,
    {
        let chunk_end: usize = if end - p > STORED_MAX {
            p + STORED_MAX
        } else {
            end
        };
        let last: bool = chunk_end >= end;
        let ghost before = bw@;
        let ghost piece = data@.subrange(p as int, chunk_end as int);
        emit_stored(bw, data, p, chunk_end, last);
        proof {
            lemma_stored_is_block(before.len(), piece, data@.take(p as int), last);
            assert(data@.take(p as int) + piece =~= data@.take(chunk_end as int));
            lemma_add_block(
                before,
                data@.take(p as int),
                stored_bits(before.len(), piece, last),
                data@.take(chunk_end as int),
                last,
            );
            let rest = data@.subrange(p as int, end as int);
            let h = stored_bits(before.len(), piece, last);
            assert(bw@ == before + h);
            if !last {
                assert(rest.take(65535) =~= piece);
                assert(rest.skip(65535) =~= data@.subrange(chunk_end as int, end as int));
                assert(before + (h + stored_run(before.len() + h.len(), rest.skip(65535)))
                    =~= before + h + stored_run(before.len() + h.len(), rest.skip(65535)));
            } else {
                assert(rest =~= piece);
            }
        }
        if last {
            break;
        }
        p = chunk_end;
    }
}

/// The exact length of a stored block.
proof fn lemma_stored_cost(at: nat, data: Seq<u8>, last: bool)
    ensures
        stored_bits(at, data, last).len() == 3 + bitwriter::padding(at + 3) + 32 + 8 * data.len(),
{
    bits::lemma_nat_bits_len(flag(last), 1);
    bits::lemma_nat_bits_len(0, 2);
    bits::lemma_nat_bits_len(data.len(), 16);
    bits::lemma_nat_bits_len((65535 - data.len()) as nat, 16);
}

/// Chooses the form of a block and writes it.
#[verifier::spinoff_prover]
#[verifier::rlimit(100)]
fn emit_block(
    bw: &mut BitWriter,
    data: &[u8],
    start: usize,
    end: usize,
    tokens: &Vec<Token>,
    last: bool,
)
    requires
        old(bw).wf(),
        old(bw)@.len() <= u64::MAX,
        start <= end <= data@.len(),
        end - start <= 65535,
        tokens@.len() <= end - start,
        lz77::tokens_ok(data@.take(start as int), tokens@),
        lz77::expand(data@.take(start as int), tokens@) == data@.take(end as int),
    ensures
        final(bw).wf(),
        final(bw)@ == old(bw)@ + block_bits(
            old(bw)@.len(),
            data@.subrange(start as int, end as int),
            tokens@,
            last,
        ),
        is_block(
            old(bw)@.len(),
            block_bits(
                old(bw)@.len(),
                data@.subrange(start as int, end as int),
                tokens@,
                last,
            ),
            data@.take(start as int),
            data@.take(end as int),
            last,
        ),
{
    let ghost before = bw@;
    let ghost out = data@.take(start as int);
    let ghost piece = data@.subrange(start as int, end as int);
    proof {
        lemma_ok_means_expressible(out, tokens@);
        assert(out + piece =~= data@.take(end as int));
        tables::lemma_fixed_complete();
        bits::lemma_nat_bits_len(flag(last), 1);
        bits::lemma_nat_bits_len(1, 2);
        bits::lemma_nat_bits_len(2, 2);
        lemma_stored_cost(before.len(), piece, last);
    }
    let freqs = Freqs::count(tokens);
    let trees = Trees::build(&freqs, Ghost(tokens@));
    let header = Header::build(&trees, Ghost(tokens@));
    let dynamic_cost: u64 = 3 + header.bits + stream_bits(
        &freqs,
        &trees.lit.lens,
        &trees.dist.lens,
        Ghost(tokens@),
    );
    let fixed_lit = tables::fixed_lit_lengths();
    let fixed_dist = tables::fixed_dist_lengths();
    let fixed_cost: u64 = 3 + stream_bits(&freqs, &fixed_lit, &fixed_dist, Ghost(tokens@));
    // A stored block is aligned, so its cost depends on where it begins.
    let at: u64 = bw.bit_len() % 8;
    let pad: u64 = (8 - (at + 3) % 8) % 8;
    let stored_cost: u64 = 3 + pad + 32 + (end - start) as u64 * 8;
    assert(dynamic_cost == dynamic_bits(tokens@, last).len());
    assert(fixed_cost == fixed_bits(tokens@, last).len());
    assert(pad == bitwriter::padding(before.len() + 3));
    assert(stored_cost == stored_bits(before.len(), piece, last).len());
    let f: u32 = if last {
        1
    } else {
        0
    };
    if stored_cost <= dynamic_cost && stored_cost <= fixed_cost {
        emit_stored(bw, data, start, end, last);
        proof {
            lemma_stored_is_block(before.len(), piece, out, last);
        }
    } else if fixed_cost <= dynamic_cost {
        let lit = Alphabet::from_lens(fixed_lit);
        let dist = Alphabet::from_lens(fixed_dist);
        bw.write_bits(f, 1);
        bw.write_bits(1, 2);
        emit_tokens(bw, tokens, &lit, &dist);
        assert(bw@ =~= before + fixed_bits(tokens@, last));
        proof {
            lemma_fixed_is_block(before.len(), tokens@, out, last);
        }
    } else {
        bw.write_bits(f, 1);
        bw.write_bits(2, 2);
        header.emit(bw, Ghost(trees));
        emit_tokens(bw, tokens, &trees.lit, &trees.dist);
        assert(bw@ =~= before + dynamic_bits(tokens@, last));
        proof {
            lemma_dynamic_is_block(before.len(), header, trees, tokens@, out, last);
        }
    }
}

/// The blocks of an input from a position on, in a stream of which `at` bits are
/// written.
pub open spec fn packed_from(data: Seq<u8>, cfg: Config, start: nat, at: nat) -> Seq<bool>
    decreases lz77::left_of(data, start),
{
    let (tokens, end) = lz77::block_at(data, cfg, start);
    let last = end >= data.len();
    let b = block_bits(at, data.subrange(start as int, end as int), tokens, last);
    if last || end <= start {
        b
    } else {
        b + packed_from(data, cfg, end, at + b.len())
    }
}

/// The bits of the stream that an input is packed into: stored blocks where
/// nothing is searched for, or where positions would not fit into 32 bits; else
/// each block of tokens in its cheapest form.
pub open spec fn packed_bits(input: Seq<u8>, level: Level) -> Seq<bool> {
    if level is Store || input.len() > 0xFFFF_FFFF {
        stored_run(0, input)
    } else {
        packed_from(input, lz77::config_of(level), 0, 0)
    }
}

/// The stream that an input is packed into.
pub open spec fn packed(input: Seq<u8>, level: Level) -> Seq<u8> {
    let b = packed_bits(input, level);
    bits::bits_bytes(b + bits::zeros(bitwriter::padding(b.len())))
}

/// `src` is one DEFLATE stream, no more and no less, that unpacks to `out`.
pub open spec fn unpacks_to(src: Seq<u8>, out: Seq<u8>) -> bool {
    inflate::blocks(src, None, inflate::start()) matches Ok(st) && st.out == out && (st.at + 7) / 8
        == src.len()
}

/// Closing a stream keeps what it unpacks to.
proof fn lemma_finished(src: Seq<u8>, b: Seq<bool>, out: Seq<u8>)
    requires
        stream_ok(b, out),
        bits::bytes_bits(src) == b + bits::zeros(bitwriter::padding(b.len())),
    ensures
        unpacks_to(src, out),
{
    assert(bits::bytes_bits(src).subrange(0, b.len() as int) =~= b);
    assert(stands(src, 0, b));
    assert(bits::bytes_bits(src).len() == 8 * src.len());
}

/// The length of a stream from the number of its bits.
proof fn lemma_stream_len(b: nat, n: nat, m: nat, len: nat)
    requires
        b <= 42 * (m + 1) + 8 * n,
        32768 * m <= n,
        8 * len == b + bitwriter::padding(b),
    ensures
        len <= n + 6 * (n / 32768 + 1),
{
    assert(m <= n / 32768);
}

/// Compresses `input` into a DEFLATE stream that unpacks to it. With
/// [`Level::Store`] the stream holds the input in stored blocks. Others are never
/// longer than what stored blocks need.
#[verifier::spinoff_prover]
#[verifier::rlimit(60)]
pub fn compress(input: &[u8], level: Level) -> (r: Vec<u8>)
    ensures
        r@ == packed(input@, level),
        unpacks_to(r@, input@),
        level is Store || input@.len() > 0xFFFF_FFFF ==> stored_stream(r@, input@),
        r@.len() <= input@.len() + 6 * (input@.len() / 32768 + 1),
{
    proof {
        lemma_prefix_empty();
        assert(input@.take(0) =~= Seq::<u8>::empty());
        assert(input@.take(input@.len() as int) =~= input@);
        assert(input@.subrange(0, input@.len() as int) =~= input@);
    }
    // Positions are kept as 32-bit numbers: an input that is too long for them
    // is stored, which needs no positions.
    if level == Level::Store || input.len() > 0xFFFF_FFFF {
        let mut bw = BitWriter::with_capacity(input.len().saturating_add(64));
        let ghost none = bw@;
        emit_stored_run(&mut bw, input, 0, input.len());
        let ghost written = bw@;
        let r = bw.finish();
        proof {
            lemma_finished(r@, written, input@);
            assert(none + stored_run(0, input@) =~= stored_run(0, input@));
            bits::lemma_bits_bytes(r@);
            lemma_stored_run_len(0, input@);
            lemma_stream_len(
                written.len(),
                input@.len(),
                input@.len() / 32768,
                r@.len(),
            );
        }
        return r;
    }
    let mut bw = BitWriter::with_capacity((input.len() / 2).saturating_add(64));
    let mut lz = Lz77::new(input, level);
    let mut tokens: Vec<Token> = Vec::new();
    let ghost mut m: nat = 0;
    let ghost cfg = lz77::config_of(level);
    let ghost whole = packed_from(input@, cfg, 0, 0);
    assert(bw@ + whole =~= whole);
    loop
        invariant_except_break
            whole == bw@ + packed_from(input@, cfg, lz.done(), bw@.len()),
            prefix_ok(bw@, input@.take(lz.done() as int)),
            bw@.len() <= 42 * m + 8 * lz.done(),
            32768 * m <= lz.done(),
        invariant
            bw.wf(),
            lz.wf(),
            lz.input() == input@,
            lz.config() == cfg,
            lz.done() <= input@.len() <= 0xFFFF_FFFF,
        ensures
            stream_ok(bw@, input@),
            bw@ == whole,
            bw@.len() <= 42 * (m + 1) + 8 * input@.len(),
            32768 * m <= input@.len(),
        decreases input@.len() - lz.done(),
    {
        let ghost before = bw@;
        let ghost from = lz.done() as int;
        let (start, end) = lz.next_block(&mut tokens);
        let last: bool = lz.is_done();
        emit_block(&mut bw, input, start, end, &tokens, last);
        proof {
            assert(input@.take(input@.len() as int) =~= input@);
            let piece = input@.subrange(from, end as int);
            let b = block_bits(before.len(), piece, tokens@, last);
            lemma_block_is_cheapest(before.len(), piece, tokens@, last);
            lemma_stored_cost(before.len(), piece, last);
            lemma_add_block(before, input@.take(from), b, input@.take(end as int), last);
            if last {
                assert(before + b == whole);
            } else {
                let more = packed_from(input@, cfg, end as nat, before.len() + b.len());
                assert(before + (b + more) =~= before + b + more);
            }
            if !last {
                m = m + 1;
            }
        }
        if last {
            break;
        }
    }
    let ghost written = bw@;
    let r = bw.finish();
    proof {
        lemma_finished(r@, written, input@);
        bits::lemma_bits_bytes(r@);
        lemma_stream_len(written.len(), input@.len(), m, r@.len());
    }
    r
}

/// `src` holds `data` in stored blocks.
pub open spec fn stored_stream(src: Seq<u8>, data: Seq<u8>) -> bool {
    let b = stored_run(0, data);
    bits::bytes_bits(src) == b + bits::zeros(bitwriter::padding(b.len()))
}

} // verus!
