//! What unpacking gives, and how much it can give.
use vstd::prelude::*;

use crate::deflate::bits;
use crate::deflate::huffman;
use crate::deflate::inflate;
use crate::deflate::inflate::{Fail, St};
use crate::deflate::tables;
use crate::deflate::tables::{DIST_BASE, DIST_EXTRA, LENGTH_BASE, LENGTH_EXTRA};
use crate::limits::Limits;

verus! {

/// A match adds as many bytes as it is long. Each is the one that stands the
/// distance before it, be that one of the match itself, and what was there stays.
pub proof fn lemma_match_repeats(out: Seq<u8>, n: nat, dist: nat)
    requires
        1 <= dist <= out.len(),
    ensures
        ({
            let t = inflate::repeat_back(out, n, dist);
            &&& t.len() == out.len() + n
            &&& t.take(out.len() as int) == out
            &&& forall|k: int| out.len() <= k < t.len() ==> #[trigger] t[k] == t[k - dist]
        }),
    decreases n,
{
    if n == 0 {
        assert(out.take(out.len() as int) =~= out);
    } else {
        let more = out.push(out[out.len() - dist]);
        let m = more.len() as int;
        let t = inflate::repeat_back(more, (n - 1) as nat, dist);
        lemma_match_repeats(more, (n - 1) as nat, dist);
        assert(t.take(m) == more);
        assert forall|k: int| 0 <= k < m implies #[trigger] t[k] == more[k] by {
            assert(t.take(m)[k] == more[k]);
        }
        assert(t.take(out.len() as int) =~= out);
    }
}

/// A distance is good exactly when it leads to a byte of the output.
pub proof fn lemma_distance_stays_in_output(st: St, len: nat, dist: nat)
    ensures
        inflate::copy_back(st, len, dist) is Ok == (1 <= dist <= st.out.len()),
        inflate::copy_back(st, len, dist) matches Ok(s) ==> s.at == st.at && s.check == st.check
            && s.out.len() == st.out.len() + len,
        inflate::copy_back(st, len, dist) matches Err(f) ==> f.out == st.out,
{
    if 1 <= dist <= st.out.len() {
        lemma_match_repeats(st.out, len, dist);
    }
}

/// Each length code begins where the one before it ends, and so does each code
/// of distances: no length from 3 to 258 and no distance up to 32768 is left out
/// or has two codes, but that 258 has one of its own.
pub proof fn lemma_codes_lie_side_by_side(i: int)
    ensures
        LENGTH_BASE@[0] == 3 && LENGTH_BASE@[28] == 258 && LENGTH_EXTRA@[28] == 0,
        0 <= i < 27 ==> LENGTH_BASE@[i + 1] == LENGTH_BASE@[i] + bits::p2(
            LENGTH_EXTRA@[i] as nat,
        ),
        LENGTH_BASE@[27] + bits::p2(LENGTH_EXTRA@[27] as nat) == 259,
        DIST_BASE@[0] == 1,
        0 <= i < 29 ==> DIST_BASE@[i + 1] == DIST_BASE@[i] + bits::p2(DIST_EXTRA@[i] as nat),
        DIST_BASE@[29] + bits::p2(DIST_EXTRA@[29] as nat) == 32769,
        8 <= i < 28 ==> LENGTH_EXTRA@[i] == i / 4 - 1,
        0 <= i < 8 ==> LENGTH_EXTRA@[i] == 0,
        4 <= i < 30 ==> DIST_EXTRA@[i] == i / 2 - 1,
        0 <= i < 4 ==> DIST_EXTRA@[i] == 0,
{
    bits::lemma_p2_values();
}

/// How long the output can get before an error about it comes.
pub open spec fn most(l: Limits) -> int {
    l.max_part_bytes + 131072
}

/// Where the quotas are looked at again is not far behind what they allow.
spec fn watched(l: Limits, st: St) -> bool {
    st.out.len() < st.check && st.check <= l.max_part_bytes + 65536
}

spec fn fine(l: Limits, r: Result<St, Fail>) -> bool {
    match r {
        Ok(s) => watched(l, s),
        Err(f) => f.out.len() < most(l),
    }
}

spec fn sane(l: Limits) -> bool {
    l.max_part_bytes + 200000 <= u64::MAX
}

proof fn lemma_looked(l: Limits, st: St)
    requires
        sane(l),
        st.out.len() < most(l),
        st.check <= l.max_part_bytes + 65536,
    ensures
        fine(l, inflate::look_at_quotas(Some(l), st)),
{
}

proof fn lemma_read_small(src: Seq<u8>, st: St, n: nat)
    ensures
        match inflate::read(src, st, n) {
            Ok((v, s)) => v < bits::p2(n) && s.out == st.out && s.check == st.check,
            Err(f) => f.out == st.out,
        },
{
    let b = bits::bytes_bits(src);
    if st.at + n <= b.len() {
        bits::lemma_bits_nat_bound(b.subrange(st.at as int, (st.at + n) as int));
    }
}

proof fn lemma_match_fine(
    src: Seq<u8>,
    dist: Seq<u8>,
    l: Limits,
    st: St,
    len: nat,
)
    requires
        sane(l),
        watched(l, st),
        st.at <= 8 * src.len(),
        len <= 65535,
    ensures
        fine(l, inflate::match_tail(src, dist, Some(l), st, len)),
{
    inflate::lemma_read_sym_progress(src, dist, st);
    if let Ok((d, st1)) = inflate::read_sym(src, dist, st) {
        if d < 30 {
            lemma_read_small(src, st1, DIST_EXTRA@[d] as nat);
            if let Ok((v, st2)) = inflate::read(src, st1, DIST_EXTRA@[d] as nat) {
                lemma_distance_stays_in_output(st2, len, DIST_BASE@[d] as nat + v);
                if let Ok(st3) = inflate::copy_back(st2, len, DIST_BASE@[d] as nat + v) {
                    lemma_looked(l, st3);
                }
            }
        }
    }
}

proof fn lemma_symbol_fine(src: Seq<u8>, lit: Seq<u8>, dist: Seq<u8>, l: Limits, st: St)
    requires
        sane(l),
        watched(l, st),
        st.at <= 8 * src.len(),
    ensures
        match inflate::one_symbol(src, lit, dist, Some(l), st) {
            Ok((_, s)) => watched(l, s),
            Err(f) => f.out.len() < most(l),
        },
{
    inflate::lemma_read_sym_progress(src, lit, st);
    if let Ok((s, st1)) = inflate::read_sym(src, lit, st) {
        if s < 256 {
            lemma_looked(l, St { out: st1.out.push(s as u8), ..st1 });
        } else if s > 256 && s - 257 < 29 {
            let i = s - 257;
            lemma_read_small(src, st1, LENGTH_EXTRA@[i] as nat);
            if let Ok((v, st2)) = inflate::read(src, st1, LENGTH_EXTRA@[i] as nat) {
                bits::lemma_p2_values();
                assert(LENGTH_EXTRA@[i] <= 5 && LENGTH_BASE@[i] <= 258);
                bits::lemma_p2_mono(LENGTH_EXTRA@[i] as nat, 5);
                lemma_match_fine(src, dist, l, st2, LENGTH_BASE@[i] as nat + v);
            }
        }
    }
}

proof fn lemma_symbols_fine(src: Seq<u8>, lit: Seq<u8>, dist: Seq<u8>, l: Limits, st: St)
    requires
        sane(l),
        watched(l, st),
        st.at <= 8 * src.len(),
    ensures
        fine(l, inflate::symbols(src, lit, dist, Some(l), st)),
    decreases 8 * src.len() - st.at,
{
    inflate::lemma_one_symbol_progress(src, lit, dist, Some(l), st);
    lemma_symbol_fine(src, lit, dist, l, st);
    if let Ok((ended, st1)) = inflate::one_symbol(src, lit, dist, Some(l), st) {
        if !ended {
            lemma_symbols_fine(src, lit, dist, l, st1);
        }
    }
}

proof fn lemma_clen_keeps(src: Seq<u8>, st: St, i: nat, hclen: nat, lens: Seq<u8>)
    ensures
        inflate::clen_lengths(src, st, i, hclen, lens) matches Err(f) ==> f.out == st.out,
    decreases hclen - i,
{
    if i < hclen {
        lemma_read_small(src, st, 3);
        if let Ok((v, st1)) = inflate::read(src, st, 3) {
            lemma_clen_keeps(
                src,
                st1,
                i + 1,
                hclen,
                lens.update(tables::CLEN_ORDER@[i as int] as int, v as u8),
            );
        }
    }
}

proof fn lemma_lengths_keep(src: Seq<u8>, clen: Seq<u8>, st: St, total: nat, acc: Seq<u8>)
    requires
        st.at <= 8 * src.len(),
    ensures
        inflate::code_lengths(src, clen, st, total, acc) matches Err(f) ==> f.out == st.out,
    decreases 8 * src.len() - st.at,
{
    inflate::lemma_one_length_progress(src, clen, st, total, acc);
    inflate::lemma_read_sym_progress(src, clen, st);
    if acc.len() < total {
        if let Ok((acc1, st1)) = inflate::one_length(src, clen, st, total, acc) {
            lemma_lengths_keep(src, clen, st1, total, acc1);
        }
    }
}

proof fn lemma_trees_keep(src: Seq<u8>, st: St)
    requires
        st.at <= 8 * src.len(),
    ensures
        inflate::dynamic_trees(src, st) matches Err(f) ==> f.out == st.out,
{
    if let Ok((a, st1)) = inflate::read(src, st, 5) {
        if let Ok((b, st2)) = inflate::read(src, st1, 5) {
            if let Ok((c, st3)) = inflate::read(src, st2, 4) {
                lemma_read_small(src, st2, 4);
                bits::lemma_p2_values();
                let zero = inflate::repeated(19, 0);
                inflate::lemma_clen_progress(src, st3, 0, c + 4, zero);
                lemma_clen_keeps(src, st3, 0, c + 4, zero);
                if let Ok((clen, st4)) = inflate::clen_lengths(src, st3, 0, c + 4, zero) {
                    lemma_lengths_keep(src, clen, st4, a + 257 + b + 1, Seq::<u8>::empty());
                    inflate::lemma_code_lengths_progress(
                        src,
                        clen,
                        st4,
                        a + 257 + b + 1,
                        Seq::<u8>::empty(),
                    );
                }
            }
        }
    }
}

proof fn lemma_stored_fine(src: Seq<u8>, l: Limits, st: St)
    requires
        sane(l),
        watched(l, st),
    ensures
        fine(l, inflate::stored_block(src, Some(l), st)),
{
    let st0 = St { at: 8 * ((st.at + 7) / 8), ..st };
    if let Ok((len, st1)) = inflate::read(src, st0, 16) {
        lemma_read_small(src, st0, 16);
        bits::lemma_p2_values();
        if let Ok((nlen, st2)) = inflate::read(src, st1, 16) {
            let from = st2.at / 8;
            if len + nlen == 65535 && from + len <= src.len() {
                lemma_looked(
                    l,
                    St {
                        at: 8 * (from + len),
                        out: st2.out + src.subrange(from as int, (from + len) as int),
                        ..st2
                    },
                );
            }
        }
    }
}

proof fn lemma_block_fine(src: Seq<u8>, l: Limits, st: St)
    requires
        sane(l),
        watched(l, st),
        st.at <= 8 * src.len(),
    ensures
        match inflate::one_block(src, Some(l), st) {
            Ok((_, s)) => watched(l, s),
            Err(f) => f.out.len() < most(l),
        },
{
    if let Ok((last, st1)) = inflate::read(src, st, 1) {
        if let Ok((btype, st2)) = inflate::read(src, st1, 2) {
            if btype == 0 {
                lemma_stored_fine(src, l, st2);
            } else if btype == 1 {
                lemma_symbols_fine(src, tables::fixed_lit(), tables::fixed_dist(), l, st2);
            } else if btype == 2 {
                inflate::lemma_dynamic_progress(src, st2);
                lemma_trees_keep(src, st2);
                if let Ok((lit, dist, st3)) = inflate::dynamic_trees(src, st2) {
                    lemma_symbols_fine(src, lit, dist, l, st3);
                }
            }
        }
    }
}

proof fn lemma_blocks_fine(src: Seq<u8>, l: Limits, st: St)
    requires
        sane(l),
        watched(l, st),
        st.at <= 8 * src.len(),
    ensures
        fine(l, inflate::blocks(src, Some(l), st)),
        inflate::blocks(src, Some(l), st) matches Ok(s) ==> s.at <= 8 * src.len(),
    decreases 8 * src.len() - st.at,
{
    inflate::lemma_one_block_progress(src, Some(l), st);
    lemma_block_fine(src, l, st);
    if let Ok((last, st1)) = inflate::one_block(src, Some(l), st) {
        if !last {
            lemma_blocks_fine(src, l, st1);
        }
    }
}

/// However a stream is made, unpacking it never holds much more output than a
/// part may have, and what is handed out is no longer than that. No more bytes
/// are read than there are.
pub proof fn lemma_output_stays_within_quota(src: Seq<u8>, l: Limits)
    requires
        l.max_part_bytes + 200000 <= u64::MAX,
        src.len() <= u64::MAX,
    ensures
        match inflate::inflated(src, l) {
            Ok((out, n)) => out.len() <= l.max_part_bytes && n <= src.len() && src.len()
                <= l.max_input_bytes,
            Err(f) => f.out.len() < most(l),
        },
{
    lemma_blocks_fine(src, l, inflate::start());
}

/// A stored block gives its bytes as they stand in the stream, behind two counts
/// that are each other's complement.
pub proof fn lemma_stored_bytes_are_kept(src: Seq<u8>, st: St)
    ensures
        inflate::stored_block(src, None, st) matches Ok(s) ==> {
            let from = (st.at + 7) / 8 + 4;
            let n = s.out.len() - st.out.len();
            &&& n >= 0 && from + n <= src.len()
            &&& s.at == 8 * (from + n)
            &&& s.out == st.out + src.subrange(from as int, from + n)
            &&& bits::bits_nat(
                bits::bytes_bits(src).subrange(8 * (from - 4), 8 * (from - 2)),
            ) == n
            &&& bits::bits_nat(
                bits::bytes_bits(src).subrange(8 * (from - 2), 8 * from as int),
            ) == 65535 - n
        },
{
}

/// The lengths that a decoder takes are those that use up all codes, or that
/// have at most one code and not too many; other lengths ask for too many, or
/// leave codes without a symbol.
pub proof fn lemma_bad_trees_are_told(lens: Seq<u8>)
    ensures
        inflate::tree_error(lens) is None == (huffman::weight(lens, 15) == bits::p2(15) || (
        huffman::weight(lens, 15) < bits::p2(15) && huffman::used_count(lens) <= 1)),
        inflate::tree_error(lens) == Some(crate::error::DeflateError::OversubscribedTree) <==> (
        huffman::weight(lens, 15) > bits::p2(15)),
{
}

proof fn lemma_fixed_counts(n: int)
    requires
        0 <= n <= 288,
    ensures
        ({
            let s = tables::fixed_lit().take(n);
            &&& huffman::count_len(s, 7) == if n <= 256 {
                0
            } else if n <= 280 {
                n - 256
            } else {
                24
            }
            &&& huffman::count_len(s, 8) == if n <= 144 {
                n
            } else if n <= 280 {
                144
            } else {
                n - 136
            }
            &&& huffman::count_len(s, 9) == if n <= 144 {
                0
            } else if n <= 256 {
                n - 144
            } else {
                112
            }
            &&& forall|l: nat| l < 7 ==> #[trigger] huffman::count_len(s, l) == 0
        }),
    decreases n,
{
    let s = tables::fixed_lit().take(n);
    if n > 0 {
        lemma_fixed_counts(n - 1);
        assert(s.drop_last() =~= tables::fixed_lit().take(n - 1));
        assert(s.last() == tables::fixed_lit()[n - 1]);
        assert forall|l: nat| l < 7 implies #[trigger] huffman::count_len(s, l) == 0 by {
            assert(huffman::count_len(s.drop_last(), l) == 0);
        }
    } else {
        assert(s =~= Seq::<u8>::empty());
    }
}

/// The fixed codes of literals and lengths: the lengths from 256 on have the
/// seven bits from 0 on, the first 144 literals the eight bits from 48 on, the
/// last lengths the eight bits from 192 on, and the other literals the nine bits
/// from 400 on.
pub proof fn lemma_fixed_codes(s: int)
    requires
        0 <= s < 288,
    ensures
        ({
            let c = huffman::code_of(tables::fixed_lit(), s);
            let n = tables::fixed_lit()[s];
            if s < 144 {
                n == 8 && c == 48 + s
            } else if s < 256 {
                n == 9 && c == 400 + (s - 144)
            } else if s < 280 {
                n == 7 && c == s - 256
            } else {
                n == 8 && c == 192 + (s - 280)
            }
        }),
{
    let f = tables::fixed_lit();
    lemma_fixed_counts(s);
    lemma_fixed_counts(288);
    assert(f.take(288) =~= f);
    assert(huffman::count_len(f, 1) == 0 && huffman::count_len(f, 2) == 0 && huffman::count_len(
        f,
        3,
    ) == 0 && huffman::count_len(f, 4) == 0 && huffman::count_len(f, 5) == 0 && huffman::count_len(
        f,
        6,
    ) == 0);
    reveal_with_fuel(huffman::weight, 10);
}

} // verus!
