//! Packing and unpacking give the data back.
use vstd::prelude::*;

use crate::deflate::bits;
use crate::deflate::encode;
use crate::deflate::inflate;
use crate::deflate::inflate::{Fail, St};
use crate::deflate::tables;
use crate::deflate::tables::{DIST_BASE, DIST_EXTRA, LENGTH_BASE, LENGTH_EXTRA};
use crate::deflate::Level;
use crate::limits::Limits;

verus! {

/// Quotas that let `total` bytes of output pass. A DEFLATE stream unpacks to
/// at most 1032 times its length: two bits for 258 bytes.
pub open spec fn roomy(l: Limits, total: nat) -> bool {
    total <= l.max_part_bytes && l.max_compression_ratio >= 1032
}

/// The same place, whatever the next look at the quotas.
spec fn same_place(a: St, b: St) -> bool {
    a.at == b.at && a.out == b.out
}

/// No more output than a stream can hold.
spec fn dense(st: St) -> bool {
    st.out.len() <= 129 * st.at
}

proof fn lemma_quotas_pass(l: Limits, st: St)
    requires
        roomy(l, st.out.len()),
        dense(st),
        (st.at + 7) / 8 <= u64::MAX,
    ensures
        inflate::look_at_quotas(Some(l), st) matches Ok(s) && same_place(s, st),
{
    let produced = st.out.len() as u64;
    let consumed = ((st.at + 7) / 8) as u64;
    if consumed > 0 {
        assert(produced <= 1032 * consumed);
        assert(produced / consumed <= 1032) by (nonlinear_arith)
            requires
                produced <= 1032 * consumed,
                consumed > 0,
        ;
    }
}

proof fn lemma_repeat_len(out: Seq<u8>, n: nat, dist: nat)
    ensures
        inflate::repeat_back(out, n, dist).len() == out.len() + n,
    decreases n,
{
    if n > 0 {
        lemma_repeat_len(out.push(out[out.len() - dist]), (n - 1) as nat, dist);
    }
}

proof fn lemma_match_under_quotas(
    src: Seq<u8>,
    dist: Seq<u8>,
    l: Limits,
    st: St,
    q: St,
    len: nat,
    end: St,
)
    requires
        same_place(st, q),
        st.at <= 8 * src.len(),
        src.len() <= u64::MAX,
        len <= 258,
        st.out.len() + 129 <= 129 * st.at,
        inflate::match_tail(src, dist, None, st, len) == Ok::<St, Fail>(end),
        roomy(l, end.out.len()),
    ensures
        inflate::match_tail(src, dist, Some(l), q, len) matches Ok(e) && same_place(e, end),
        dense(end),
        st.out.len() <= end.out.len(),
{
    inflate::lemma_match_tail_progress(src, dist, None, st, len);
    inflate::lemma_read_sym_progress(src, dist, st);
    if let Ok((d, st1)) = inflate::read_sym(src, dist, st) {
        let q1 = St { at: st1.at, ..q };
        if d < 30 {
            if let Ok((v, st2)) = inflate::read(src, st1, DIST_EXTRA@[d] as nat) {
                let q2 = St { at: st2.at, ..q1 };
                lemma_repeat_len(st2.out, len, DIST_BASE@[d] as nat + v);
                if let Ok(st3) = inflate::copy_back(st2, len, DIST_BASE@[d] as nat + v) {
                    let q3 = St { out: st3.out, ..q2 };
                    assert(end == st3);
                    lemma_quotas_pass(l, q3);
                }
            }
        }
    }
}

proof fn lemma_symbol_under_quotas(
    src: Seq<u8>,
    lit: Seq<u8>,
    dist: Seq<u8>,
    l: Limits,
    st: St,
    q: St,
    ended: bool,
    end: St,
)
    requires
        same_place(st, q),
        dense(st),
        st.at <= 8 * src.len(),
        src.len() <= u64::MAX,
        inflate::one_symbol(src, lit, dist, None, st) == Ok::<(bool, St), Fail>((ended, end)),
        roomy(l, end.out.len()),
    ensures
        inflate::one_symbol(src, lit, dist, Some(l), q) matches Ok((b, e)) && b == ended
            && same_place(e, end),
        dense(end),
        st.out.len() <= end.out.len(),
{
    inflate::lemma_one_symbol_progress(src, lit, dist, None, st);
    inflate::lemma_read_sym_progress(src, lit, st);
    if let Ok((s, st1)) = inflate::read_sym(src, lit, st) {
        let q1 = St { at: st1.at, ..q };
        if s < 256 {
            let q2 = St { out: q1.out.push(s as u8), ..q1 };
            lemma_quotas_pass(l, q2);
        } else if s > 256 && s - 257 < 29 {
            let w = LENGTH_EXTRA@[s - 257] as nat;
            if let Ok((v, st2)) = inflate::read(src, st1, w) {
                let q2 = St { at: st2.at, ..q1 };
                bits::lemma_bits_nat_bound(
                    bits::bytes_bits(src).subrange(st1.at as int, (st1.at + w) as int),
                );
                bits::lemma_p2_values();
                assert(LENGTH_BASE@[s - 257] + v <= 258);
                lemma_match_under_quotas(
                    src,
                    dist,
                    l,
                    st2,
                    q2,
                    LENGTH_BASE@[s - 257] as nat + v,
                    end,
                );
            }
        }
    }
}

/// Output only grows.
proof fn lemma_symbols_grow(src: Seq<u8>, lit: Seq<u8>, dist: Seq<u8>, st: St, end: St)
    requires
        st.at <= 8 * src.len(),
        inflate::symbols(src, lit, dist, None, st) == Ok::<St, Fail>(end),
    ensures
        st.out.len() <= end.out.len(),
    decreases 8 * src.len() - st.at,
{
    inflate::lemma_one_symbol_progress(src, lit, dist, None, st);
    if let Ok((ended, st1)) = inflate::one_symbol(src, lit, dist, None, st) {
        lemma_symbol_grows(src, lit, dist, st, ended, st1);
        if !ended {
            lemma_symbols_grow(src, lit, dist, st1, end);
        }
    }
}

proof fn lemma_symbol_grows(
    src: Seq<u8>,
    lit: Seq<u8>,
    dist: Seq<u8>,
    st: St,
    ended: bool,
    end: St,
)
    requires
        inflate::one_symbol(src, lit, dist, None, st) == Ok::<(bool, St), Fail>((ended, end)),
    ensures
        st.out.len() <= end.out.len(),
{
    if let Ok((s, st1)) = inflate::read_sym(src, lit, st) {
        if s > 256 && s - 257 < 29 {
            if let Ok((v, st2)) = inflate::read(src, st1, LENGTH_EXTRA@[s - 257] as nat) {
                let len = LENGTH_BASE@[s - 257] as nat + v;
                if let Ok((d, st3)) = inflate::read_sym(src, dist, st2) {
                    if d < 30 {
                        if let Ok((w, st4)) = inflate::read(src, st3, DIST_EXTRA@[d] as nat) {
                            lemma_repeat_len(st4.out, len, DIST_BASE@[d] as nat + w);
                        }
                    }
                }
            }
        }
    }
}

proof fn lemma_symbols_under_quotas(
    src: Seq<u8>,
    lit: Seq<u8>,
    dist: Seq<u8>,
    l: Limits,
    st: St,
    q: St,
    end: St,
)
    requires
        same_place(st, q),
        dense(st),
        st.at <= 8 * src.len(),
        src.len() <= u64::MAX,
        inflate::symbols(src, lit, dist, None, st) == Ok::<St, Fail>(end),
        roomy(l, end.out.len()),
    ensures
        inflate::symbols(src, lit, dist, Some(l), q) matches Ok(e) && same_place(e, end),
        dense(end),
        st.out.len() <= end.out.len(),
    decreases 8 * src.len() - st.at,
{
    inflate::lemma_one_symbol_progress(src, lit, dist, None, st);
    if let Ok((ended, st1)) = inflate::one_symbol(src, lit, dist, None, st) {
        if !ended {
            lemma_symbols_grow(src, lit, dist, st1, end);
        }
        lemma_symbol_under_quotas(src, lit, dist, l, st, q, ended, st1);
        if let Ok((b, q1)) = inflate::one_symbol(src, lit, dist, Some(l), q) {
            if !ended {
                lemma_symbols_under_quotas(src, lit, dist, l, st1, q1, end);
            }
        }
    }
}

proof fn lemma_stored_under_quotas(src: Seq<u8>, l: Limits, st: St, q: St, end: St)
    requires
        same_place(st, q),
        dense(st),
        st.at <= 8 * src.len(),
        src.len() <= u64::MAX,
        inflate::stored_block(src, None, st) == Ok::<St, Fail>(end),
        roomy(l, end.out.len()),
    ensures
        inflate::stored_block(src, Some(l), q) matches Ok(e) && same_place(e, end),
        dense(end),
        st.out.len() <= end.out.len(),
{
    let st0 = St { at: 8 * ((st.at + 7) / 8), ..st };
    if let Ok((len, st1)) = inflate::read(src, st0, 16) {
        if let Ok((nlen, st2)) = inflate::read(src, st1, 16) {
            let q2 = St { at: end.at, out: end.out, ..q };
            assert(dense(end));
            lemma_quotas_pass(l, q2);
        }
    }
}

/// The trees of a block do not depend on the output.
proof fn lemma_clen_same(src: Seq<u8>, st: St, q: St, i: nat, hclen: nat, lens: Seq<u8>)
    requires
        st.at == q.at,
        inflate::clen_lengths(src, st, i, hclen, lens) is Ok,
    ensures
        inflate::clen_lengths(src, q, i, hclen, lens) matches Ok((a, e)) && (inflate::clen_lengths(
            src,
            st,
            i,
            hclen,
            lens,
        ) matches Ok((b, f)) && a == b && e.at == f.at && e.out == q.out),
    decreases hclen - i,
{
    if i < hclen {
        if let Ok((v, st1)) = inflate::read(src, st, 3) {
            lemma_clen_same(
                src,
                st1,
                St { at: st1.at, ..q },
                i + 1,
                hclen,
                lens.update(tables::CLEN_ORDER@[i as int] as int, v as u8),
            );
        }
    }
}

proof fn lemma_lengths_same(src: Seq<u8>, clen: Seq<u8>, st: St, q: St, total: nat, acc: Seq<u8>)
    requires
        st.at == q.at,
        st.at <= 8 * src.len(),
        inflate::code_lengths(src, clen, st, total, acc) is Ok,
    ensures
        inflate::code_lengths(src, clen, q, total, acc) matches Ok((a, e)) && (
        inflate::code_lengths(src, clen, st, total, acc) matches Ok((b, f)) && a == b && e.at
            == f.at && e.out == q.out),
    decreases 8 * src.len() - st.at,
{
    if acc.len() < total {
        inflate::lemma_one_length_progress(src, clen, st, total, acc);
        inflate::lemma_one_length_progress(src, clen, q, total, acc);
        if let Ok((acc1, st1)) = inflate::one_length(src, clen, st, total, acc) {
            let q1 = St { at: st1.at, ..q };
            assert(inflate::one_length(src, clen, q, total, acc) == Ok::<(Seq<u8>, St), Fail>(
                (acc1, q1),
            ));
            lemma_lengths_same(src, clen, st1, q1, total, acc1);
        }
    }
}

proof fn lemma_trees_same(src: Seq<u8>, st: St, q: St)
    requires
        same_place(st, q),
        st.at <= 8 * src.len(),
        inflate::dynamic_trees(src, st) is Ok,
    ensures
        inflate::dynamic_trees(src, q) matches Ok((a, b, e)) && (inflate::dynamic_trees(
            src,
            st,
        ) matches Ok((c, d, f)) && a == c && b == d && same_place(e, f)),
{
    inflate::lemma_dynamic_progress(src, st);
    inflate::lemma_dynamic_progress(src, q);
    if let Ok((a, st1)) = inflate::read(src, st, 5) {
        if let Ok((b, st2)) = inflate::read(src, st1, 5) {
            if let Ok((c, st3)) = inflate::read(src, st2, 4) {
                let q3 = St { at: st3.at, ..q };
                let hclen = c + 4;
                let zero = inflate::repeated(19, 0);
                let x = bits::bytes_bits(src).subrange(st2.at as int, (st2.at + 4) as int);
                bits::lemma_bits_nat_bound(x);
                bits::lemma_p2_values();
                lemma_clen_same(src, st3, q3, 0, hclen, zero);
                inflate::lemma_clen_progress(src, st3, 0, hclen, zero);
                if let Ok((clen, st4)) = inflate::clen_lengths(src, st3, 0, hclen, zero) {
                    let q4 = St { at: st4.at, ..q };
                    if let Ok((_, e4)) = inflate::clen_lengths(src, q3, 0, hclen, zero) {
                        lemma_lengths_same(
                            src,
                            clen,
                            st4,
                            e4,
                            a + 257 + b + 1,
                            Seq::<u8>::empty(),
                        );
                    }
                }
            }
        }
    }
}

proof fn lemma_block_under_quotas(
    src: Seq<u8>,
    l: Limits,
    st: St,
    q: St,
    last: bool,
    end: St,
)
    requires
        same_place(st, q),
        dense(st),
        st.at <= 8 * src.len(),
        src.len() <= u64::MAX,
        inflate::one_block(src, None, st) == Ok::<(bool, St), Fail>((last, end)),
        roomy(l, end.out.len()),
    ensures
        inflate::one_block(src, Some(l), q) matches Ok((b, e)) && b == last && same_place(e, end),
        dense(end),
        st.out.len() <= end.out.len(),
{
    if let Ok((f, st1)) = inflate::read(src, st, 1) {
        if let Ok((btype, st2)) = inflate::read(src, st1, 2) {
            let q2 = St { at: st2.at, ..q };
            if btype == 0 {
                lemma_stored_under_quotas(src, l, st2, q2, end);
            } else if btype == 1 {
                lemma_symbols_under_quotas(
                    src,
                    tables::fixed_lit(),
                    tables::fixed_dist(),
                    l,
                    st2,
                    q2,
                    end,
                );
            } else if btype == 2 {
                lemma_trees_same(src, st2, q2);
                inflate::lemma_dynamic_progress(src, st2);
                if let Ok((lit, dist, st3)) = inflate::dynamic_trees(src, st2) {
                    if let Ok((_, _, q3)) = inflate::dynamic_trees(src, q2) {
                        lemma_symbols_under_quotas(src, lit, dist, l, st3, q3, end);
                    }
                }
            }
        }
    }
}

proof fn lemma_block_grows(src: Seq<u8>, st: St, last: bool, end: St)
    requires
        st.at <= 8 * src.len(),
        inflate::one_block(src, None, st) == Ok::<(bool, St), Fail>((last, end)),
    ensures
        st.out.len() <= end.out.len(),
{
    if let Ok((f, st1)) = inflate::read(src, st, 1) {
        if let Ok((btype, st2)) = inflate::read(src, st1, 2) {
            if btype == 1 {
                lemma_symbols_grow(src, tables::fixed_lit(), tables::fixed_dist(), st2, end);
            } else if btype == 2 {
                inflate::lemma_dynamic_progress(src, st2);
                if let Ok((lit, dist, st3)) = inflate::dynamic_trees(src, st2) {
                    lemma_symbols_grow(src, lit, dist, st3, end);
                }
            }
        }
    }
}

proof fn lemma_blocks_grow(src: Seq<u8>, st: St, end: St)
    requires
        st.at <= 8 * src.len(),
        inflate::blocks(src, None, st) == Ok::<St, Fail>(end),
    ensures
        st.out.len() <= end.out.len(),
    decreases 8 * src.len() - st.at,
{
    inflate::lemma_one_block_progress(src, None, st);
    if let Ok((last, st1)) = inflate::one_block(src, None, st) {
        lemma_block_grows(src, st, last, st1);
        if !last {
            lemma_blocks_grow(src, st1, end);
        }
    }
}

proof fn lemma_blocks_under_quotas(src: Seq<u8>, l: Limits, st: St, q: St, end: St)
    requires
        same_place(st, q),
        dense(st),
        st.at <= 8 * src.len(),
        src.len() <= u64::MAX,
        inflate::blocks(src, None, st) == Ok::<St, Fail>(end),
        roomy(l, end.out.len()),
    ensures
        inflate::blocks(src, Some(l), q) matches Ok(e) && same_place(e, end),
    decreases 8 * src.len() - st.at,
{
    inflate::lemma_one_block_progress(src, None, st);
    if let Ok((last, st1)) = inflate::one_block(src, None, st) {
        if !last {
            lemma_blocks_grow(src, st1, end);
        }
        lemma_block_under_quotas(src, l, st, q, last, st1);
        if let Ok((b, q1)) = inflate::one_block(src, Some(l), q) {
            if !last {
                lemma_blocks_under_quotas(src, l, st1, q1, end);
            }
        }
    }
}

/// What was packed unpacks to the data it was packed from, all of the input is
/// read, and no quota refuses it: where the quotas on sizes admit the packed
/// and the unpacked data and that on the ratio is at least the greatest that
/// DEFLATE can reach.
pub proof fn lemma_unpack_gives_back(packed: Seq<u8>, data: Seq<u8>, l: Limits)
    requires
        encode::unpacks_to(packed, data),
        packed.len() <= l.max_input_bytes,
        data.len() <= l.max_part_bytes,
        l.max_compression_ratio >= 1032,
    ensures
        inflate::inflated(packed, l) == Ok::<(Seq<u8>, nat), Fail>((data, packed.len())),
{
    if let Ok(end) = inflate::blocks(packed, None, inflate::start()) {
        lemma_blocks_under_quotas(packed, l, inflate::start(), inflate::start(), end);
    }
}

/// Packing has no choice of its own: two streams of the same data at the same
/// level are the same.
pub proof fn lemma_same_data_same_stream(
    a: Seq<u8>,
    b: Seq<u8>,
    p: Seq<u8>,
    q: Seq<u8>,
    level: Level,
)
    requires
        p == encode::packed(a, level),
        q == encode::packed(b, level),
        a =~= b,
    ensures
        p == q,
{
}

} // verus!
