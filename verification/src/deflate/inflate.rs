//! The DEFLATE decoder (RFC 1951).
//!
//! The spec functions of this module decode a stream as the RFC says,
//! and add where an error is found and when the quotas are looked at.
use vstd::prelude::*;

use crate::deflate::bitreader::BitReader;
use crate::deflate::bits;
use crate::deflate::huffman;
use crate::deflate::huffman::HuffTable;
use crate::deflate::tables;
use crate::deflate::tables::{
    CLEN_ORDER, DIST_BASE, DIST_EXTRA, END_OF_BLOCK, LENGTH_BASE, LENGTH_EXTRA, NUM_DIST, NUM_LIT,
};
use crate::error::{DeflateError, Error};
use crate::limits;
use crate::limits::Limits;

verus! {

/// Where decoding stands: the position in bits, the output, and the length of
/// output at which the quotas are looked at again.
pub struct St {
    pub at: nat,
    pub out: Seq<u8>,
    pub check: nat,
}

/// How decoding fails: with the output so far and an error.
pub struct Fail {
    pub out: Seq<u8>,
    pub err: Error,
}

/// A DEFLATE error, found at `st`.
pub open spec fn fail_at(kind: DeflateError, st: St) -> Fail {
    Fail {
        out: st.out,
        err: Error::Deflate {
            kind,
            in_off: (st.at / 8) as u64,
            out_off: st.out.len() as u64,
        },
    }
}

/// Reads `n` bits.
pub open spec fn read(src: Seq<u8>, st: St, n: nat) -> Result<(nat, St), Fail> {
    let b = bits::bytes_bits(src);
    if st.at + n <= b.len() {
        Ok((bits::bits_nat(b.subrange(st.at as int, (st.at + n) as int)), St { at: st.at + n, ..st }))
    } else {
        Err(fail_at(DeflateError::UnexpectedEof, st))
    }
}

/// Reads one symbol of the alphabet with the code lengths `lens`.
pub open spec fn read_sym(src: Seq<u8>, lens: Seq<u8>, st: St) -> Result<(int, St), Fail> {
    match huffman::decoded(lens, bits::bytes_bits(src).skip(st.at as int)) {
        Ok(s) => Ok((s, St { at: st.at + lens[s] as nat, ..st })),
        Err(k) => Err(fail_at(k, st)),
    }
}

/// Looks at the quotas where enough output was produced since the last time.
pub open spec fn look_at_quotas(quotas: Option<Limits>, st: St) -> Result<St, Fail> {
    match quotas {
        None => Ok(st),
        Some(l) => if st.out.len() < st.check {
            Ok(st)
        } else {
            let produced = st.out.len() as u64;
            let next = if st.out.len() + 65536 > u64::MAX {
                u64::MAX as nat
            } else {
                st.out.len() + 65536
            };
            match limits::quota(
                produced,
                l.max_part_bytes,
                crate::error::LimitError::PartTooLarge { got: produced, max: l.max_part_bytes },
            ) {
                Err(err) => Err(Fail { out: st.out, err }),
                Ok(_) => match l.ratio_verdict(produced, ((st.at + 7) / 8) as u64) {
                    Err(err) => Err(Fail { out: st.out, err }),
                    Ok(_) => Ok(St { check: next, ..st }),
                },
            }
        },
    }
}

/// `out` with `n` more bytes, each the one `dist` places before it.
pub open spec fn repeat_back(out: Seq<u8>, n: nat, dist: nat) -> Seq<u8>
    decreases n,
{
    if n == 0 {
        out
    } else {
        repeat_back(out.push(out[out.len() - dist]), (n - 1) as nat, dist)
    }
}

/// Copies a match of `len` bytes from `dist` back.
pub open spec fn copy_back(st: St, len: nat, dist: nat) -> Result<St, Fail> {
    if dist == 0 || dist > st.out.len() {
        Err(fail_at(DeflateError::DistanceTooFar, st))
    } else {
        Ok(St { out: repeat_back(st.out, len, dist), ..st })
    }
}

/// A stored block, after its three header bits.
pub open spec fn stored_block(src: Seq<u8>, quotas: Option<Limits>, st: St) -> Result<St, Fail> {
    let st0 = St { at: 8 * ((st.at + 7) / 8), ..st };
    match read(src, st0, 16) {
        Err(f) => Err(f),
        Ok((len, st1)) => match read(src, st1, 16) {
            Err(f) => Err(f),
            Ok((nlen, st2)) => if len + nlen != 65535 {
                Err(fail_at(DeflateError::BadStoredLength, st2))
            } else {
                let from = st2.at / 8;
                if from + len > src.len() {
                    Err(fail_at(DeflateError::UnexpectedEof, st2))
                } else {
                    look_at_quotas(
                        quotas,
                        St {
                            at: 8 * (from + len),
                            out: st2.out + src.subrange(from as int, (from + len) as int),
                            ..st2
                        },
                    )
                }
            },
        },
    }
}

/// The distance of a match of `len` bytes, after its length.
pub open spec fn match_tail(
    src: Seq<u8>,
    dist: Seq<u8>,
    quotas: Option<Limits>,
    st: St,
    len: nat,
) -> Result<St, Fail> {
    match read_sym(src, dist, st) {
        Err(f) => Err(f),
        Ok((d, st1)) => if d >= 30 {
            Err(fail_at(DeflateError::InvalidCode, st1))
        } else {
            match read(src, st1, DIST_EXTRA@[d] as nat) {
                Err(f) => Err(f),
                Ok((v, st2)) => match copy_back(st2, len, DIST_BASE@[d] as nat + v) {
                    Err(f) => Err(f),
                    Ok(st3) => look_at_quotas(quotas, st3),
                },
            }
        },
    }
}

/// One symbol of a compressed block: a literal, a match, or the end of the
/// block, which the flag tells.
pub open spec fn one_symbol(
    src: Seq<u8>,
    lit: Seq<u8>,
    dist: Seq<u8>,
    quotas: Option<Limits>,
    st: St,
) -> Result<(bool, St), Fail> {
    match read_sym(src, lit, st) {
        Err(f) => Err(f),
        Ok((s, st1)) => if s < 256 {
            match look_at_quotas(quotas, St { out: st1.out.push(s as u8), ..st1 }) {
                Err(f) => Err(f),
                Ok(st2) => Ok((false, st2)),
            }
        } else if s == 256 {
            Ok((true, st1))
        } else if s - 257 >= 29 {
            Err(fail_at(DeflateError::InvalidCode, st1))
        } else {
            match read(src, st1, LENGTH_EXTRA@[s - 257] as nat) {
                Err(f) => Err(f),
                Ok((v, st2)) => match match_tail(
                    src,
                    dist,
                    quotas,
                    st2,
                    LENGTH_BASE@[s - 257] as nat + v,
                ) {
                    Err(f) => Err(f),
                    Ok(st3) => Ok((false, st3)),
                },
            }
        },
    }
}

pub proof fn lemma_quotas_keep(quotas: Option<Limits>, st: St)
    ensures
        look_at_quotas(quotas, st) matches Ok(s) ==> s.at == st.at && s.out == st.out,
        look_at_quotas(quotas, st) matches Err(f) ==> f.out == st.out && f.err is Limit,
{
}

pub proof fn lemma_read_sym_progress(src: Seq<u8>, lens: Seq<u8>, st: St)
    requires
        st.at <= 8 * src.len(),
    ensures
        read_sym(src, lens, st) matches Ok((s, st1)) ==> huffman::used(lens, s) && st.at < st1.at
            <= 8 * src.len() && st1.out == st.out && st1.check == st.check,
{
    huffman::lemma_decoded_progress(lens, bits::bytes_bits(src).skip(st.at as int));
}

pub proof fn lemma_one_symbol_progress(
    src: Seq<u8>,
    lit: Seq<u8>,
    dist: Seq<u8>,
    quotas: Option<Limits>,
    st: St,
)
    requires
        st.at <= 8 * src.len(),
    ensures
        one_symbol(src, lit, dist, quotas, st) matches Ok((_, st1)) ==> st.at < st1.at <= 8
            * src.len(),
{
    lemma_read_sym_progress(src, lit, st);
    if let Ok((s, st1)) = read_sym(src, lit, st) {
        lemma_quotas_keep(quotas, St { out: st1.out.push(s as u8), ..st1 });
        if s > 256 && s - 257 < 29 {
            if let Ok((v, st2)) = read(src, st1, LENGTH_EXTRA@[s - 257] as nat) {
                lemma_match_tail_progress(
                    src,
                    dist,
                    quotas,
                    st2,
                    LENGTH_BASE@[s - 257] as nat + v,
                );
            }
        }
    }
}

pub proof fn lemma_match_tail_progress(
    src: Seq<u8>,
    dist: Seq<u8>,
    quotas: Option<Limits>,
    st: St,
    len: nat,
)
    requires
        st.at <= 8 * src.len(),
    ensures
        match_tail(src, dist, quotas, st, len) matches Ok(st1) ==> st.at < st1.at <= 8 * src.len(),
{
    lemma_read_sym_progress(src, dist, st);
    if let Ok((d, st1)) = read_sym(src, dist, st) {
        if d < 30 {
            if let Ok((v, st2)) = read(src, st1, DIST_EXTRA@[d] as nat) {
                if let Ok(st3) = copy_back(st2, len, DIST_BASE@[d] as nat + v) {
                    lemma_quotas_keep(quotas, st3);
                }
            }
        }
    }
}

/// The symbols of a compressed block, up to the one that ends it.
pub open spec fn symbols(
    src: Seq<u8>,
    lit: Seq<u8>,
    dist: Seq<u8>,
    quotas: Option<Limits>,
    st: St,
) -> Result<St, Fail>
    decreases 8 * src.len() - st.at,
    when st.at <= 8 * src.len()
{
    proof {
        lemma_one_symbol_progress(src, lit, dist, quotas, st);
    }
    match one_symbol(src, lit, dist, quotas, st) {
        Err(f) => Err(f),
        Ok((ended, st1)) => if ended {
            Ok(st1)
        } else {
            symbols(src, lit, dist, quotas, st1)
        },
    }
}

/// What is wrong with a set of code lengths.
pub open spec fn tree_error(lens: Seq<u8>) -> Option<DeflateError> {
    if !huffman::not_over(lens) {
        Some(DeflateError::OversubscribedTree)
    } else if !huffman::decodable(lens) {
        Some(DeflateError::IncompleteTree)
    } else {
        None
    }
}

/// Reads the code lengths of the code length alphabet from the `i`-th to the
/// last that is written.
pub open spec fn clen_lengths(
    src: Seq<u8>,
    st: St,
    i: nat,
    hclen: nat,
    lens: Seq<u8>,
) -> Result<(Seq<u8>, St), Fail>
    decreases hclen - i,
{
    if i >= hclen {
        Ok((lens, st))
    } else {
        match read(src, st, 3) {
            Err(f) => Err(f),
            Ok((v, st1)) => clen_lengths(
                src,
                st1,
                i + 1,
                hclen,
                lens.update(CLEN_ORDER@[i as int] as int, v as u8),
            ),
        }
    }
}

/// `n` times `v`.
pub open spec fn repeated(n: nat, v: u8) -> Seq<u8> {
    Seq::new(n, |i: int| v)
}

/// Appends a run to the code lengths, where it fits.
pub open spec fn add_run(acc: Seq<u8>, n: nat, v: u8, total: nat, st: St) -> Result<
    (Seq<u8>, St),
    Fail,
> {
    if acc.len() + n > total {
        Err(fail_at(DeflateError::BadCodeLengthRepeat, st))
    } else {
        Ok((acc + repeated(n, v), st))
    }
}

/// One symbol of the code length alphabet.
pub open spec fn one_length(src: Seq<u8>, clen: Seq<u8>, st: St, total: nat, acc: Seq<u8>) -> Result<
    (Seq<u8>, St),
    Fail,
> {
    match read_sym(src, clen, st) {
        Err(f) => Err(f),
        Ok((s, st1)) => if s <= 15 {
            Ok((acc.push(s as u8), st1))
        } else if s == 16 {
            if acc.len() == 0 {
                Err(fail_at(DeflateError::BadCodeLengthRepeat, st1))
            } else {
                match read(src, st1, 2) {
                    Err(f) => Err(f),
                    Ok((v, st2)) => add_run(acc, v + 3, acc.last(), total, st2),
                }
            }
        } else if s == 17 {
            match read(src, st1, 3) {
                Err(f) => Err(f),
                Ok((v, st2)) => add_run(acc, v + 3, 0, total, st2),
            }
        } else if s == 18 {
            match read(src, st1, 7) {
                Err(f) => Err(f),
                Ok((v, st2)) => add_run(acc, v + 11, 0, total, st2),
            }
        } else {
            Err(fail_at(DeflateError::InvalidCode, st1))
        },
    }
}

pub proof fn lemma_one_length_progress(
    src: Seq<u8>,
    clen: Seq<u8>,
    st: St,
    total: nat,
    acc: Seq<u8>,
)
    requires
        st.at <= 8 * src.len(),
    ensures
        one_length(src, clen, st, total, acc) matches Ok((a, st1)) ==> st.at < st1.at <= 8
            * src.len() && st1.out == st.out && st1.check == st.check,
{
    lemma_read_sym_progress(src, clen, st);
}

/// Reads code lengths until there are `total` of them.
pub open spec fn code_lengths(
    src: Seq<u8>,
    clen: Seq<u8>,
    st: St,
    total: nat,
    acc: Seq<u8>,
) -> Result<(Seq<u8>, St), Fail>
    decreases 8 * src.len() - st.at,
    when st.at <= 8 * src.len()
{
    proof {
        lemma_one_length_progress(src, clen, st, total, acc);
    }
    if acc.len() >= total {
        Ok((acc, st))
    } else {
        match one_length(src, clen, st, total, acc) {
            Err(f) => Err(f),
            Ok((acc1, st1)) => code_lengths(src, clen, st1, total, acc1),
        }
    }
}

/// The two alphabets of a dynamic block, after the three counts.
pub open spec fn dynamic_trees_from(
    src: Seq<u8>,
    st: St,
    hlit: nat,
    hdist: nat,
    hclen: nat,
) -> Result<(Seq<u8>, Seq<u8>, St), Fail> {
    if hlit > 286 || hdist > 30 {
        Err(fail_at(DeflateError::InvalidCode, st))
    } else {
        match clen_lengths(src, st, 0, hclen, repeated(19, 0)) {
            Err(f) => Err(f),
            Ok((clen, st1)) => match tree_error(clen) {
                Some(k) => Err(fail_at(k, st1)),
                None => match code_lengths(src, clen, st1, hlit + hdist, Seq::empty()) {
                    Err(f) => Err(f),
                    Ok((lens, st2)) => match tree_error(lens.take(hlit as int)) {
                        Some(k) => Err(fail_at(k, st2)),
                        None => match tree_error(lens.skip(hlit as int)) {
                            Some(k) => Err(fail_at(k, st2)),
                            None => Ok((lens.take(hlit as int), lens.skip(hlit as int), st2)),
                        },
                    },
                },
            },
        }
    }
}

/// The two alphabets of a dynamic block.
pub open spec fn dynamic_trees(src: Seq<u8>, st: St) -> Result<(Seq<u8>, Seq<u8>, St), Fail> {
    match read(src, st, 5) {
        Err(f) => Err(f),
        Ok((a, st1)) => match read(src, st1, 5) {
            Err(f) => Err(f),
            Ok((b, st2)) => match read(src, st2, 4) {
                Err(f) => Err(f),
                Ok((c, st3)) => dynamic_trees_from(src, st3, a + 257, b + 1, c + 4),
            },
        },
    }
}

/// A block of the given type, after its header.
pub open spec fn block_body(src: Seq<u8>, quotas: Option<Limits>, st: St, btype: nat) -> Result<
    St,
    Fail,
> {
    if btype == 0 {
        stored_block(src, quotas, st)
    } else if btype == 1 {
        symbols(src, tables::fixed_lit(), tables::fixed_dist(), quotas, st)
    } else if btype == 2 {
        match dynamic_trees(src, st) {
            Err(f) => Err(f),
            Ok((lit, dist, st1)) => symbols(src, lit, dist, quotas, st1),
        }
    } else {
        Err(fail_at(DeflateError::ReservedBlockType, st))
    }
}

/// One block; the flag tells whether it was the last.
pub open spec fn one_block(src: Seq<u8>, quotas: Option<Limits>, st: St) -> Result<(bool, St), Fail> {
    match read(src, st, 1) {
        Err(f) => Err(f),
        Ok((last, st1)) => match read(src, st1, 2) {
            Err(f) => Err(f),
            Ok((btype, st2)) => match block_body(src, quotas, st2, btype) {
                Err(f) => Err(f),
                Ok(st3) => Ok((last == 1, st3)),
            },
        },
    }
}

pub proof fn lemma_symbols_progress(
    src: Seq<u8>,
    lit: Seq<u8>,
    dist: Seq<u8>,
    quotas: Option<Limits>,
    st: St,
)
    requires
        st.at <= 8 * src.len(),
    ensures
        symbols(src, lit, dist, quotas, st) matches Ok(st1) ==> st.at <= st1.at <= 8 * src.len(),
    decreases 8 * src.len() - st.at,
{
    lemma_one_symbol_progress(src, lit, dist, quotas, st);
    if let Ok((ended, st1)) = one_symbol(src, lit, dist, quotas, st) {
        if !ended {
            lemma_symbols_progress(src, lit, dist, quotas, st1);
        }
    }
}

pub proof fn lemma_clen_progress(src: Seq<u8>, st: St, i: nat, hclen: nat, lens: Seq<u8>)
    requires
        st.at <= 8 * src.len(),
        hclen <= 19,
        lens.len() == 19,
        forall|j: int| 0 <= j < 19 ==> lens[j] <= 7,
    ensures
        clen_lengths(src, st, i, hclen, lens) matches Ok((l, st1)) ==> st.at <= st1.at <= 8
            * src.len() && l.len() == 19 && (forall|j: int| 0 <= j < 19 ==> l[j] <= 7)
            && st1.out == st.out && st1.check == st.check,
    decreases hclen - i,
{
    if i < hclen {
        if let Ok((v, st1)) = read(src, st, 3) {
            let b = bits::bytes_bits(src).subrange(st.at as int, (st.at + 3) as int);
            bits::lemma_bits_nat_bound(b);
            bits::lemma_p2_values();
            lemma_clen_progress(
                src,
                st1,
                i + 1,
                hclen,
                lens.update(CLEN_ORDER@[i as int] as int, v as u8),
            );
        }
    }
}

pub proof fn lemma_code_lengths_progress(
    src: Seq<u8>,
    clen: Seq<u8>,
    st: St,
    total: nat,
    acc: Seq<u8>,
)
    requires
        st.at <= 8 * src.len(),
        acc.len() <= total,
        forall|j: int| 0 <= j < acc.len() ==> acc[j] <= 15,
    ensures
        code_lengths(src, clen, st, total, acc) matches Ok((l, st1)) ==> st.at <= st1.at <= 8
            * src.len() && l.len() == total && (forall|j: int| 0 <= j < total ==> l[j] <= 15)
            && st1.out == st.out && st1.check == st.check,
    decreases 8 * src.len() - st.at,
{
    lemma_one_length_progress(src, clen, st, total, acc);
    if acc.len() < total {
        lemma_read_sym_progress(src, clen, st);
        if let Ok((acc1, st1)) = one_length(src, clen, st, total, acc) {
            assert(acc1.len() <= total);
            lemma_code_lengths_progress(src, clen, st1, total, acc1);
        }
    }
}

pub proof fn lemma_dynamic_progress(src: Seq<u8>, st: St)
    requires
        st.at <= 8 * src.len(),
    ensures
        dynamic_trees(src, st) matches Ok((lit, dist, st1)) ==> st.at <= st1.at <= 8 * src.len()
            && huffman::valid_lens(lit) && huffman::valid_lens(dist) && huffman::decodable(lit)
            && huffman::decodable(dist) && st1.out == st.out && st1.check == st.check,
{
    if let Ok((a, st1)) = read(src, st, 5) {
        if let Ok((b, st2)) = read(src, st1, 5) {
            if let Ok((c, st3)) = read(src, st2, 4) {
                let x = bits::bytes_bits(src).subrange(st2.at as int, (st2.at + 4) as int);
                bits::lemma_bits_nat_bound(x);
                bits::lemma_p2_values();
                lemma_clen_progress(src, st3, 0, c + 4, repeated(19, 0));
                if let Ok((clen, st4)) = clen_lengths(src, st3, 0, c + 4, repeated(19, 0)) {
                    lemma_code_lengths_progress(
                        src,
                        clen,
                        st4,
                        a + 257 + b + 1,
                        Seq::<u8>::empty(),
                    );
                }
            }
        }
    }
}

pub proof fn lemma_one_block_progress(src: Seq<u8>, quotas: Option<Limits>, st: St)
    requires
        st.at <= 8 * src.len(),
    ensures
        one_block(src, quotas, st) matches Ok((_, st1)) ==> st.at < st1.at <= 8 * src.len(),
{
    if let Ok((last, st1)) = read(src, st, 1) {
        if let Ok((btype, st2)) = read(src, st1, 2) {
            if btype == 0 {
                lemma_stored_progress(src, quotas, st2);
            } else if btype == 1 {
                lemma_symbols_progress(
                    src,
                    tables::fixed_lit(),
                    tables::fixed_dist(),
                    quotas,
                    st2,
                );
            } else if btype == 2 {
                lemma_dynamic_progress(src, st2);
                if let Ok((lit, dist, st3)) = dynamic_trees(src, st2) {
                    lemma_symbols_progress(src, lit, dist, quotas, st3);
                }
            }
        }
    }
}

pub proof fn lemma_stored_progress(src: Seq<u8>, quotas: Option<Limits>, st: St)
    requires
        st.at <= 8 * src.len(),
    ensures
        stored_block(src, quotas, st) matches Ok(st1) ==> st.at <= st1.at <= 8 * src.len(),
{
    let st0 = St { at: 8 * ((st.at + 7) / 8), ..st };
    if let Ok((len, st1)) = read(src, st0, 16) {
        if let Ok((nlen, st2)) = read(src, st1, 16) {
            let from = st2.at / 8;
            if len + nlen == 65535 && from + len <= src.len() {
                lemma_quotas_keep(
                    quotas,
                    St {
                        at: 8 * (from + len),
                        out: st2.out + src.subrange(from as int, (from + len) as int),
                        ..st2
                    },
                );
            }
        }
    }
}

/// The blocks of a stream, up to the last.
pub open spec fn blocks(src: Seq<u8>, quotas: Option<Limits>, st: St) -> Result<St, Fail>
    decreases 8 * src.len() - st.at,
    when st.at <= 8 * src.len()
{
    proof {
        lemma_one_block_progress(src, quotas, st);
    }
    match one_block(src, quotas, st) {
        Err(f) => Err(f),
        Ok((last, st1)) => if last {
            Ok(st1)
        } else {
            blocks(src, quotas, st1)
        },
    }
}

/// Where decoding begins.
pub open spec fn start() -> St {
    St { at: 0, out: Seq::empty(), check: 65536 }
}

/// What unpacking `src` under the given quotas gives: the output and the
/// number of input bytes read, or the output so far and an error.
pub open spec fn inflated(src: Seq<u8>, l: Limits) -> Result<(Seq<u8>, nat), Fail> {
    match limits::quota(
        src.len() as u64,
        l.max_input_bytes,
        crate::error::LimitError::InputTooLarge { got: src.len() as u64, max: l.max_input_bytes },
    ) {
        Err(err) => Err(Fail { out: Seq::empty(), err }),
        Ok(_) => match blocks(src, Some(l), start()) {
            Err(f) => Err(f),
            Ok(st) => match limits::quota(
                st.out.len() as u64,
                l.max_part_bytes,
                crate::error::LimitError::PartTooLarge {
                    got: st.out.len() as u64,
                    max: l.max_part_bytes,
                },
            ) {
                Err(err) => Err(Fail { out: st.out, err }),
                Ok(_) => Ok((st.out, (st.at + 7) / 8)),
            },
        },
    }
}

/// One call of the unpacker.
struct Inflater<'a, 'l> {
    br: BitReader<'a>,
    out: Vec<u8>,
    limits: &'l Limits,
    /// Length of `out` at the start: distances and quotas count from here.
    out_start: usize,
    /// The length of output at which the quotas are looked at again.
    next_check: u64,
}

impl<'a, 'l> Inflater<'a, 'l> {
    spec fn src(&self) -> Seq<u8> {
        self.br.source()
    }

    spec fn quotas(&self) -> Option<Limits> {
        Some(*self.limits)
    }

    spec fn st(&self) -> St {
        St {
            at: self.br.pos(),
            out: self.out@.skip(self.out_start as int),
            check: self.next_check as nat,
        }
    }

    spec fn wf(&self) -> bool {
        self.br.wf() && self.out_start <= self.out@.len()
    }

    /// `next` is this call, further on.
    spec fn goes_to(&self, next: &Self) -> bool {
        &&& next.wf()
        &&& next.src() == self.src()
        &&& next.limits == self.limits
        &&& next.out_start == self.out_start
        &&& next.out@.take(self.out_start as int) == self.out@.take(self.out_start as int)
    }

    fn produced(&self) -> (r: u64)
        requires
            self.wf(),
        ensures
            r == self.st().out.len(),
    {
        (self.out.len() - self.out_start) as u64
    }

    /// Adds the positions in input and output to an error.
    fn wrap(&self, kind: DeflateError) -> (r: Error)
        requires
            self.wf(),
        ensures
            r == fail_at(kind, self.st()).err,
    {
        Error::Deflate {
            kind,
            in_off: self.br.byte_pos() as u64,
            out_off: self.produced(),
        }
    }

    fn take_bits(&mut self, n: u32) -> (r: Result<u32, Error>)
        requires
            old(self).wf(),
            n <= 32,
        ensures
            old(self).goes_to(final(self)),
            match read(old(self).src(), old(self).st(), n as nat) {
                Ok((v, st)) => r == Ok::<u32, Error>(v as u32) && v <= u32::MAX && final(self).st()
                    == st,
                Err(f) => r == Err::<u32, Error>(f.err) && final(self).st() == old(self).st()
                    && f.out == final(self).st().out,
            },
    {
        proof {
            self.br.lemma_pos_bound();
            let b = bits::bytes_bits(self.src());
            let rest = self.br.rest();
            if n <= rest.len() {
                assert(rest.take(n as int) =~= b.subrange(
                    self.br.pos() as int,
                    (self.br.pos() + n) as int,
                ));
            }
        }
        match self.br.bits(n) {
            Some(v) => Ok(v),
            None => Err(self.wrap(DeflateError::UnexpectedEof)),
        }
    }

    fn take_symbol(&mut self, table: &HuffTable) -> (r: Result<u16, Error>)
        requires
            old(self).wf(),
            table.wf(),
        ensures
            old(self).goes_to(final(self)),
            match read_sym(old(self).src(), table.lengths(), old(self).st()) {
                Ok((s, st)) => 0 <= s <= u16::MAX && r == Ok::<u16, Error>(s as u16)
                    && final(self).st() == st,
                Err(f) => r == Err::<u16, Error>(f.err) && final(self).st() == old(self).st()
                    && f.out == final(self).st().out,
            },
    {
        match table.decode(&mut self.br) {
            Ok(s) => Ok(s),
            Err(k) => Err(self.wrap(k)),
        }
    }

    /// Looks at the quotas by the output actually produced.
    fn check_limits(&mut self) -> (r: Result<(), Error>)
        requires
            old(self).wf(),
        ensures
            old(self).goes_to(final(self)),
            final(self).st().out == old(self).st().out,
            match look_at_quotas(old(self).quotas(), old(self).st()) {
                Ok(st) => r == Ok::<(), Error>(()) && final(self).st() == st,
                Err(f) => r == Err::<(), Error>(f.err) && f.out == final(self).st().out,
            },
    {
        let produced: u64 = self.produced();
        if produced < self.next_check {
            return Ok(());
        }
        self.next_check = produced.saturating_add(Limits::RATIO_CHECK_STRIDE);
        match self.limits.check_part_size(produced) {
            Err(e) => return Err(e),
            Ok(_) => {},
        }
        self.limits.check_ratio(produced, self.br.bytes_consumed() as u64)
    }

    fn block_stored(&mut self) -> (r: Result<(), Error>)
        requires
            old(self).wf(),
        ensures
            old(self).goes_to(final(self)),
            match stored_block(old(self).src(), old(self).quotas(), old(self).st()) {
                Ok(st) => r == Ok::<(), Error>(()) && final(self).st() == st,
                Err(f) => r == Err::<(), Error>(f.err) && f.out == final(self).st().out,
            },
    {
        self.br.align_to_byte();
        let len: u32 = match self.take_bits(16) {
            Ok(v) => v,
            Err(e) => return Err(e),
        };
        let nlen: u32 = match self.take_bits(16) {
            Ok(v) => v,
            Err(e) => return Err(e),
        };
        proof {
            let b = bits::bytes_bits(self.src());
            let p = self.br.pos();
            bits::lemma_bits_nat_bound(b.subrange(p - 16, p as int));
            bits::lemma_bits_nat_bound(b.subrange(p - 32, p - 16));
            bits::lemma_p2_values();
        }
        // LEN is written a second time, inverted: a stored block has no other
        // guard against a stream that has slipped.
        if len + nlen != 65535 {
            return Err(self.wrap(DeflateError::BadStoredLength));
        }
        match self.br.take_bytes(len as usize) {
            None => Err(self.wrap(DeflateError::UnexpectedEof)),
            Some(data) => {
                let ghost before = self.out@;
                self.out.extend_from_slice(data);
                assert(self.out@.skip(self.out_start as int) =~= before.skip(self.out_start as int)
                    + data@);
                assert(self.out@.take(self.out_start as int) =~= before.take(
                    self.out_start as int,
                ));
                self.check_limits()
            },
        }
    }

    fn copy_match(&mut self, length: usize, distance: usize) -> (r: Result<(), Error>)
        requires
            old(self).wf(),
        ensures
            old(self).goes_to(final(self)),
            match copy_back(old(self).st(), length as nat, distance as nat) {
                Ok(st) => r == Ok::<(), Error>(()) && final(self).st() == st,
                Err(f) => r == Err::<(), Error>(f.err) && f.out == final(self).st().out,
            },
    {
        if distance == 0 || distance as u64 > self.produced() {
            return Err(self.wrap(DeflateError::DistanceTooFar));
        }
        // The copy may read bytes that it has just written itself, so it goes
        // byte by byte and forward.
        let mut i: usize = 0;
        while i < length
            invariant
                i <= length,
                old(self).goes_to(self),
                self.br == old(self).br,
                self.next_check == old(self).next_check,
                0 < distance <= self.st().out.len(),
                repeat_back(self.st().out, (length - i) as nat, distance as nat) == repeat_back(
                    old(self).st().out,
                    length as nat,
                    distance as nat,
                ),
            decreases length - i,
        {
            let b: u8 = self.out[self.out.len() - distance];
            let ghost before = self.out@;
            self.out.push(b);
            assert(self.out@.skip(self.out_start as int) =~= before.skip(
                self.out_start as int,
            ).push(b));
            assert(self.out@.take(self.out_start as int) =~= before.take(self.out_start as int));
            i = i + 1;
        }
        Ok(())
    }

    /// The distance of a match, after its length, and the copy.
    fn finish_match(&mut self, dist: &HuffTable, length: usize) -> (r: Result<(), Error>)
        requires
            old(self).wf(),
            dist.wf(),
        ensures
            old(self).goes_to(final(self)),
            match match_tail(
                old(self).src(),
                dist.lengths(),
                old(self).quotas(),
                old(self).st(),
                length as nat,
            ) {
                Ok(st) => r == Ok::<(), Error>(()) && final(self).st() == st,
                Err(f) => r == Err::<(), Error>(f.err) && f.out == final(self).st().out,
            },
    {
        let d: usize = match self.take_symbol(dist) {
            Ok(s) => s as usize,
            Err(e) => return Err(e),
        };
        if d >= 30 {
            return Err(self.wrap(DeflateError::InvalidCode));
        }
        let width: u32 = DIST_EXTRA[d] as u32;
        let extra: u32 = match self.take_bits(width) {
            Ok(v) => v,
            Err(e) => return Err(e),
        };
        proof {
            let b = bits::bytes_bits(self.src());
            let p = self.br.pos();
            bits::lemma_bits_nat_bound(b.subrange(p - width, p as int));
            bits::lemma_p2_mono(width as nat, 16);
            bits::lemma_p2_values();
        }
        let distance: usize = DIST_BASE[d] as usize + extra as usize;
        match self.copy_match(length, distance) {
            Ok(_) => {},
            Err(e) => return Err(e),
        }
        self.check_limits()
    }

    fn block_huffman(&mut self, lit: &HuffTable, dist: &HuffTable) -> (r: Result<(), Error>)
        requires
            old(self).wf(),
            lit.wf(),
            dist.wf(),
        ensures
            old(self).goes_to(final(self)),
            match symbols(
                old(self).src(),
                lit.lengths(),
                dist.lengths(),
                old(self).quotas(),
                old(self).st(),
            ) {
                Ok(st) => r == Ok::<(), Error>(()) && final(self).st() == st,
                Err(f) => r == Err::<(), Error>(f.err) && f.out == final(self).st().out,
            },
    {
        let ghost whole = symbols(
            self.src(),
            lit.lengths(),
            dist.lengths(),
            self.quotas(),
            self.st(),
        );
        loop
            invariant
                old(self).goes_to(self),
                lit.wf(),
                dist.wf(),
                whole == symbols(
                    self.src(),
                    lit.lengths(),
                    dist.lengths(),
                    self.quotas(),
                    self.st(),
                ),
                whole == symbols(
                    old(self).src(),
                    lit.lengths(),
                    dist.lengths(),
                    old(self).quotas(),
                    old(self).st(),
                ),
            decreases 8 * self.src().len() - self.st().at,
        {
            let ghost before = self.st();
            proof {
                self.br.lemma_pos_bound();
                lemma_one_symbol_progress(
                    self.src(),
                    lit.lengths(),
                    dist.lengths(),
                    self.quotas(),
                    self.st(),
                );
            }
            let sym: u16 = match self.take_symbol(lit) {
                Ok(s) => s,
                Err(e) => return Err(e),
            };
            if sym < END_OF_BLOCK {
                let ghost prev = self.out@;
                self.out.push(sym as u8);
                assert(self.out@.skip(self.out_start as int) =~= prev.skip(
                    self.out_start as int,
                ).push(sym as u8));
                assert(self.out@.take(self.out_start as int) =~= prev.take(self.out_start as int));
                match self.check_limits() {
                    Ok(_) => {},
                    Err(e) => return Err(e),
                }
            } else if sym == END_OF_BLOCK {
                return Ok(());
            } else {
                let li: usize = sym as usize - 257;
                if li >= 29 {
                    return Err(self.wrap(DeflateError::InvalidCode));
                }
                let width: u32 = LENGTH_EXTRA[li] as u32;
                let extra: u32 = match self.take_bits(width) {
                    Ok(v) => v,
                    Err(e) => return Err(e),
                };
                proof {
                    let b = bits::bytes_bits(self.src());
                    let p = self.br.pos();
                    bits::lemma_bits_nat_bound(b.subrange(p - width, p as int));
                    bits::lemma_p2_mono(width as nat, 16);
                    bits::lemma_p2_values();
                }
                let length: usize = LENGTH_BASE[li] as usize + extra as usize;
                match self.finish_match(dist, length) {
                    Ok(_) => {},
                    Err(e) => return Err(e),
                }
            }
        }
    }

    /// Appends a run to the code lengths, where it fits.
    fn fill_lengths(&self, lens: &mut Vec<u8>, rep: usize, total: usize, value: u8) -> (r: Result<
        (),
        Error,
    >)
        requires
            self.wf(),
            old(lens)@.len() <= total <= 400,
            rep <= 200,
        ensures
            match add_run(old(lens)@, rep as nat, value, total as nat, self.st()) {
                Ok((l, _)) => r == Ok::<(), Error>(()) && final(lens)@ == l,
                Err(f) => r == Err::<(), Error>(f.err) && f.out == self.st().out,
            },
    {
        if lens.len() + rep > total {
            return Err(self.wrap(DeflateError::BadCodeLengthRepeat));
        }
        let mut i: usize = 0;
        assert(lens@ + repeated(0, value) =~= lens@);
        while i < rep
            invariant
                i <= rep,
                lens@ == old(lens)@ + repeated(i as nat, value),
            decreases rep - i,
        {
            lens.push(value);
            i = i + 1;
            assert(lens@ =~= old(lens)@ + repeated(i as nat, value));
        }
        Ok(())
    }

    /// Builds a table, with the positions added to the error.
    fn table(&self, lens: &[u8]) -> (r: Result<HuffTable, Error>)
        requires
            self.wf(),
            huffman::valid_lens(lens@),
        ensures
            match tree_error(lens@) {
                None => r matches Ok(t) && t.wf() && t.lengths() == lens@,
                Some(k) => r matches Err(e) && e == fail_at(k, self.st()).err,
            },
    {
        match HuffTable::build(lens) {
            Ok(t) => Ok(t),
            Err(k) => Err(self.wrap(k)),
        }
    }

    /// Reads the code lengths of the code length alphabet.
    fn clen_table(&mut self, hclen: usize) -> (r: Result<Vec<u8>, Error>)
        requires
            old(self).wf(),
            hclen <= 19,
        ensures
            old(self).goes_to(final(self)),
            match clen_lengths(old(self).src(), old(self).st(), 0, hclen as nat, repeated(19, 0)) {
                Ok((l, st)) => r matches Ok(v) && v@ == l && final(self).st() == st,
                Err(f) => r matches Err(e) && e == f.err && f.out == final(self).st().out,
            },
    {
        let mut clen: Vec<u8> = vec![0u8; 19];
        assert(clen@ =~= repeated(19, 0));
        let mut i: usize = 0;
        let ghost whole = clen_lengths(
            self.src(),
            self.st(),
            0,
            hclen as nat,
            repeated(19, 0),
        );
        while i < hclen
            invariant
                i <= hclen <= 19,
                old(self).goes_to(self),
                clen@.len() == 19,
                whole == clen_lengths(self.src(), self.st(), i as nat, hclen as nat, clen@),
                whole == clen_lengths(
                    old(self).src(),
                    old(self).st(),
                    0,
                    hclen as nat,
                    repeated(19, 0),
                ),
            decreases hclen - i,
        {
            let v: u32 = match self.take_bits(3) {
                Ok(v) => v,
                Err(e) => return Err(e),
            };
            proof {
                let b = bits::bytes_bits(self.src());
                let p = self.br.pos();
                bits::lemma_bits_nat_bound(b.subrange(p - 3, p as int));
                bits::lemma_p2_values();
            }
            clen[CLEN_ORDER[i] as usize] = v as u8;
            i = i + 1;
        }
        Ok(clen)
    }

    /// Reads code lengths until there are `total` of them.
    fn all_lengths(&mut self, table: &HuffTable, total: usize) -> (r: Result<Vec<u8>, Error>)
        requires
            old(self).wf(),
            table.wf(),
            total <= 316,
        ensures
            old(self).goes_to(final(self)),
            match code_lengths(
                old(self).src(),
                table.lengths(),
                old(self).st(),
                total as nat,
                Seq::empty(),
            ) {
                Ok((l, st)) => r matches Ok(v) && v@ == l && final(self).st() == st,
                Err(f) => r matches Err(e) && e == f.err && f.out == final(self).st().out,
            },
    {
        let mut lens: Vec<u8> = Vec::with_capacity(total);
        let ghost whole = code_lengths(
            self.src(),
            table.lengths(),
            self.st(),
            total as nat,
            Seq::empty(),
        );
        while lens.len() < total
            invariant
                old(self).goes_to(self),
                table.wf(),
                lens@.len() <= total <= 316,
                whole == code_lengths(
                    self.src(),
                    table.lengths(),
                    self.st(),
                    total as nat,
                    lens@,
                ),
                whole == code_lengths(
                    old(self).src(),
                    table.lengths(),
                    old(self).st(),
                    total as nat,
                    Seq::empty(),
                ),
            decreases 8 * self.src().len() - self.st().at,
        {
            proof {
                self.br.lemma_pos_bound();
                lemma_one_length_progress(
                    self.src(),
                    table.lengths(),
                    self.st(),
                    total as nat,
                    lens@,
                );
            }
            let sym: u16 = match self.take_symbol(table) {
                Ok(s) => s,
                Err(e) => return Err(e),
            };
            if sym <= 15 {
                lens.push(sym as u8);
            } else if sym == 16 {
                if lens.len() == 0 {
                    return Err(self.wrap(DeflateError::BadCodeLengthRepeat));
                }
                let prev: u8 = lens[lens.len() - 1];
                let v: u32 = match self.take_bits(2) {
                    Ok(v) => v,
                    Err(e) => return Err(e),
                };
                proof {
                    self.lemma_small(2);
                }
                match self.fill_lengths(&mut lens, v as usize + 3, total, prev) {
                    Ok(_) => {},
                    Err(e) => return Err(e),
                }
            } else if sym == 17 {
                let v: u32 = match self.take_bits(3) {
                    Ok(v) => v,
                    Err(e) => return Err(e),
                };
                proof {
                    self.lemma_small(3);
                }
                match self.fill_lengths(&mut lens, v as usize + 3, total, 0) {
                    Ok(_) => {},
                    Err(e) => return Err(e),
                }
            } else if sym == 18 {
                let v: u32 = match self.take_bits(7) {
                    Ok(v) => v,
                    Err(e) => return Err(e),
                };
                proof {
                    self.lemma_small(7);
                }
                match self.fill_lengths(&mut lens, v as usize + 11, total, 0) {
                    Ok(_) => {},
                    Err(e) => return Err(e),
                }
            } else {
                return Err(self.wrap(DeflateError::InvalidCode));
            }
        }
        proof {
            self.br.lemma_pos_bound();
        }
        Ok(lens)
    }

    proof fn lemma_small(&self, n: nat)
        requires
            self.wf(),
            n <= 7,
            self.br.pos() >= n,
        ensures
            bits::bits_nat(
                bits::bytes_bits(self.src()).subrange(self.br.pos() - n, self.br.pos() as int),
            ) < 128,
    {
        self.br.lemma_pos_bound();
        bits::lemma_bits_nat_bound(
            bits::bytes_bits(self.src()).subrange(self.br.pos() - n, self.br.pos() as int),
        );
        bits::lemma_p2_mono(n, 7);
        bits::lemma_p2_values();
    }

    /// Reads the header of a dynamic block and builds both tables.
    fn dynamic_tables(&mut self) -> (r: Result<(HuffTable, HuffTable), Error>)
        requires
            old(self).wf(),
        ensures
            old(self).goes_to(final(self)),
            match dynamic_trees(old(self).src(), old(self).st()) {
                Ok((lit, dist, st)) => r matches Ok((a, b)) && a.wf() && b.wf() && a.lengths()
                    == lit && b.lengths() == dist && final(self).st() == st,
                Err(f) => r matches Err(e) && e == f.err && f.out == final(self).st().out,
            },
    {
        proof {
            self.br.lemma_pos_bound();
            lemma_dynamic_progress(self.src(), self.st());
        }
        let hlit: usize = match self.take_bits(5) {
            Ok(v) => {
                proof {
                    self.lemma_small(5);
                }
                v as usize + 257
            },
            Err(e) => return Err(e),
        };
        let hdist: usize = match self.take_bits(5) {
            Ok(v) => {
                proof {
                    self.lemma_small(5);
                }
                v as usize + 1
            },
            Err(e) => return Err(e),
        };
        let hclen: usize = match self.take_bits(4) {
            Ok(v) => {
                proof {
                    self.lemma_small(4);
                    bits::lemma_bits_nat_bound(
                        bits::bytes_bits(self.src()).subrange(
                            self.br.pos() - 4,
                            self.br.pos() as int,
                        ),
                    );
                    bits::lemma_p2_values();
                }
                v as usize + 4
            },
            Err(e) => return Err(e),
        };
        // Five bits hold up to 288 and 32, but there are no symbols beyond 286
        // and 30: such a header describes an alphabet that does not exist.
        if hlit > NUM_LIT || hdist > NUM_DIST {
            return Err(self.wrap(DeflateError::InvalidCode));
        }
        proof {
            self.br.lemma_pos_bound();
            lemma_clen_progress(self.src(), self.st(), 0, hclen as nat, repeated(19, 0));
        }
        let clen: Vec<u8> = match self.clen_table(hclen) {
            Ok(v) => v,
            Err(e) => return Err(e),
        };
        let clen_table = match self.table(clen.as_slice()) {
            Ok(t) => t,
            Err(e) => return Err(e),
        };
        let total: usize = hlit + hdist;
        proof {
            self.br.lemma_pos_bound();
            lemma_code_lengths_progress(
                self.src(),
                clen@,
                self.st(),
                total as nat,
                Seq::<u8>::empty(),
            );
        }
        let lens: Vec<u8> = match self.all_lengths(&clen_table, total) {
            Ok(v) => v,
            Err(e) => return Err(e),
        };
        let lit_lens = vstd::slice::slice_subrange(lens.as_slice(), 0, hlit);
        let dist_lens = vstd::slice::slice_subrange(lens.as_slice(), hlit, total);
        assert(lit_lens@ =~= lens@.take(hlit as int));
        assert(dist_lens@ =~= lens@.skip(hlit as int));
        let lit = match self.table(lit_lens) {
            Ok(t) => t,
            Err(e) => return Err(e),
        };
        let dist = match self.table(dist_lens) {
            Ok(t) => t,
            Err(e) => return Err(e),
        };
        Ok((lit, dist))
    }

    /// One block, after its header.
    fn block(&mut self, btype: u32) -> (r: Result<(), Error>)
        requires
            old(self).wf(),
        ensures
            old(self).goes_to(final(self)),
            match block_body(
                old(self).src(),
                old(self).quotas(),
                old(self).st(),
                btype as nat,
            ) {
                Ok(st) => r == Ok::<(), Error>(()) && final(self).st() == st,
                Err(f) => r == Err::<(), Error>(f.err) && f.out == final(self).st().out,
            },
    {
        if btype == 0 {
            self.block_stored()
        } else if btype == 1 {
            proof {
                tables::lemma_fixed_complete();
            }
            let lit = match self.table(tables::fixed_lit_lengths().as_slice()) {
                Ok(t) => t,
                Err(e) => return Err(e),
            };
            let dist = match self.table(tables::fixed_dist_lengths().as_slice()) {
                Ok(t) => t,
                Err(e) => return Err(e),
            };
            self.block_huffman(&lit, &dist)
        } else if btype == 2 {
            match self.dynamic_tables() {
                Ok((lit, dist)) => self.block_huffman(&lit, &dist),
                Err(e) => Err(e),
            }
        } else {
            Err(self.wrap(DeflateError::ReservedBlockType))
        }
    }

    fn run(&mut self) -> (r: Result<usize, Error>)
        requires
            old(self).wf(),
        ensures
            old(self).goes_to(final(self)),
            match blocks(old(self).src(), old(self).quotas(), old(self).st()) {
                Err(f) => r == Err::<usize, Error>(f.err) && f.out == final(self).st().out,
                Ok(st) => final(self).st() == st && match limits::quota(
                    st.out.len() as u64,
                    old(self).limits.max_part_bytes,
                    crate::error::LimitError::PartTooLarge {
                        got: st.out.len() as u64,
                        max: old(self).limits.max_part_bytes,
                    },
                ) {
                    Err(e) => r == Err::<usize, Error>(e),
                    Ok(_) => r matches Ok(n) && n == (st.at + 7) / 8,
                },
            },
    {
        let ghost whole = blocks(self.src(), self.quotas(), self.st());
        loop
            invariant_except_break
                whole == blocks(self.src(), self.quotas(), self.st()),
            invariant
                old(self).goes_to(self),
                whole == blocks(old(self).src(), old(self).quotas(), old(self).st()),
            ensures
                whole == Ok::<St, Fail>(self.st()),
            decreases 8 * self.src().len() - self.st().at,
        {
            proof {
                self.br.lemma_pos_bound();
                lemma_one_block_progress(self.src(), self.quotas(), self.st());
            }
            let last: u32 = match self.take_bits(1) {
                Ok(v) => v,
                Err(e) => return Err(e),
            };
            let btype: u32 = match self.take_bits(2) {
                Ok(v) => v,
                Err(e) => return Err(e),
            };
            match self.block(btype) {
                Ok(_) => {},
                Err(e) => return Err(e),
            }
            if last == 1 {
                break;
            }
        }
        // The part size is held against its quota exactly; the ratio is not
        // measured again, since on less than one stride a high ratio is no
        // danger.
        match self.limits.check_part_size(self.produced()) {
            Err(e) => return Err(e),
            Ok(_) => {},
        }
        Ok(self.br.bytes_consumed())
    }
}

/// Unpacks a stream and appends the result to `out`; returns the number of
/// input bytes that were read. On an error `out` keeps what was unpacked
/// before it.
pub fn inflate_into(input: &[u8], out: &mut Vec<u8>, limits: &Limits) -> (r: Result<usize, Error>)
    ensures
        match inflated(input@, *limits) {
            Ok((data, n)) => r matches Ok(k) && k == n && final(out)@ == old(out)@ + data,
            Err(f) => r == Err::<usize, Error>(f.err) && final(out)@ == old(out)@ + f.out,
        },
{
    match limits.check_input(input.len() as u64) {
        Err(e) => {
            assert(out@ =~= old(out)@ + Seq::<u8>::empty());
            return Err(e);
        },
        Ok(_) => {},
    }
    let out_start: usize = out.len();
    let mut buf: Vec<u8> = Vec::new();
    core::mem::swap(out, &mut buf);
    let mut state = Inflater {
        br: BitReader::new(input),
        out: buf,
        limits,
        out_start,
        next_check: Limits::RATIO_CHECK_STRIDE,
    };
    let ghost before = state;
    assert(state.st().out =~= Seq::<u8>::empty());
    let r = state.run();
    proof {
        assert(state.out@ =~= state.out@.take(out_start as int) + state.st().out);
        assert(before.out@.take(out_start as int) =~= old(out)@);
    }
    core::mem::swap(out, &mut state.out);
    r
}

} // verus!
