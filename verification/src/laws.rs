//! What places, errors and quotas say.
use vstd::prelude::*;
use vstd::utf8::{encode_scalar, encode_utf8};

use crate::error;
use crate::error::{Error, LimitError};
use crate::limits;
use crate::limits::Limits;
use crate::text;

verus! {

proof fn lemma_encoded_push(s: Seq<char>, c: char)
    ensures
        encode_utf8(s.push(c)) == encode_utf8(s) + encode_scalar(c as u32),
    decreases s.len(),
{
    let t = s.push(c);
    if s.len() == 0 {
        assert(t.drop_first() =~= Seq::<char>::empty());
        reveal_with_fuel(encode_utf8, 2);
        assert(encode_utf8(t) =~= encode_utf8(s) + encode_scalar(c as u32));
    } else {
        lemma_encoded_push(s.drop_first(), c);
        assert(t.drop_first() =~= s.drop_first().push(c));
        assert(encode_utf8(t) =~= encode_utf8(s) + encode_scalar(c as u32));
    }
}

/// A character takes as many bytes as it is encoded with.
proof fn lemma_width(c: char)
    ensures
        encode_scalar(c as u32).len() == text::utf8_width(c),
{
    assert(encode_scalar(c as u32).len() == if (c as u32) < 0x80 {
        1nat
    } else if (c as u32) < 0x800 {
        2
    } else if (c as u32) < 0x10000 {
        3
    } else {
        4
    });
}

/// The byte offset of a character is the number of bytes of what stands before
/// it.
pub proof fn lemma_offset_counts_bytes(s: Seq<char>, i: nat)
    requires
        i <= s.len(),
    ensures
        text::byte_offset(s, i) == encode_utf8(s.take(i as int)).len(),
    decreases i,
{
    if i > 0 {
        let t = s.take(i - 1);
        lemma_offset_counts_bytes(s, (i - 1) as nat);
        assert(s.take(i as int) =~= t.push(s[i - 1]));
        lemma_encoded_push(t, s[i - 1]);
        lemma_width(s[i - 1]);
    }
}

/// Errors that are the same say the same, and both are quotas or none is.
pub proof fn lemma_same_errors_say_the_same(a: Error, b: Error)
    requires
        error::alike(a, b),
    ensures
        a.message() == b.message(),
        a.limit_flag() == b.limit_flag(),
    decreases a,
{
    match (a, b) {
        (Error::InPart { part: p, source: s }, Error::InPart { part: q, source: u }) => {
            lemma_same_errors_say_the_same(*s, *u);
        },
        _ => {},
    }
}

/// An error under the name of a part says the name, and then what it said.
pub proof fn lemma_part_is_named(a: Error, part: String, e: Error)
    requires
        e matches Error::InPart { part: p, source: s } && p == part && *s == a,
    ensures
        ({
            let t = e.message();
            let own = a.message();
            &&& own.len() + part@.len() < t.len()
            &&& t.skip(t.len() - own.len()) == own
            &&& exists|k: int|
                0 <= k && k + part@.len() <= t.len() - own.len() && #[trigger] t.subrange(
                    k,
                    k + part@.len(),
                ) == part@
            &&& e.limit_flag() == a.limit_flag()
        }),
{
    let t = e.message();
    let own = a.message();
    let k = "в части "@.len() as int;
    reveal_strlit("в части ");
    assert(t.skip(t.len() - own.len()) =~= own);
    assert(t.subrange(k, k + part@.len()) =~= part@);
}

/// A quota holds exactly up to its value, and what exceeds it is an error that
/// is told from damage.
pub proof fn lemma_quota_is_kept(got: u64, max: u64, e: LimitError)
    ensures
        limits::quota(got, max, e) is Ok == (got <= max),
        limits::quota(got, max, e) matches Err(x) ==> x.limit_flag() && x == Error::Limit(e),
{
}

/// The ratio of output to input is held to the quota: output that is less than
/// one more times the input than the quota says is let through, and no other.
/// Without input nothing is measured.
pub proof fn lemma_ratio_is_kept(l: Limits, produced: u64, compressed: u64)
    ensures
        l.ratio_verdict(produced, compressed) is Ok == (compressed == 0 || (produced as int) < (
        l.max_compression_ratio + 1) * compressed),
{
    if compressed > 0 {
        let p = produced as int;
        let c = compressed as int;
        let m = l.max_compression_ratio as int;
        let q = p / c;
        assert(p == c * q + p % c && 0 <= p % c < c) by (nonlinear_arith)
            requires
                c > 0,
                q == p / c,
        ;
        assert(q <= m ==> p < (m + 1) * c) by (nonlinear_arith)
            requires
                p == c * q + p % c,
                0 <= p % c < c,
                c > 0,
        ;
        assert(q > m ==> p >= (m + 1) * c) by (nonlinear_arith)
            requires
                p == c * q + p % c,
                0 <= p % c < c,
                c > 0,
        ;
    }
}

} // verus!
