//! What bytes that are written over others, and bytes that are looked for, are.
use vstd::prelude::*;

use crate::bytes::reader::Reader;
use crate::bytes::writer;

verus! {

/// Bytes that were written over others stand where they were written, and all
/// other bytes stay.
pub proof fn lemma_written_over(s: Seq<u8>, at: nat, b: Seq<u8>)
    requires
        at + b.len() <= s.len(),
    ensures
        ({
            let t = writer::overwritten(s, at, b);
            &&& t.len() == s.len()
            &&& t.subrange(at as int, (at + b.len()) as int) == b
            &&& forall|k: int|
                0 <= k < s.len() && !(at <= k < at + b.len()) ==> #[trigger] t[k] == s[k]
        }),
{
    let t = writer::overwritten(s, at, b);
    assert(t.subrange(at as int, (at + b.len()) as int) =~= b);
}

/// Writing over the same place twice leaves what was written last.
pub proof fn lemma_written_over_twice(s: Seq<u8>, at: nat, a: Seq<u8>, b: Seq<u8>)
    requires
        at + b.len() <= s.len(),
        a.len() == b.len(),
    ensures
        writer::overwritten(writer::overwritten(s, at, a), at, b) == writer::overwritten(s, at, b),
{
    assert(writer::overwritten(writer::overwritten(s, at, a), at, b) =~= writer::overwritten(
        s,
        at,
        b,
    ));
}

/// What is found in the last bytes of a buffer is what stands there, be what it
/// may before them.
pub proof fn lemma_tail_alone_is_searched(
    head: Seq<u8>,
    tail: Seq<u8>,
    needle: Seq<u8>,
    window: nat,
    i: int,
)
    requires
        window == tail.len(),
    ensures
        Reader::found_in_tail(head + tail, needle, window, i) == (head.len() <= i && i
            + needle.len() <= head.len() + tail.len() && tail.subrange(
            i - head.len(),
            i - head.len() + needle.len(),
        ) == needle),
{
    let k = i - head.len();
    if 0 <= k && k + needle.len() <= tail.len() {
        assert((head + tail).subrange(i, i + needle.len()) =~= tail.subrange(
            k,
            k + needle.len(),
        ));
    }
}

/// A window that is longer than the buffer holds all of it.
pub proof fn lemma_wide_window(src: Seq<u8>, needle: Seq<u8>, window: nat, i: int)
    requires
        window >= src.len(),
    ensures
        Reader::found_in_tail(src, needle, window, i) == (0 <= i && i + needle.len() <= src.len()
            && src.subrange(i, i + needle.len()) == needle),
{
}

} // verus!
