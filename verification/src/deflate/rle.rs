//! Run-length coding of code lengths (RFC 1951, section 3.2.7).
use vstd::prelude::*;

use crate::deflate::inflate;

verus! {

/// The code lengths `acc` after one more symbol of the code length alphabet.
///
/// An operation is a symbol, the value of its extra bits, and their number.
pub open spec fn rle_one(acc: Seq<u8>, op: (u8, u8, u8)) -> Seq<u8> {
    if op.0 == 16 {
        acc + inflate::repeated((op.1 + 3) as nat, acc.last())
    } else if op.0 == 17 {
        acc + inflate::repeated((op.1 + 3) as nat, 0)
    } else if op.0 == 18 {
        acc + inflate::repeated((op.1 + 11) as nat, 0)
    } else {
        acc.push(op.0)
    }
}

/// The code lengths that the operations spell.
pub open spec fn rle_expand(ops: Seq<(u8, u8, u8)>) -> Seq<u8>
    decreases ops.len(),
{
    if ops.len() == 0 {
        Seq::empty()
    } else {
        rle_one(rle_expand(ops.drop_last()), ops.last())
    }
}

/// The number of extra bits of a symbol.
pub open spec fn extra_width(sym: u8) -> nat {
    if sym == 16 {
        2
    } else if sym == 17 {
        3
    } else if sym == 18 {
        7
    } else {
        0
    }
}

/// An operation that the format has, with something to repeat.
pub open spec fn op_ok(op: (u8, u8, u8), before: nat) -> bool {
    &&& op.0 <= 18
    &&& op.2 == extra_width(op.0)
    &&& op.0 <= 15 ==> op.1 == 0
    &&& op.0 == 16 ==> op.1 < 4 && before > 0
    &&& op.0 == 17 ==> op.1 < 8
    &&& op.0 == 18 ==> op.1 < 128
}

pub open spec fn ops_ok(ops: Seq<(u8, u8, u8)>) -> bool
    decreases ops.len(),
{
    ops.len() == 0 || (ops_ok(ops.drop_last()) && op_ok(
        ops.last(),
        rle_expand(ops.drop_last()).len(),
    ))
}

/// How many operations use symbol `sym`.
pub open spec fn op_count(ops: Seq<(u8, u8, u8)>, sym: int) -> nat
    decreases ops.len(),
{
    if ops.len() == 0 {
        0
    } else {
        op_count(ops.drop_last(), sym) + if ops.last().0 == sym {
            1nat
        } else {
            0
        }
    }
}

/// How many of the lengths from the first on are `v`.
pub open spec fn run_of(seq: Seq<u8>, v: u8) -> nat
    decreases seq.len(),
{
    if seq.len() == 0 || seq[0] != v {
        0
    } else {
        1 + run_of(seq.skip(1), v)
    }
}

/// One operation each for `n` lengths.
pub open spec fn singles(v: u8, n: nat) -> Seq<(u8, u8, u8)> {
    Seq::new(n, |i: int| (v, 0u8, 0u8))
}

/// How many of `n` zeros one long run takes. A rest of one or two zeros would go
/// out one by one; it is cheaper to shorten the run so that the rest makes a
/// short one.
pub open spec fn zeros_taken(n: nat) -> nat {
    if n <= 138 {
        n
    } else if n < 141 {
        (n - 3) as nat
    } else {
        138
    }
}

/// The operations for `n` zeros.
pub open spec fn zero_ops(n: nat) -> Seq<(u8, u8, u8)>
    decreases n,
{
    if n >= 11 {
        let t = zeros_taken(n);
        seq![(18u8, (t - 11) as u8, 7u8)] + zero_ops((n - t) as nat)
    } else if n >= 3 {
        seq![(17u8, (n - 3) as u8, 3u8)]
    } else {
        singles(0, n)
    }
}

/// The operations that repeat a length `n` times.
pub open spec fn repeat_ops(v: u8, n: nat) -> Seq<(u8, u8, u8)>
    decreases n,
{
    if n >= 3 {
        let t: nat = if n < 6 {
            n
        } else {
            6
        };
        seq![(16u8, (t - 3) as u8, 2u8)] + repeat_ops(v, (n - t) as nat)
    } else {
        singles(v, n)
    }
}

/// The operations for a run of `n` lengths.
pub open spec fn run_ops(v: u8, n: nat) -> Seq<(u8, u8, u8)> {
    if v == 0 {
        zero_ops(n)
    } else {
        seq![(v, 0u8, 0u8)] + repeat_ops(v, (n - 1) as nat)
    }
}

/// The operations for code lengths: those of each run, one behind the other.
pub open spec fn folded(seq: Seq<u8>) -> Seq<(u8, u8, u8)>
    decreases seq.len(),
{
    if seq.len() == 0 {
        Seq::empty()
    } else {
        let n = run_of(seq, seq[0]);
        if 0 < n <= seq.len() {
            run_ops(seq[0], n) + folded(seq.skip(n as int))
        } else {
            Seq::empty()
        }
    }
}

/// A count, or the greatest one that there is room for.
pub open spec fn held(n: nat) -> int {
    if n <= u32::MAX {
        n as int
    } else {
        u32::MAX as int
    }
}

/// A run is as long as the lengths are the same.
proof fn lemma_run_of(seq: Seq<u8>, v: u8, n: int)
    requires
        0 <= n <= seq.len(),
        all_same(seq, 0, n, v),
        n < seq.len() ==> seq[n] != v,
    ensures
        run_of(seq, v) == n,
    decreases n,
{
    if n > 0 {
        assert(seq[0] == v);
        assert forall|i: int| 0 <= i < n - 1 implies #[trigger] seq.skip(1)[i] == v by {
            assert(seq[i + 1] == v);
        }
        lemma_run_of(seq.skip(1), v, n - 1);
    }
}

/// A coding under way: the operations so far spell the first `done` lengths,
/// and the symbols are counted.
spec fn under_way(
    ops: Seq<(u8, u8, u8)>,
    freq: Seq<u32>,
    seq: Seq<u8>,
    done: int,
) -> bool {
    &&& 0 <= done <= seq.len()
    &&& ops.len() <= done
    &&& ops_ok(ops)
    &&& rle_expand(ops) == seq.take(done)
    &&& freq.len() == 19
    &&& forall|s: int| 0 <= s < 19 ==> #[trigger] freq[s] == held(op_count(ops, s))
}

/// The `n` lengths at `from` are all `v`.
spec fn all_same(seq: Seq<u8>, from: int, n: int, v: u8) -> bool {
    &&& from + n <= seq.len()
    &&& forall|i: int| from <= i < from + n ==> #[trigger] seq[i] == v
}

proof fn lemma_take_run(seq: Seq<u8>, from: int, n: nat, v: u8)
    requires
        0 <= from,
        all_same(seq, from, n as int, v),
    ensures
        seq.take(from) + inflate::repeated(n, v) == seq.take(from + n),
{
    assert(seq.take(from) + inflate::repeated(n, v) =~= seq.take(from + n));
}

/// Adds an operation that spells the next `n` lengths.
fn add_op(
    ops: &mut Vec<(u8, u8, u8)>,
    freq: &mut Vec<u32>,
    op: (u8, u8, u8),
    Ghost(seq): Ghost<Seq<u8>>,
    Ghost(done): Ghost<int>,
    Ghost(n): Ghost<int>,
)
    requires
        under_way(old(ops)@, old(freq)@, seq, done),
        n >= 1,
        done + n <= seq.len(),
        op_ok(op, done as nat),
        rle_one(seq.take(done), op) == seq.take(done + n),
    ensures
        under_way(final(ops)@, final(freq)@, seq, done + n),
        final(ops)@ == old(ops)@.push(op),
{
    let ghost ops0 = ops@;
    let ghost freq0 = freq@;
    let sym: usize = op.0 as usize;
    proof {
        assert(freq0[sym as int] == held(op_count(ops0, sym as int)));
    }
    freq[sym] = freq[sym].saturating_add(1);
    ops.push(op);
    assert(ops@.drop_last() =~= ops0);
    assert(rle_expand(ops0).len() == done);
    assert forall|s: int| 0 <= s < 19 implies #[trigger] freq@[s] == held(op_count(ops@, s)) by {
        assert(freq0[s] == held(op_count(ops0, s)));
    }
}

pub proof fn lemma_op_count_bound(ops: Seq<(u8, u8, u8)>, s: int)
    ensures
        op_count(ops, s) <= ops.len(),
    decreases ops.len(),
{
    if ops.len() > 0 {
        lemma_op_count_bound(ops.drop_last(), s);
    }
}

/// Puts a run of zeros into operations.
fn zero_run(
    ops: &mut Vec<(u8, u8, u8)>,
    freq: &mut Vec<u32>,
    run: usize,
    Ghost(seq): Ghost<Seq<u8>>,
    Ghost(from): Ghost<int>,
)
    requires
        under_way(old(ops)@, old(freq)@, seq, from),
        all_same(seq, from, run as int, 0),
    ensures
        under_way(final(ops)@, final(freq)@, seq, from + run),
        final(ops)@ == old(ops)@ + zero_ops(run as nat),
{
    let ghost whole = ops@ + zero_ops(run as nat);
    let mut left: usize = run;
    while left >= 11
        invariant
            left <= run,
                all_same(seq, from, run as int, 0),
            under_way(ops@, freq@, seq, from + run - left),
            whole == ops@ + zero_ops(left as nat),
        decreases left,
    {
        let ghost ops0 = ops@;
        // A rest of one or two zeros would go out one by one; it is cheaper to
        // shorten this run so that the rest makes a short one.
        let take: usize = if left > 138 && left - 138 < 3 {
            left - 3
        } else if left > 138 {
            138
        } else {
            left
        };
        proof {
            lemma_take_run(seq, from + run - left, take as nat, 0);
        }
        add_op(
            ops,
            freq,
            (18, (take - 11) as u8, 7),
            Ghost(seq),
            Ghost(from + run - left),
            Ghost(take as int),
        );
        proof {
            let op = (18u8, (take - 11) as u8, 7u8);
            let rest = zero_ops((left - take) as nat);
            assert(take == zeros_taken(left as nat));
            assert(ops0 + (seq![op] + rest) =~= ops0.push(op) + rest);
        }
        left = left - take;
    }
    if left >= 3 {
        proof {
            lemma_take_run(seq, from + run - left, left as nat, 0);
            let op = (17u8, (left - 3) as u8, 3u8);
            assert(whole =~= ops@.push(op));
            assert(whole + singles(0, 0) =~= whole);
        }
        add_op(
            ops,
            freq,
            (17, (left - 3) as u8, 3),
            Ghost(seq),
            Ghost(from + run - left),
            Ghost(left as int),
        );
        left = 0;
    }
    single_ops(ops, freq, left, 0, Ghost(seq), Ghost(from + run - left));
}

/// Puts `n` lengths into one operation each.
fn single_ops(
    ops: &mut Vec<(u8, u8, u8)>,
    freq: &mut Vec<u32>,
    n: usize,
    v: u8,
    Ghost(seq): Ghost<Seq<u8>>,
    Ghost(from): Ghost<int>,
)
    requires
        v <= 15,
        under_way(old(ops)@, old(freq)@, seq, from),
        all_same(seq, from, n as int, v),
    ensures
        under_way(final(ops)@, final(freq)@, seq, from + n),
        final(ops)@ == old(ops)@ + singles(v, n as nat),
{
    let ghost ops0 = ops@;
    assert(ops0 + singles(v, 0) =~= ops0);
    let mut i: usize = 0;
    while i < n
        invariant
            i <= n,
            v <= 15,
                all_same(seq, from, n as int, v),
            under_way(ops@, freq@, seq, from + i),
            ops@ == ops0 + singles(v, i as nat),
        decreases n - i,
    {
        assert(seq.take(from + i).push(v) =~= seq.take(from + i + 1));
        add_op(ops, freq, (v, 0, 0), Ghost(seq), Ghost(from + i), Ghost(1));
        i = i + 1;
        assert(ops@ =~= ops0 + singles(v, i as nat));
    }
}

/// Puts a run of a length other than zero into operations.
fn value_run(
    ops: &mut Vec<(u8, u8, u8)>,
    freq: &mut Vec<u32>,
    run: usize,
    v: u8,
    Ghost(seq): Ghost<Seq<u8>>,
    Ghost(from): Ghost<int>,
)
    requires
        v <= 15,
        run >= 1,
        under_way(old(ops)@, old(freq)@, seq, from),
        all_same(seq, from, run as int, v),
    ensures
        under_way(final(ops)@, final(freq)@, seq, from + run),
        final(ops)@ == old(ops)@ + (seq![(v, 0u8, 0u8)] + repeat_ops(v, (run - 1) as nat)),
{
    let ghost whole = ops@ + (seq![(v, 0u8, 0u8)] + repeat_ops(v, (run - 1) as nat));
    assert(seq.take(from).push(v) =~= seq.take(from + 1));
    add_op(ops, freq, (v, 0, 0), Ghost(seq), Ghost(from), Ghost(1));
    let mut left: usize = run - 1;
    assert(whole =~= ops@ + repeat_ops(v, left as nat));
    while left >= 3
        invariant
            left <= run - 1,
            v <= 15,
                0 <= from,
            all_same(seq, from, run as int, v),
            under_way(ops@, freq@, seq, from + run - left),
            whole == ops@ + repeat_ops(v, left as nat),
        decreases left,
    {
        let ghost ops0 = ops@;
        let take: usize = if left < 6 {
            left
        } else {
            6
        };
        proof {
            lemma_take_run(seq, from + run - left, take as nat, v);
            assert(seq.take(from + run - left).last() == v);
        }
        add_op(
            ops,
            freq,
            (16, (take - 3) as u8, 2),
            Ghost(seq),
            Ghost(from + run - left),
            Ghost(take as int),
        );
        proof {
            let op = (16u8, (take - 3) as u8, 2u8);
            let rest = repeat_ops(v, (left - take) as nat);
            assert(ops0 + (seq![op] + rest) =~= ops0.push(op) + rest);
        }
        left = left - take;
    }
    single_ops(ops, freq, left, v, Ghost(seq), Ghost(from + run - left));
}

/// Puts code lengths into operations of the code length alphabet, and counts
/// how often each symbol is used.
pub fn rle_lengths(seq: &[u8]) -> (r: (Vec<(u8, u8, u8)>, Vec<u32>))
    requires
        forall|i: int| 0 <= i < seq@.len() ==> #[trigger] seq@[i] <= 15,
    ensures
        r.0@ == folded(seq@),
        ops_ok(r.0@),
        rle_expand(r.0@) == seq@,
        r.0@.len() <= seq@.len(),
        r.1@.len() == 19,
        forall|s: int| 0 <= s < 19 ==> #[trigger] r.1@[s] == held(op_count(r.0@, s)),
{
    let mut ops: Vec<(u8, u8, u8)> = Vec::new();
    let mut freq: Vec<u32> = vec![0u32; 19];
    let mut i: usize = 0;
    assert(seq@.take(0) =~= Seq::<u8>::empty());
    assert(seq@.skip(0) =~= seq@);
    assert(ops@ + folded(seq@) =~= folded(seq@));
    while i < seq.len()
        invariant
            i <= seq@.len(),
            folded(seq@) == ops@ + folded(seq@.skip(i as int)),
            forall|k: int| 0 <= k < seq@.len() ==> #[trigger] seq@[k] <= 15,
            under_way(ops@, freq@, seq@, i as int),
        decreases seq@.len() - i,
    {
        let v: u8 = seq[i];
        let mut run: usize = 1;
        while i + run < seq.len() && seq[i + run] == v
            invariant
                run >= 1,
                i + run <= seq.len(),
                all_same(seq@, i as int, run as int, v),
            decreases seq@.len() - i - run,
        {
            run = run + 1;
        }
        let ghost ops0 = ops@;
        if v == 0 {
            zero_run(&mut ops, &mut freq, run, Ghost(seq@), Ghost(i as int));
        } else {
            value_run(&mut ops, &mut freq, run, v, Ghost(seq@), Ghost(i as int));
        }
        proof {
            let rest = seq@.skip(i as int);
            assert forall|k: int| 0 <= k < run implies #[trigger] rest[k] == v by {
                assert(seq@[i + k] == v);
            }
            lemma_run_of(rest, v, run as int);
            assert(rest.skip(run as int) =~= seq@.skip(i + run));
            assert(ops0 + (run_ops(v, run as nat) + folded(seq@.skip(i + run))) =~= ops0 + run_ops(
                v,
                run as nat,
            ) + folded(seq@.skip(i + run)));
        }
        i = i + run;
    }
    assert(seq@.take(i as int) =~= seq@);
    assert(folded(seq@.skip(i as int)) =~= Seq::empty());
    assert(ops@ + folded(seq@.skip(i as int)) =~= ops@);
    (ops, freq)
}

/// The number of the last used symbol plus one, but at least `min`.
pub open spec fn used_len(lens: Seq<u8>, min: nat) -> nat
    decreases lens.len(),
{
    if lens.len() <= min {
        min
    } else if lens.last() != 0 {
        lens.len()
    } else {
        used_len(lens.drop_last(), min)
    }
}

/// The number of the last used symbol plus one, but at least `min`.
pub fn used_upto(lens: &[u8], min: usize) -> (r: usize)
    ensures
        r == used_len(lens@, min as nat),
        r >= min,
        forall|i: int| r <= i < lens@.len() ==> #[trigger] lens@[i] == 0,
        r > min ==> r <= lens@.len() && lens@[r - 1] != 0,
{
    let mut n: usize = lens.len();
    assert(lens@.take(n as int) =~= lens@);
    while n > min && lens[n - 1] == 0
        invariant
            n <= lens@.len(),
            used_len(lens@, min as nat) == used_len(lens@.take(n as int), min as nat),
            forall|i: int| n <= i < lens@.len() ==> #[trigger] lens@[i] == 0,
        decreases n,
    {
        assert(lens@.take(n as int).drop_last() =~= lens@.take(n - 1));
        n = n - 1;
    }
    if n > min {
        n
    } else {
        min
    }
}

} // verus!
