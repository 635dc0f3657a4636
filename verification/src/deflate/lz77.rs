//! Finding LZ77 matches with hash chains.
//!
//! For each position a hash of three bytes is taken. `head` holds the last
//! position with a hash, `prev` the one before it; together they are chains of
//! candidates, from the freshest to the oldest. The number of candidates is
//! bounded, which keeps the time linear.
//!
//! The lazy scheme puts a match off by one byte: if a longer one begins at the
//! next position, the byte goes out as a literal.
use vstd::prelude::*;

use crate::deflate::inflate;
use crate::deflate::Level;

verus! {

/// The shortest match.
pub const MIN_MATCH: usize = 3;

/// The longest match.
pub const MAX_MATCH: usize = 258;

/// Size of the search window.
pub const WSIZE: usize = 32768;

const HASH_SIZE: usize = 32768;

/// An empty place of a chain.
const NIL: u32 = 0xFFFF_FFFF;

/// Beyond this distance a match of three bytes costs more than the bytes.
const TOO_FAR: usize = 4096;

/// How many bytes of input a block gathers. The length field of a stored block
/// holds 65535; the rest covers a match that begins at the border.
const BLOCK_BYTES: usize = 65_000;

/// How many tokens a block gathers.
const BLOCK_TOKENS: usize = 32_768;

/// One element of an LZ77 stream: a byte, or a copy of earlier output.
#[derive(Debug, Clone, Copy, PartialEq, Eq, Structural)]
pub struct Token {
    dist: u16,
    value: u16,
}

impl Token {
    /// How far back a match reaches; zero for a literal.
    pub closed spec fn back(self) -> nat {
        self.dist as nat
    }

    /// The byte of a literal, or the length of a match.
    pub closed spec fn amount(self) -> nat {
        self.value as nat
    }

    /// The token of a byte.
    pub closed spec fn of_byte(byte: u8) -> Token {
        Token { dist: 0, value: byte as u16 }
    }

    /// The token of a match.
    pub closed spec fn of_match(len: nat, dist: nat) -> Token {
        Token { dist: dist as u16, value: len as u16 }
    }

    #[must_use]
    pub fn literal(byte: u8) -> (r: Self)
        ensures
            r == Self::of_byte(byte),
            r.back() == 0,
            r.amount() == byte,
    {
        Token { dist: 0, value: byte as u16 }
    }

    #[must_use]
    pub fn match_ref(len: u16, dist: u16) -> (r: Self)
        ensures
            r == Self::of_match(len as nat, dist as nat),
            r.back() == dist,
            r.amount() == len,
    {
        Token { dist, value: len }
    }

    /// The distance of a match; zero for a literal.
    #[must_use]
    pub fn dist(self) -> (r: u16)
        ensures
            r == self.back(),
    {
        self.dist
    }

    /// The byte of a literal, or the length of a match.
    #[must_use]
    pub fn value(self) -> (r: u16)
        ensures
            r == self.amount(),
    {
        self.value
    }
}

/// The output `out` after one more token.
pub open spec fn expand_one(out: Seq<u8>, t: Token) -> Seq<u8> {
    if t.back() == 0 {
        out.push(t.amount() as u8)
    } else {
        inflate::repeat_back(out, t.amount(), t.back())
    }
}

/// The output `out` after more tokens.
pub open spec fn expand(out: Seq<u8>, tokens: Seq<Token>) -> Seq<u8>
    decreases tokens.len(),
{
    if tokens.len() == 0 {
        out
    } else {
        expand_one(expand(out, tokens.drop_last()), tokens.last())
    }
}

/// A token that DEFLATE can express behind `len` bytes of output.
pub open spec fn token_ok(t: Token, len: nat) -> bool {
    if t.back() == 0 {
        t.amount() < 256
    } else {
        3 <= t.amount() <= 258 && t.back() <= 32767 && t.back() <= len
    }
}

/// Every token can be expressed where it stands.
pub open spec fn tokens_ok(out: Seq<u8>, tokens: Seq<Token>) -> bool
    decreases tokens.len(),
{
    tokens.len() == 0 || (tokens_ok(out, tokens.drop_last()) && token_ok(
        tokens.last(),
        expand(out, tokens.drop_last()).len(),
    ))
}

proof fn lemma_push_token(out: Seq<u8>, tokens: Seq<Token>, t: Token)
    ensures
        expand(out, tokens.push(t)) == expand_one(expand(out, tokens), t),
        tokens_ok(out, tokens.push(t)) == (tokens_ok(out, tokens) && token_ok(
            t,
            expand(out, tokens).len(),
        )),
{
    assert(tokens.push(t).drop_last() =~= tokens);
}

/// The `n` bytes at `pos` are those `dist` places before.
pub open spec fn same_back(data: Seq<u8>, pos: int, n: int, dist: int) -> bool {
    &&& 0 < dist <= pos
    &&& pos + n <= data.len()
    &&& forall|k: int| 0 <= k < n ==> #[trigger] data[pos + k] == data[pos - dist + k]
}

/// Copying back what is the same anyway continues the data.
proof fn lemma_copy_is_data(data: Seq<u8>, pos: int, n: nat, dist: nat)
    requires
        same_back(data, pos, n as int, dist as int),
    ensures
        inflate::repeat_back(data.take(pos), n, dist) == data.take(pos + n),
    decreases n,
{
    if n > 0 {
        assert(data[pos + 0] == data[pos - dist + 0]);
        assert(data.take(pos).push(data.take(pos)[pos - dist]) =~= data.take(pos + 1));
        assert(same_back(data, pos + 1, n - 1, dist as int)) by {
            assert forall|k: int| 0 <= k < n - 1 implies #[trigger] data[pos + 1 + k] == data[pos
                + 1 - dist + k] by {
                assert(data[pos + (k + 1)] == data[pos - dist + (k + 1)]);
            }
        }
        lemma_copy_is_data(data, pos + 1, (n - 1) as nat, dist);
    }
}

/// How matches are searched for at a level.
#[derive(Debug, Clone, Copy)]
pub struct Config {
    /// Whether matches are put off by one byte.
    pub lazy: bool,
    /// From this length on the chain is cut to a quarter.
    pub good_len: usize,
    /// A match that is shorter may be replaced by one at the next position.
    pub max_lazy: usize,
    /// A match of this length ends the search.
    pub nice_len: usize,
    /// How many candidates are looked at.
    pub max_chain: u32,
}

/// The search of each level. Nothing is searched for at the level that stores.
pub open spec fn config_of(level: Level) -> Config {
    match level {
        Level::Store | Level::Fast => Config {
            lazy: false,
            good_len: 4,
            max_lazy: 0,
            nice_len: 16,
            max_chain: 8,
        },
        Level::Default => Config {
            lazy: true,
            good_len: 8,
            max_lazy: 16,
            nice_len: 128,
            max_chain: 128,
        },
        Level::Best => Config {
            lazy: true,
            good_len: 8,
            max_lazy: 16,
            nice_len: 258,
            max_chain: 512,
        },
    }
}

impl Config {
    fn for_level(level: Level) -> (r: Self)
        ensures
            r == config_of(level),
    {
        match level {
            // Nothing is searched for at the level that stores.
            Level::Store | Level::Fast => Config {
                lazy: false,
                good_len: 4,
                max_lazy: 0,
                nice_len: 16,
                max_chain: 8,
            },
            Level::Default => Config {
                lazy: true,
                good_len: 8,
                max_lazy: 16,
                nice_len: 128,
                max_chain: 128,
            },
            Level::Best => Config {
                lazy: true,
                good_len: 8,
                max_lazy: 16,
                nice_len: MAX_MATCH,
                max_chain: 512,
            },
        }
    }
}

/// The hash of the three bytes at a position.
pub open spec fn hash3(data: Seq<u8>, q: int) -> int {
    let v = (data[q] * 65536 + data[q + 1] * 256 + data[q + 2]) as u32;
    (v.wrapping_mul(0x9E37_79B1) / 131072) as int
}

/// The last position before `n` with a hash; -1 when there is none.
pub open spec fn last_with(data: Seq<u8>, h: int, n: nat) -> int
    decreases n,
{
    if n == 0 {
        -1
    } else if n + 2 <= data.len() && hash3(data, n - 1) == h {
        n - 1
    } else {
        last_with(data, h, (n - 1) as nat)
    }
}

/// The last position before `q` with its hash; -1 when there is none.
pub open spec fn earlier(data: Seq<u8>, q: int) -> int {
    if 0 <= q && q + 3 <= data.len() {
        last_with(data, hash3(data, q), q as nat)
    } else {
        -1
    }
}

proof fn lemma_last_with(data: Seq<u8>, h: int, n: nat)
    ensures
        ({
            let r = last_with(data, h, n);
            &&& -1 <= r < n
            &&& r >= 0 ==> r + 3 <= data.len() && hash3(data, r) == h
        }),
    decreases n,
{
    if n > 0 {
        lemma_last_with(data, h, (n - 1) as nat);
    }
}

/// How many bytes at `a` and at `b` are the same, `max` at most.
pub open spec fn same_run(data: Seq<u8>, a: int, b: int, max: nat) -> nat
    decreases max,
{
    if max == 0 || data[a] != data[b] {
        0
    } else {
        1 + same_run(data, a + 1, b + 1, (max - 1) as nat)
    }
}

proof fn lemma_same_run(data: Seq<u8>, a: int, b: int, max: nat, r: nat)
    requires
        r <= max,
        forall|k: int| 0 <= k < r ==> #[trigger] data[a + k] == data[b + k],
        r < max ==> data[a + r] != data[b + r],
    ensures
        same_run(data, a, b, max) == r,
    decreases max,
{
    if r > 0 {
        assert(data[a + 0] == data[b + 0]);
        assert forall|k: int| 0 <= k < r - 1 implies #[trigger] data[a + 1 + k] == data[b + 1
            + k] by {
            assert(data[a + (k + 1)] == data[b + (k + 1)]);
        }
        lemma_same_run(data, a + 1, b + 1, (max - 1) as nat, (r - 1) as nat);
    }
}

/// The longest match that can stand at a position.
pub open spec fn room(data: Seq<u8>, pos: int) -> nat {
    if data.len() - pos < 258 {
        (data.len() - pos) as nat
    } else {
        258
    }
}

/// The search for a match: `chain` candidates at most, from the freshest to the
/// oldest in the window, each at the hash of `pos`. The first of the longest
/// wins over what was found before; one that is long enough ends the search.
pub open spec fn search(
    data: Seq<u8>,
    cfg: Config,
    pos: int,
    cand: int,
    chain: nat,
    best: (nat, nat),
) -> (nat, nat)
    decreases chain,
{
    if chain == 0 || cand < 0 || cand + 32768 < pos + 1 {
        best
    } else {
        let len = same_run(data, cand, pos, room(data, pos));
        if len <= best.0 {
            search(data, cfg, pos, earlier(data, cand), (chain - 1) as nat, best)
        } else if len >= cfg.nice_len || len >= room(data, pos) {
            (len, (pos - cand) as nat)
        } else {
            search(
                data,
                cfg,
                pos,
                earlier(data, cand),
                (chain - 1) as nat,
                (len, (pos - cand) as nat),
            )
        }
    }
}

/// The match at a position that is longer than `prev_len` and than two bytes:
/// its length and its distance; twice zero when there is none.
pub open spec fn match_at(data: Seq<u8>, cfg: Config, pos: int, prev_len: nat) -> (nat, nat) {
    let found = search(
        data,
        cfg,
        pos,
        earlier(data, pos),
        if prev_len >= cfg.good_len {
            (cfg.max_chain / 4) as nat
        } else {
            cfg.max_chain as nat
        },
        (
            if prev_len > 2 {
                prev_len
            } else {
                2
            },
            0,
        ),
    );
    if found.1 == 0 {
        (0, 0)
    } else {
        found
    }
}

/// A match that costs less than its bytes.
pub open spec fn worth(m: (nat, nat)) -> bool {
    m.0 >= 3 && !(m.0 == 3 && m.1 > 4096)
}

/// A match where it costs less than its bytes; else twice zero.
pub open spec fn worthy(m: (nat, nat)) -> (nat, nat) {
    if worth(m) {
        m
    } else {
        (0, 0)
    }
}

/// What is left of the input from a position on.
pub open spec fn left_of(data: Seq<u8>, pos: nat) -> nat {
    if pos < data.len() {
        (data.len() - pos) as nat
    } else {
        0
    }
}

/// A block that has gathered enough.
pub open spec fn is_full(covered: int, tokens: Seq<Token>) -> bool {
    covered >= 65_000 || tokens.len() >= 32_768
}

/// The tokens of a block and the end of its input, where each match is taken as
/// it is found.
pub open spec fn greedy(data: Seq<u8>, cfg: Config, start: nat, pos: nat, tokens: Seq<Token>) -> (
    Seq<Token>,
    nat,
)
    decreases left_of(data, pos),
{
    if pos >= data.len() || is_full(pos - start, tokens) {
        (tokens, pos)
    } else {
        let m = match_at(data, cfg, pos as int, 2);
        if worth(m) {
            greedy(data, cfg, start, pos + m.0, tokens.push(Token::of_match(m.0, m.1)))
        } else {
            greedy(data, cfg, start, pos + 1, tokens.push(Token::of_byte(data[pos as int])))
        }
    }
}

/// The tokens of a block and the end of its input, where a match is put off by
/// one byte: when `pending`, the byte before `pos` waits, and `held` is the match
/// that begins there.
pub open spec fn lazy(
    data: Seq<u8>,
    cfg: Config,
    start: nat,
    pos: nat,
    pending: bool,
    held: (nat, nat),
    tokens: Seq<Token>,
) -> (Seq<Token>, nat)
    decreases left_of(data, pos),
{
    if pos >= data.len() || is_full(
        pos - start - if pending {
            1int
        } else {
            0
        },
        tokens,
    ) {
        (
            if pending {
                tokens.push(Token::of_byte(data[pos - 1]))
            } else {
                tokens
            },
            pos,
        )
    } else {
        let m = if held.0 < cfg.max_lazy {
            worthy(match_at(data, cfg, pos as int, held.0))
        } else {
            (0, 0)
        };
        if held.0 >= 3 && m.0 <= held.0 {
            lazy(
                data,
                cfg,
                start,
                (pos + held.0 - 1) as nat,
                false,
                (0, 0),
                tokens.push(Token::of_match(held.0, held.1)),
            )
        } else if pending {
            lazy(data, cfg, start, pos + 1, true, m, tokens.push(Token::of_byte(data[pos - 1])))
        } else {
            lazy(data, cfg, start, pos + 1, true, m, tokens)
        }
    }
}

/// The tokens of the block that begins at a position, and the end of its input.
pub open spec fn block_at(data: Seq<u8>, cfg: Config, start: nat) -> (Seq<Token>, nat) {
    if cfg.lazy {
        lazy(data, cfg, start, start, false, (0, 0), Seq::empty())
    } else {
        greedy(data, cfg, start, start, Seq::empty())
    }
}

/// The position in a place of a chain; -1 in an empty one.
spec fn link(x: u32) -> int {
    if x == NIL {
        -1
    } else {
        x as int
    }
}

/// The chains hold the positions below `n`: each head the last one with its
/// hash, and each place of the window the one before with the same hash.
spec fn chained(head: Seq<u32>, prev: Seq<u32>, data: Seq<u8>, n: int) -> bool {
    &&& head.len() == 32768
    &&& prev.len() == 32768
    &&& forall|h: int|
        0 <= h < 32768 ==> link(#[trigger] head[h]) == last_with(data, h, n as nat)
    &&& forall|q: int|
        0 <= q < n <= q + 32768 && q + 3 <= data.len() ==> link(prev[q % 32768])
            == #[trigger] earlier(data, q)
}

/// The state of the search. The table is one for the whole input: a match may
/// reach back over the start of a block.
#[derive(Debug)]
pub struct Lz77<'a> {
    data: &'a [u8],
    head: Vec<u32>,
    prev: Vec<u32>,
    pos: usize,
    cfg: Config,
}

impl<'a> Lz77<'a> {
    /// The input.
    pub closed spec fn input(&self) -> Seq<u8> {
        self.data@
    }

    /// How much of the input has been put into tokens.
    pub closed spec fn done(&self) -> nat {
        self.pos as nat
    }

    /// How matches are searched for.
    pub closed spec fn config(&self) -> Config {
        self.cfg
    }

    pub closed spec fn wf(&self) -> bool {
        &&& chained(self.head@, self.prev@, self.data@, self.pos as int)
        &&& self.pos <= self.data@.len() <= u32::MAX
    }

    #[must_use]
    pub fn new(data: &'a [u8], level: Level) -> (r: Self)
        requires
            data@.len() <= u32::MAX,
        ensures
            r.wf(),
            r.input() == data@,
            r.done() == 0,
            r.config() == config_of(level),
    {
        Lz77 {
            data,
            head: vec![NIL; HASH_SIZE],
            prev: vec![NIL; WSIZE],
            pos: 0,
            cfg: Config::for_level(level),
        }
    }

    #[must_use]
    pub fn is_done(&self) -> (r: bool)
        requires
            self.wf(),
        ensures
            r == (self.done() == self.input().len()),
    {
        self.pos >= self.data.len()
    }

    /// The hash of the three bytes at `at`; `None` when there are fewer.
    fn hash_at(&self, at: usize) -> (r: Option<usize>)
        ensures
            r is Some <==> at + 3 <= self.data@.len(),
            r matches Some(h) ==> h == hash3(self.data@, at as int) && h < 32768,
    {
        if self.data.len() < MIN_MATCH || at > self.data.len() - MIN_MATCH {
            return None;
        }
        let a: u32 = self.data[at] as u32;
        let b: u32 = self.data[at + 1] as u32;
        let c: u32 = self.data[at + 2] as u32;
        let v: u32 = a * 65536 + b * 256 + c;
        let h: u32 = v.wrapping_mul(0x9E37_79B1) / 131072;
        Some(h as usize)
    }

    /// Puts a position at the head of its chain and returns the head before.
    fn insert(&mut self, at: usize) -> (r: u32)
        requires
            at < old(self).data@.len() <= u32::MAX,
            chained(old(self).head@, old(self).prev@, old(self).data@, at as int),
        ensures
            chained(final(self).head@, final(self).prev@, final(self).data@, at + 1),
            final(self).data == old(self).data,
            final(self).pos == old(self).pos,
            final(self).cfg == old(self).cfg,
            link(r) == earlier(old(self).data@, at as int),
            r == NIL || r < at,
    {
        let h: usize = match self.hash_at(at) {
            None => return NIL,
            Some(h) => h,
        };
        let prev_head: u32 = self.head[h];
        self.head[h] = at as u32;
        self.prev[at % WSIZE] = prev_head;
        proof {
            lemma_last_with(self.data@, h as int, at as nat);
            assert forall|q: int|
                0 <= q < at + 1 <= q + 32768 && q + 3 <= self.data@.len() implies link(
                self.prev@[q % 32768],
            ) == #[trigger] earlier(self.data@, q) by {
                if q < at {
                    assert(q % 32768 != at as int % 32768);
                    assert(link(old(self).prev@[q % 32768]) == earlier(self.data@, q));
                }
            }
        }
        prev_head
    }

    /// The longest match for `pos` among the candidates of the chain from
    /// `head` on; `(0, 0)` when none is longer than `prev_len`.
    fn longest_match(&self, pos: usize, head: u32, prev_len: usize) -> (r: (usize, usize))
        requires
            chained(self.head@, self.prev@, self.data@, pos + 1),
            pos < self.data@.len() <= u32::MAX,
            prev_len <= MAX_MATCH,
            link(head) == earlier(self.data@, pos as int),
        ensures
            (r.0 as nat, r.1 as nat) == match_at(self.data@, self.cfg, pos as int, prev_len as nat),
            r == (0usize, 0usize) || ({
                &&& 3 <= r.0 <= room(self.data@, pos as int)
                &&& prev_len < r.0
                &&& r.1 < WSIZE
                &&& same_back(self.data@, pos as int, r.0 as int, r.1 as int)
                &&& r.0 == room(self.data@, pos as int) || self.data@[pos + r.0] != self.data@[pos
                    - r.1 + r.0]
            }),
    {
        let data = self.data;
        let left: usize = data.len() - pos;
        let max_len: usize = if left < MAX_MATCH {
            left
        } else {
            MAX_MATCH
        };
        if max_len < MIN_MATCH {
            return (0, 0);
        }
        let mut best_len: usize = if prev_len > MIN_MATCH - 1 {
            prev_len
        } else {
            MIN_MATCH - 1
        };
        let mut best_dist: usize = 0;
        // A distance of exactly the window is not taken: by now its place in
        // `prev` may belong to `pos`.
        let limit: usize = (pos + 1).saturating_sub(WSIZE);
        let mut chain: u32 = if prev_len >= self.cfg.good_len {
            self.cfg.max_chain / 4
        } else {
            self.cfg.max_chain
        };
        let mut cur: u32 = head;
        let ghost whole = search(
            data@,
            self.cfg,
            pos as int,
            link(head),
            chain as nat,
            (best_len as nat, 0),
        );
        proof {
            lemma_last_with(data@, hash3(data@, pos as int), pos as nat);
        }
        while chain > 0 && cur != NIL && cur as usize >= limit
            invariant
                data@ == self.data@,
                chained(self.head@, self.prev@, data@, pos + 1),
                pos < data@.len() <= u32::MAX,
                limit == if pos + 1 >= WSIZE {
                    pos + 1 - WSIZE
                } else {
                    0
                },
                max_len == room(data@, pos as int),
                3 <= max_len <= MAX_MATCH,
                pos + max_len <= data@.len(),
                prev_len <= best_len,
                2 <= best_len <= MAX_MATCH,
                -1 <= link(cur) < pos,
                whole == search(
                    data@,
                    self.cfg,
                    pos as int,
                    link(cur),
                    chain as nat,
                    (best_len as nat, best_dist as nat),
                ),
                best_dist == 0 || ({
                    &&& 3 <= best_len <= max_len
                    &&& prev_len < best_len
                    &&& best_dist < WSIZE
                    &&& same_back(data@, pos as int, best_len as int, best_dist as int)
                    &&& best_len == max_len || data@[pos + best_len] != data@[pos - best_dist
                        + best_len]
                }),
            decreases chain,
        {
            let cand: usize = cur as usize;
            let mut stop: bool = false;
            let ghost run = same_run(data@, cand as int, pos as int, max_len as nat);
            proof {
                lemma_run_reaches(data@, cand as int, pos as int, max_len as nat);
                lemma_last_with(data@, hash3(data@, cand as int), cand as nat);
                assert(link(self.prev@[cand as int % 32768]) == earlier(data@, cand as int));
            }
            // One comparison rules a candidate out: if the byte at `best_len`
            // differs, it is no longer than what was found.
            if best_len < data.len() - pos && data[cand + best_len] == data[pos + best_len] {
                let len: usize = common_len(data, cand, pos, max_len);
                if len > best_len {
                    best_len = len;
                    best_dist = pos - cand;
                    assert(same_back(data@, pos as int, best_len as int, best_dist as int)) by {
                        assert forall|k: int| 0 <= k < best_len implies #[trigger] data@[pos + k]
                            == data@[pos - best_dist + k] by {
                            assert(data@[cand + k] == data@[pos + k]);
                        }
                    }
                    if len >= self.cfg.nice_len || len >= max_len {
                        stop = true;
                    }
                }
            } else {
                assert(run <= best_len) by {
                    if run > best_len {
                        assert(data@[cand + best_len] == data@[pos + best_len]);
                    }
                }
            }
            let next: u32 = self.prev[cand % WSIZE];
            // The chain has to go down strictly: a place that does not was
            // taken by another position since.
            if stop || (next != NIL && next as usize >= cand) {
                chain = 0;
            } else {
                cur = next;
                chain = chain - 1;
            }
        }
        if best_dist == 0 {
            (0, 0)
        } else {
            (best_len, best_dist)
        }
    }

    /// Whether a match costs less than its bytes.
    fn worth_it(len: usize, dist: usize) -> (r: bool)
        ensures
            r == worth((len as nat, dist as nat)),
    {
        len >= MIN_MATCH && !(len == MIN_MATCH && dist > TOO_FAR)
    }

    /// Moves over a match of `len - 1` bytes whose first position is in the
    /// table already, and puts the others there: later matches will refer to
    /// them.
    fn advance_over_match(&mut self, len: usize)
        requires
            chained(old(self).head@, old(self).prev@, old(self).data@, old(self).pos + 1),
            2 <= len <= 300,
            old(self).pos + len - 1 <= old(self).data@.len() <= u32::MAX,
        ensures
            final(self).wf(),
            final(self).data == old(self).data,
            final(self).cfg == old(self).cfg,
            final(self).pos == old(self).pos + len - 1,
    {
        let limit: usize = self.data.len().saturating_sub(MIN_MATCH);
        let mut rest: usize = len - 2;
        while rest > 0
            invariant
                chained(self.head@, self.prev@, self.data@, self.pos + 1),
                limit == if self.data@.len() >= 3 {
                    self.data@.len() - 3
                } else {
                    0
                },
                self.data == old(self).data,
                self.cfg == old(self).cfg,
                rest <= len - 2,
                self.pos == old(self).pos + (len - 2 - rest),
                2 <= len <= 300,
                old(self).pos + len - 1 <= old(self).data@.len() <= u32::MAX,
            decreases rest,
        {
            self.pos = self.pos + 1;
            if self.pos <= limit {
                let _ = self.insert(self.pos);
            } else {
                proof {
                    lemma_chained_past(self.head@, self.prev@, self.data@, self.pos as int);
                }
            }
            rest = rest - 1;
        }
        self.pos = self.pos + 1;
    }

    /// What a filled block promises.
    spec fn block_made(before: &Self, after: &Self, tokens: Seq<Token>) -> bool {
        let data = before.data@;
        let start = before.pos as int;
        let end = after.pos as int;
        &&& after.wf()
        &&& after.data == before.data
        &&& after.cfg == before.cfg
        &&& (tokens, end as nat) == block_at(data, before.cfg, start as nat)
        &&& start <= end
        &&& start < data.len() ==> start < end
        &&& end - start <= 65535
        &&& end < data.len() ==> end - start >= 32768
        &&& tokens_ok(data.take(start), tokens)
        &&& expand(data.take(start), tokens) == data.take(end)
    }

    /// Gathers the tokens of the next block and returns the part of the input
    /// that they stand for: those of [`block_at`]. Together with what came
    /// before, the tokens expand to the input up to its end. A block fits into a stored one, and none but
    /// the last is small.
    pub fn next_block(&mut self, tokens: &mut Vec<Token>) -> (r: (usize, usize))
        requires
            old(self).wf(),
        ensures
            final(self).wf(),
            final(self).input() == old(self).input(),
            final(self).config() == old(self).config(),
            (final(tokens)@, r.1 as nat) == block_at(
                old(self).input(),
                old(self).config(),
                old(self).done(),
            ),
            r.0 == old(self).done(),
            r.1 == final(self).done(),
            r.0 <= r.1 <= old(self).input().len(),
            r.0 < old(self).input().len() ==> r.0 < r.1,
            r.1 - r.0 <= 65535,
            r.1 < old(self).input().len() ==> r.1 - r.0 >= 32768,
            final(tokens)@.len() <= r.1 - r.0,
            tokens_ok(old(self).input().take(r.0 as int), final(tokens)@),
            expand(old(self).input().take(r.0 as int), final(tokens)@) == old(self).input().take(
                r.1 as int,
            ),
    {
        tokens.clear();
        let start: usize = self.pos;
        if self.cfg.lazy {
            self.fill_lazy(tokens);
        } else {
            self.fill_greedy(tokens);
        }
        proof {
            lemma_expand_grows(self.data@.take(start as int), tokens@);
        }
        (start, self.pos)
    }

    fn fill_greedy(&mut self, tokens: &mut Vec<Token>)
        requires
            old(self).wf(),
            !old(self).cfg.lazy,
            old(tokens)@.len() == 0,
        ensures
            Self::block_made(old(self), final(self), final(tokens)@),
    {
        let data = self.data;
        let mut full: bool = false;
        let start: usize = self.pos;
        proof {
            assert(tokens@ =~= Seq::empty());
        }
        let ghost base = data@.take(start as int);
        while self.pos < data.len() && !full
            invariant
                self.wf(),
                self.data == old(self).data,
                data == self.data,
                self.cfg == old(self).cfg,
                !self.cfg.lazy,
                full == is_full(self.pos - start, tokens@),
                block_at(data@, self.cfg, start as nat) == greedy(
                    data@,
                    self.cfg,
                    start as nat,
                    self.pos as nat,
                    tokens@,
                ),
                start == old(self).pos,
                base == data@.take(start as int),
                start <= self.pos,
                full ==> self.pos - start >= 32768,
                start < data@.len() && self.pos == start ==> !full,
                self.pos - start <= if full {
                    65535
                } else {
                    64999int
                },
                tokens_ok(base, tokens@),
                expand(base, tokens@) == data@.take(self.pos as int),
            decreases data@.len() - self.pos,
        {
            let pos: usize = self.pos;
            let head: u32 = self.insert(pos);
            let (len, dist) = if head == NIL {
                (0usize, 0usize)
            } else {
                self.longest_match(pos, head, MIN_MATCH - 1)
            };
            if Self::worth_it(len, dist) {
                let t = Token::match_ref(len as u16, dist as u16);
                proof {
                    lemma_push_token(base, tokens@, t);
                    lemma_copy_is_data(data@, pos as int, len as nat, dist as nat);
                }
                tokens.push(t);
                // The first position of the match is in the table already.
                self.advance_over_match(len + 1);
            } else {
                let t = Token::literal(data[pos]);
                proof {
                    lemma_push_token(base, tokens@, t);
                    assert(data@.take(pos as int).push(data@[pos as int]) =~= data@.take(pos + 1));
                }
                tokens.push(t);
                self.pos = pos + 1;
            }
            proof {
                lemma_expand_grows(base, tokens@);
            }
            if self.pos - start >= BLOCK_BYTES || tokens.len() >= BLOCK_TOKENS {
                full = true;
            }
        }
    }

    fn fill_lazy(&mut self, tokens: &mut Vec<Token>)
        requires
            old(self).wf(),
            old(self).cfg.lazy,
            old(tokens)@.len() == 0,
        ensures
            Self::block_made(old(self), final(self), final(tokens)@),
    {
        let data = self.data;
        let mut full: bool = false;
        let start: usize = self.pos;
        proof {
            assert(tokens@ =~= Seq::empty());
        }
        let ghost base = data@.take(start as int);
        let mut covered: usize = 0;
        // The literal that is put off. It does not go over the end of a block:
        // that would part the end of the block from the end of its input.
        let mut pending: bool = false;
        let mut match_len: usize = 0;
        let mut match_dist: usize = 0;
        while self.pos < data.len() && !full
            invariant
                self.wf(),
                self.data == old(self).data,
                data == self.data,
                self.cfg == old(self).cfg,
                self.cfg.lazy,
                full == is_full(covered as int, tokens@),
                block_at(data@, self.cfg, start as nat) == lazy(
                    data@,
                    self.cfg,
                    start as nat,
                    self.pos as nat,
                    pending,
                    (match_len as nat, match_dist as nat),
                    tokens@,
                ),
                start == old(self).pos,
                base == data@.take(start as int),
                start <= self.pos,
                full ==> self.pos - start >= 32768,
                covered == self.pos - start - if pending {
                    1int
                } else {
                    0
                },
                covered <= if full {
                    65400
                } else {
                    64999int
                },
                tokens_ok(base, tokens@),
                expand(base, tokens@) == data@.take(start + covered),
                match_len == 0 ==> match_dist == 0,
                match_len == 0 || ({
                    &&& pending
                    &&& 3 <= match_len <= 258
                    &&& match_dist < WSIZE
                    &&& same_back(data@, self.pos - 1, match_len as int, match_dist as int)
                }),
            decreases data@.len() - self.pos,
        {
            let pos: usize = self.pos;
            let head: u32 = self.insert(pos);
            let prev_len: usize = match_len;
            let prev_dist: usize = match_dist;
            match_len = 0;
            match_dist = 0;
            // A long match that was put off is not worth a second search.
            if head != NIL && prev_len < self.cfg.max_lazy {
                let (len, dist) = self.longest_match(pos, head, prev_len);
                if Self::worth_it(len, dist) {
                    match_len = len;
                    match_dist = dist;
                }
            }
            if prev_len >= MIN_MATCH && match_len <= prev_len {
                // The next position is no better: the match that was put off
                // goes out. It begins one byte before this position.
                let t = Token::match_ref(prev_len as u16, prev_dist as u16);
                proof {
                    lemma_push_token(base, tokens@, t);
                    lemma_copy_is_data(data@, pos - 1, prev_len as nat, prev_dist as nat);
                }
                tokens.push(t);
                covered = covered + prev_len;
                self.advance_over_match(prev_len);
                pending = false;
                match_len = 0;
                match_dist = 0;
            } else if pending {
                let t = Token::literal(data[pos - 1]);
                proof {
                    lemma_push_token(base, tokens@, t);
                    assert(data@.take(pos - 1).push(data@[pos - 1]) =~= data@.take(pos as int));
                }
                tokens.push(t);
                covered = covered + 1;
                self.pos = pos + 1;
            } else {
                pending = true;
                self.pos = pos + 1;
            }
            proof {
                lemma_expand_grows(base, tokens@);
            }
            if covered >= BLOCK_BYTES || tokens.len() >= BLOCK_TOKENS {
                full = true;
            }
        }
        if pending {
            let pos: usize = self.pos;
            let t = Token::literal(data[pos - 1]);
            proof {
                lemma_push_token(base, tokens@, t);
                assert(data@.take(pos - 1).push(data@[pos - 1]) =~= data@.take(pos as int));
            }
            tokens.push(t);
        }
    }
}

proof fn lemma_repeat_len(out: Seq<u8>, n: nat, dist: nat)
    ensures
        inflate::repeat_back(out, n, dist).len() == out.len() + n,
    decreases n,
{
    if n > 0 {
        lemma_repeat_len(out.push(out[out.len() - dist]), (n - 1) as nat, dist);
    }
}

/// Every token adds a byte at least.
proof fn lemma_expand_grows(out: Seq<u8>, tokens: Seq<Token>)
    requires
        tokens_ok(out, tokens),
    ensures
        expand(out, tokens).len() >= out.len() + tokens.len(),
    decreases tokens.len(),
{
    if tokens.len() > 0 {
        lemma_expand_grows(out, tokens.drop_last());
        lemma_repeat_len(
            expand(out, tokens.drop_last()),
            tokens.last().amount(),
            tokens.last().back(),
        );
    }
}

/// The bytes of a run are the same on both sides.
proof fn lemma_run_reaches(data: Seq<u8>, a: int, b: int, max: nat)
    ensures
        same_run(data, a, b, max) <= max,
        forall|k: int| 0 <= k < same_run(data, a, b, max) ==> #[trigger] data[a + k] == data[b + k],
    decreases max,
{
    if max > 0 && data[a] == data[b] {
        lemma_run_reaches(data, a + 1, b + 1, (max - 1) as nat);
        assert forall|k: int| 0 <= k < same_run(data, a, b, max) implies #[trigger] data[a + k]
            == data[b + k] by {
            if k > 0 {
                assert(data[a + 1 + (k - 1)] == data[b + 1 + (k - 1)]);
            }
        }
    }
}

/// Where no three bytes are left, there is nothing to put into the chains.
proof fn lemma_chained_past(head: Seq<u32>, prev: Seq<u32>, data: Seq<u8>, n: int)
    requires
        chained(head, prev, data, n),
        0 <= n,
        n + 3 > data.len(),
    ensures
        chained(head, prev, data, n + 1),
{
}

/// How many bytes at `a` and at `b` are the same, `max` at most.
fn common_len(data: &[u8], a: usize, b: usize, max: usize) -> (r: usize)
    requires
        a < b,
        b + max <= data@.len(),
    ensures
        r <= max,
        forall|k: int| 0 <= k < r ==> #[trigger] data@[a + k] == data@[b + k],
        r < max ==> data@[a + r] != data@[b + r],
        r == same_run(data@, a as int, b as int, max as nat),
{
    let mut n: usize = 0;
    while n < max && data[a + n] == data[b + n]
        invariant
            n <= max,
            a < b,
            b + max <= data.len(),
            forall|k: int| 0 <= k < n ==> #[trigger] data@[a + k] == data@[b + k],
        decreases max - n,
    {
        n = n + 1;
    }
    proof {
        lemma_same_run(data@, a as int, b as int, max as nat, n as nat);
    }
    n
}

} // verus!
