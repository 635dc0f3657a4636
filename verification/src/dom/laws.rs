//! What holds of reading, changing and writing a document.
use vstd::prelude::*;

use crate::bytes::span::Span;
use crate::dom::arena;
use crate::dom::arena::NodeFlags;
use crate::dom::change;
use crate::dom::edit;
use crate::dom::model;
use crate::dom::model::Dom;
use crate::dom::node::Attr;
use crate::dom::parse;
use crate::dom::query;
use crate::dom::serialize;
use crate::error::Error;
use crate::limits::Limits;
use crate::xml::entity;
use crate::xml::escape;
use crate::xml::laws;
use crate::xml::reader;

verus! {

/// Events leave the root of the tree as it is.
proof fn lemma_root_kept(
    src: Seq<u8>,
    g: parse::Grow,
    items: Seq<reader::Item>,
    limits: Limits,
)
    requires
        src.len() <= u32::MAX,
        parse::grow_ok(src, g, limits),
        forall|k: int| 0 <= k < items.len() ==> laws::item_fits(src, #[trigger] items[k]),
        parse::grown(src, g, items, limits) is Ok,
    ensures
        parse::grow_ok(src, parse::grown(src, g, items, limits)->Ok_0, limits),
        parse::grown(src, g, items, limits)->Ok_0.nodes[0] == g.nodes[0],
    decreases items.len(),
{
    if items.len() > 0 {
        let h = parse::stepped(src, g, items[0], limits)->Ok_0;
        parse::lemma_stepped(src, g, items[0], limits);
        assert(g.nodes[0].kind is Document);
        assert(g.stack.len() > 1 ==> g.nodes[g.stack[g.stack.len() - 1]].kind is Element);
        assert(h.nodes[0] == g.nodes[0]);
        let rest = items.skip(1);
        assert forall|k: int| 0 <= k < rest.len() implies laws::item_fits(
            src,
            #[trigger] rest[k],
        ) by {
            assert(rest[k] == items[k + 1]);
        }
        lemma_root_kept(src, h, rest, limits);
    }
}

/// A part that was read and not changed is written as it was, byte for byte.
pub proof fn lemma_read_then_written(src: Seq<u8>, limits: Limits)
    ensures
        match parse::parsed(src, limits) {
            Ok(d) => serialize::written(d, d.root, 0) == Some(src),
            Err(_) => true,
        },
{
    if let Ok(d) = parse::parsed(src, limits) {
        let from = reader::body_start(src);
        let at = reader::Progress { frames: Seq::empty(), rooted: false };
        parse::lemma_seed(src, limits);
        if from <= src.len() {
            laws::lemma_items_fit(src, from, from, at, limits);
        }
        lemma_root_kept(src, parse::seed(src), reader::events(src, limits).0, limits);
        serialize::lemma_unchanged_written(d);
    }
}

/// Text without a character that is not allowed has allowed characters only.
proof fn lemma_legal(s: Seq<char>, i: int)
    requires
        0 <= i <= s.len(),
        escape::first_illegal(s, i) is None,
    ensures
        forall|k: int| i <= k < s.len() ==> escape::legal(#[trigger] s[k]),
    decreases s.len() - i,
{
    if i < s.len() {
        lemma_legal(s, i + 1);
    }
}

/// What is written for a text stands for it.
pub(crate) proof fn lemma_value_reads(v: Seq<char>, quote: Option<char>)
    requires
        escape::first_illegal(v, 0) is None,
        quote matches Some(q) ==> q == '"' || q == '\'',
    ensures
        query::bytes_read(edit::value_bytes(v, quote), quote is Some) == Ok::<Seq<char>, Error>(v),
{
    broadcast use vstd::utf8::encode_utf8_valid_utf8;
    broadcast use vstd::utf8::encode_utf8_decode_utf8;

    lemma_legal(v, 0);
    entity::lemma_written_reads_back(v, quote);
}

pub proof fn lemma_raw_place(d: Dom, s: Seq<Attr>, n: Seq<u8>, k: int)
    requires
        0 <= k,
    ensures
        match query::raw_place(d, s, n, k) {
            Some(j) => k <= j < s.len() && query::attr_name(d, s[j]) == n && forall|x: int|
                k <= x < j ==> query::attr_name(d, #[trigger] s[x]) != n,
            None => forall|x: int|
                k <= x < s.len() ==> query::attr_name(d, #[trigger] s[x]) != n,
        },
    decreases s.len() - k,
{
    if k < s.len() && query::attr_name(d, s[k]) != n {
        lemma_raw_place(d, s, n, k + 1);
    }
}

/// The first attribute of a name is where no earlier one has it.
proof fn lemma_place_found(d: Dom, s: Seq<Attr>, n: Seq<u8>, k: int, j: int)
    requires
        0 <= k <= j < s.len(),
        query::attr_name(d, s[j]) == n,
        forall|x: int| k <= x < j ==> query::attr_name(d, #[trigger] s[x]) != n,
    ensures
        query::raw_place(d, s, n, k) == Some(j),
    decreases j - k,
{
    if k < j {
        lemma_place_found(d, s, n, k + 1, j);
    }
}

/// A document holds the bytes of another one at the same places.
pub open spec fn holds_bytes(d: Dom, e: Dom) -> bool {
    &&& e.src == d.src
    &&& d.arena.len() <= e.arena.len()
    &&& e.arena.take(d.arena.len() as int) == d.arena
}

pub proof fn lemma_same_piece(d: Dom, e: Dom, s: Span, in_arena: bool)
    requires
        holds_bytes(d, e),
        d.inside(s, in_arena),
    ensures
        e.piece(s, in_arena) == d.piece(s, in_arena),
{
    if in_arena {
        assert(e.arena.take(d.arena.len() as int).subrange(s.start as int, s.end as int)
            =~= e.arena.subrange(s.start as int, s.end as int));
    }
}

/// An attribute that was set has the value that was set: the attribute of that
/// name is there, and what stands for its value stands for the text.
pub proof fn lemma_attr_set_reads_back(d: Dom, i: int, q: Seq<char>, v: Seq<char>)
    requires
        model::wf(d),
    ensures
        match edit::attr_set(d, i, q, v) {
            Ok(e) => {
                let n = vstd::utf8::encode_utf8(q);
                let k = query::raw_place(e, e.attrs_of(i), n, 0);
                &&& k is Some
                &&& query::bytes_read(
                    query::attr_value(e, e.attrs_of(i)[k->0]),
                    true,
                ) == Ok::<Seq<char>, Error>(v)
            },
            Err(_) => true,
        },
{
    if let Ok(e) = edit::attr_set(d, i, q, v) {
        let n = vstd::utf8::encode_utf8(q);
        assert(model::node_ok(d, i));
        lemma_raw_place(d, d.attrs_of(i), n, 0);
        match query::raw_place(d, d.attrs_of(i), n, 0) {
            Some(k) => lemma_value_set_reads(d, i, k, n, v),
            None => lemma_added_reads(d, i, n, v),
        }
    }
}

proof fn lemma_value_set_reads(d: Dom, i: int, k: int, n: Seq<u8>, v: Seq<char>)
    requires
        model::wf(d),
        d.is_element(i),
        query::raw_place(d, d.attrs_of(i), n, 0) == Some(k),
        edit::value_fault(
            d,
            v,
            Some(edit::quote_char(d.attrs[d.elem(i).attrs_from + k].quote)),
        ) is None,
    ensures
        ({
            let e = edit::value_changed(d, i, k, v);
            &&& query::raw_place(e, e.attrs_of(i), n, 0) == Some(k)
            &&& query::bytes_read(query::attr_value(e, e.attrs_of(i)[k]), true) == Ok::<
                Seq<char>,
                Error,
            >(v)
        }),
{
    let e = edit::value_changed(d, i, k, v);
    let s = d.attrs_of(i);
    let t = e.attrs_of(i);
    assert(model::node_ok(d, i));
    lemma_raw_place(d, s, n, 0);
    let j = d.elem(i).attrs_from + k;
    let a = d.attrs[j];
    let quote = Some(edit::quote_char(a.quote));
    let b = edit::value_bytes(v, quote);
    assert(model::attr_at_ok(d, j));
    assert(s[k] == a);
    edit::lemma_value_marks(a.flags.marks);
    change::lemma_arena_grown_wf(d, b);
    assert(e.arena == d.arena + b);
    assert(holds_bytes(d, e)) by {
        assert(e.arena.take(d.arena.len() as int) =~= d.arena);
    }
    lemma_marked_frame(
        change::attr_replaced(change::arena_grown(d, b), j, t[k]),
        i,
    );
    assert(t.len() == s.len());
    assert forall|x: int| 0 <= x < s.len() implies query::attr_name(e, #[trigger] t[x])
        == query::attr_name(d, s[x]) by {
        assert(model::attr_at_ok(d, d.elem(i).attrs_from + x));
        lemma_same_piece(d, e, s[x].name, model::attr_name_in_arena(s[x]));
    }
    assert(query::attr_value(e, t[k]) =~= b);
    lemma_place_found(e, t, n, 0, k);
    lemma_value_reads(v, quote);
}

/// Marking a node touches marks alone.
pub proof fn lemma_marked_frame(d: Dom, i: int)
    requires
        d.has_node(i),
    ensures
        ({
            let e = change::marked(d, i);
            &&& e.nodes.len() == d.nodes.len()
            &&& forall|x: int|
                0 <= x < d.nodes.len() ==> (#[trigger] e.nodes[x]).kind == d.nodes[x].kind
                    && e.nodes[x].aux == d.nodes[x].aux && e.nodes[x].span == d.nodes[x].span
        }),
{
}

proof fn lemma_added_reads(d: Dom, i: int, n: Seq<u8>, v: Seq<char>)
    requires
        model::wf(d),
        d.is_element(i),
        query::raw_place(d, d.attrs_of(i), n, 0) is None,
        edit::attr_added(d, i, n, v) is Ok,
    ensures
        ({
            let e = edit::attr_added(d, i, n, v)->Ok_0;
            let k = d.attrs_of(i).len() as int;
            &&& query::raw_place(e, e.attrs_of(i), n, 0) == Some(k)
            &&& query::bytes_read(query::attr_value(e, e.attrs_of(i)[k]), true) == Ok::<
                Seq<char>,
                Error,
            >(v)
        }),
{
    let e = edit::attr_added(d, i, n, v)->Ok_0;
    let s = d.attrs_of(i);
    let b = edit::value_bytes(v, Some('"'));
    let d1 = change::arena_grown(d, n);
    let d2 = change::arena_grown(d1, b);
    let new = edit::new_attr(d, n, b);
    let list = s.push(new);
    assert(model::node_ok(d, i));
    lemma_raw_place(d, s, n, 0);
    edit::lemma_value_marks(0);
    let f = change::attrs_moved(d2, i, list);
    lemma_marked_frame(f, i);
    assert(e.nodes[i].aux == d.nodes[i].aux);
    let t = e.attrs_of(i);
    assert(t =~= list);
    assert(e.arena == d.arena + n + b);
    assert(holds_bytes(d, e)) by {
        assert(e.arena.take(d.arena.len() as int) =~= d.arena);
    }
    assert forall|x: int| 0 <= x < s.len() implies query::attr_name(e, #[trigger] t[x])
        == query::attr_name(d, s[x]) by {
        assert(model::attr_at_ok(d, d.elem(i).attrs_from + x));
        lemma_same_piece(d, e, s[x].name, model::attr_name_in_arena(s[x]));
    }
    assert(t[s.len() as int] == new);
    assert(query::attr_name(e, new) =~= n);
    assert(query::attr_value(e, new) =~= b);
    lemma_place_found(e, t, n, 0, s.len() as int);
    lemma_value_reads(v, Some('"'));
}

/// A text that was set is the text of the node.
pub proof fn lemma_text_set_reads_back(d: Dom, i: int, v: Seq<char>)
    requires
        model::wf(d),
    ensures
        match edit::text_set(d, i, v) {
            Ok(e) => query::text_of(e, i) == Ok::<Seq<char>, Error>(v),
            Err(_) => true,
        },
{
    if let Ok(e) = edit::text_set(d, i, v) {
        let b = edit::value_bytes(v, None);
        arena::lemma_mark_bits();
        lemma_value_reads(v, None);
        if d.nodes[i].kind is Text {
            let c = d.nodes[i];
            let f = edit::leaf_only(d, i, b);
            let m = c.flags.marks | NodeFlags::IN_ARENA;
            arena::lemma_marks(c.flags.marks, 8, 8);
            arena::lemma_marks(m, 1, 8);
            arena::lemma_marks(m, 2, 8);
            arena::lemma_marks(m | 1, 2, 8);
            assert(model::in_arena(e.nodes[i]));
            assert(e.nodes[i].span == f.nodes[i].span);
            assert(e.piece(e.nodes[i].span, true) =~= b);
        } else {
            let n = d.nodes.len() as int;
            assert(d.links.kids.len() == d.nodes.len());
            assert(e.kids(i) =~= seq![n]);
            assert(9u8 & 8u8 != 0) by (bit_vector);
            arena::lemma_marks(9, 2, 8);
            assert(e.nodes[n].kind is Text);
            assert(model::in_arena(e.nodes[n]));
            assert(e.piece(e.nodes[n].span, true) =~= b);
            assert(e.nodes[i].kind is Element);
            assert(e.kids(i).drop_last() =~= Seq::<int>::empty());
            assert(query::gathered(e, e.kids(i).drop_last()) == Ok::<Seq<char>, Error>(
                Seq::<char>::empty(),
            ));
            assert(Seq::<char>::empty() + v =~= v);
        }
    }
}

} // verus!
