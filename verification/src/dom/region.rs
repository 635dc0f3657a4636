//! An edit of a part that was read changes one region of its bytes.
use vstd::prelude::*;

use crate::dom::ancestry;
use crate::dom::arena;
use crate::dom::change;
use crate::dom::coverage;
use crate::dom::edit;
use crate::dom::effects;
use crate::dom::laws;
use crate::dom::locality;
use crate::dom::model;
use crate::dom::model::Dom;
use crate::dom::node::Attr;
use crate::dom::parse;
use crate::dom::query;
use crate::dom::reading;
use crate::dom::serialize;
use crate::dom::sited;
use crate::error::Error;
use crate::limits::Limits;

verus! {

/// What holds of a document right after it was read.
pub open spec fn fresh(d: Dom) -> bool {
    model::wf(d) && sited::sited(d) && reading::roomy(d) && reading::whole(d) && !d.dirty
}

/// What is written around the node that was edited is the source.
proof fn lemma_around(d: Dom, e: Dom, i: int)
    requires
        fresh(d),
        locality::touched(d, e, i),
        serialize::written(e, e.root, 0) is Some,
    ensures
        ({
            let x = d.nodes[i].span;
            let t = serialize::written(e, i, locality::depth_of(d, i));
            &&& x.start <= x.end <= d.src.len()
            &&& t is Some
            &&& serialize::written(e, e.root, 0) == Some(
                d.src.take(x.start as int) + t->0 + d.src.skip(x.end as int),
            )
        }),
{
    let x = d.nodes[i].span;
    assert(ancestry::below(d.links.up, i, d.root));
    ancestry::lemma_lineage(d.links.up, d.root);
    assert(locality::depth_of(d, d.root) == 0);
    assert(reading::shallow(d)) by {
        assert forall|k: int| d.has_node(k) implies #[trigger] locality::depth_of(d, k)
            <= serialize::deepest(d) by {
            assert(locality::depth_of(d, k) < serialize::deepest(d));
        }
    }
    reading::lemma_shallow_written(d, d.root);
    locality::lemma_edit_is_local(d, e, i);
    let (p, s) = choose|p: Seq<u8>, s: Seq<u8>| locality::framed(d, e, i, d.root, 0, p, s);
    assert(model::calm(d, d.root));
    assert(sited::sited_at(d, d.root));
    assert(p =~= d.src.take(x.start as int));
    assert(s =~= d.src.skip(x.end as int));
}

/// An element whose opening tag was edited is written as it stood, but for the
/// opening tag.
proof fn lemma_tag_rewritten(d: Dom, e: Dom, i: int)
    requires
        fresh(d),
        locality::touched(d, e, i),
        serialize::written(e, e.root, 0) is Some,
        d.is_element(i),
        e.nodes[i].flags.changed(),
        e.nodes[i].kind == d.nodes[i].kind,
        model::is_empty_tag(e.nodes[i]) == model::is_empty_tag(d.nodes[i]),
        e.kids(i) == d.kids(i),
        serialize::tail_text(e, i) == serialize::tail_text(d, i),
    ensures
        ({
            let x = d.nodes[i].span.start as int;
            let y = d.elem(i).pre_close_ws.end as int;
            &&& 0 <= x <= y <= d.src.len()
            &&& serialize::written(e, e.root, 0) == Some(
                d.src.take(x) + serialize::head_text(e, i) + d.src.skip(y),
            )
        }),
{
    let c = d.nodes[i];
    let dep = locality::depth_of(d, i);
    let x = c.span.start as int;
    let y = d.elem(i).pre_close_ws.end as int;
    let z = c.span.end as int;
    let h = serialize::head_text(e, i);
    lemma_around(d, e, i);
    assert(model::calm(d, i));
    assert(sited::sited_at(d, i));
    sited::lemma_tags_sit(d, i);
    let t = serialize::written(e, i, dep)->0;
    let rest = d.src.subrange(y, z);
    if model::is_empty_tag(c) {
        assert(rest =~= seq![47u8, 62u8]);
    } else {
        locality::lemma_written_open(e, i, dep);
        lemma_kids_beside(d, e, i, dep + 1);
        let lo = coverage::inner_start(d, i);
        let hi = coverage::inner_end(d, i);
        let w: nat = if d.kids(i).len() == 0 {
            0
        } else {
            dep + 1
        };
        sited::lemma_kids_written(d, i, 0, d.kids(i).len() as int, w);
        assert(d.kids(i).subrange(0, d.kids(i).len() as int) =~= d.kids(i));
        assert(rest =~= seq![62u8] + d.src.subrange(lo, hi) + d.src.subrange(hi, z));
        assert(t =~= h + rest);
    }
    assert(t =~= h + rest);
    assert(d.src.take(x) + (h + rest) + d.src.skip(z) =~= d.src.take(x) + h + d.src.skip(y));
}

/// What hangs on the edited node is written as before.
proof fn lemma_kids_beside(d: Dom, e: Dom, i: int, depth: nat)
    requires
        fresh(d),
        locality::touched(d, e, i),
        e.kids(i) == d.kids(i),
        serialize::written_all(e, e.kids(i), depth) is Some,
    ensures
        serialize::written_all(e, e.kids(i), depth) == serialize::written_all(
            d,
            d.kids(i),
            depth,
        ),
        depth <= serialize::deepest(d) || d.kids(i).len() == 0,
{
    let s = d.kids(i);
    assert forall|k: int| 0 <= k < s.len() implies d.has_node(#[trigger] s[k])
        && locality::same_below(d, e, s[k]) by {
        assert(arena::kid_at(d.links, i, k));
        if ancestry::below(d.links.up, i, s[k]) {
            locality::lemma_above_less(d.links.up, i, s[k]);
            ancestry::lemma_lineage(d.links.up, s[k]);
        }
        locality::lemma_below_same(d, e, i, s[k]);
    }
    locality::lemma_written_all_same(d, e, s, depth);
    if s.len() > 0 {
        locality::lemma_split(e, s, depth, 0);
    }
}

/// An attribute is written from its pieces.
proof fn lemma_attrs_replaced(
    e: Dom,
    s: Seq<Attr>,
    k: int,
    a: Attr,
    b: Seq<u8>,
    lo: int,
    hi: int,
)
    requires
        sited::attrs_sit(e.src, s, lo, hi),
        0 <= lo <= hi <= e.src.len(),
        0 <= k < s.len(),
        a == (Attr { value: a.value, flags: a.flags, ..s[k] }),
        !model::ws_in_arena(a),
        !model::attr_name_in_arena(a),
        e.piece(a.value, model::value_in_arena(a)) == b,
    ensures
        lo <= s[k].value.start <= s[k].value.end <= hi,
        serialize::attrs_text(e, s.update(k, a)) == e.src.subrange(lo, s[k].value.start as int) + b
            + e.src.subrange(s[k].value.end as int, hi),
    decreases s.len(),
{
    let t = s.update(k, a);
    let init = s.drop_last();
    let last = s.last();
    let from = last.pre_ws.start as int;
    arena::lemma_mark_bits();
    sited::lemma_attrs_in_order(e.src, init, lo, from);
    if k == s.len() - 1 {
        assert(t.drop_last() =~= init);
        sited::lemma_attrs_sit(e, init, lo, from);
        let x = last.value.start as int;
        let y = last.value.end as int;
        assert(serialize::attr_text(e, a) =~= e.src.subrange(from, x) + b + e.src.subrange(y, hi));
        assert(e.src.subrange(lo, from) + (e.src.subrange(from, x) + b + e.src.subrange(y, hi))
            =~= e.src.subrange(lo, x) + b + e.src.subrange(y, hi));
    } else {
        assert(t.drop_last() =~= init.update(k, a));
        assert(t.last() == last);
        lemma_attrs_replaced(e, init, k, a, b, lo, from);
        let x = s[k].value.start as int;
        let y = s[k].value.end as int;
        assert(init[k] == s[k]);
        assert(serialize::attr_text(e, last) =~= e.src.subrange(from, hi));
        assert(e.src.subrange(lo, x) + b + e.src.subrange(y, from) + e.src.subrange(from, hi)
            =~= e.src.subrange(lo, x) + b + e.src.subrange(y, hi));
    }
}

proof fn lemma_attrs_less(e: Dom, s: Seq<Attr>, k: int, lo: int, hi: int)
    requires
        sited::attrs_sit(e.src, s, lo, hi),
        0 <= lo <= hi <= e.src.len(),
        0 <= k < s.len(),
    ensures
        lo <= s[k].pre_ws.start < s[k].value.end < hi,
        serialize::attrs_text(e, s.remove(k)) == e.src.subrange(lo, s[k].pre_ws.start as int)
            + e.src.subrange(s[k].value.end + 1, hi),
    decreases s.len(),
{
    let t = s.remove(k);
    let init = s.drop_last();
    let last = s.last();
    let from = last.pre_ws.start as int;
    arena::lemma_mark_bits();
    sited::lemma_attrs_in_order(e.src, init, lo, from);
    if k == s.len() - 1 {
        assert(t =~= init);
        sited::lemma_attrs_sit(e, init, lo, from);
        assert(e.src.subrange(lo, from) + e.src.subrange(hi, hi) =~= e.src.subrange(lo, from));
    } else {
        assert(t.drop_last() =~= init.remove(k));
        assert(t.last() == last);
        lemma_attrs_less(e, init, k, lo, from);
        let x = s[k].pre_ws.start as int;
        let y = s[k].value.end + 1;
        assert(init[k] == s[k]);
        assert(serialize::attr_text(e, last) =~= e.src.subrange(from, hi));
        assert(e.src.subrange(lo, x) + e.src.subrange(y, from) + e.src.subrange(from, hi)
            =~= e.src.subrange(lo, x) + e.src.subrange(y, hi));
    }
}

/// Where the links stay, no node lies deeper.
proof fn lemma_still_written(d: Dom, e: Dom)
    requires
        fresh(d),
        e.links == d.links,
        e.limits == d.limits,
        e.root == d.root,
        e.nodes.len() == d.nodes.len(),
    ensures
        serialize::written(e, e.root, 0) is Some,
{
    assert forall|i: int| e.has_node(i) implies #[trigger] locality::depth_of(e, i)
        <= serialize::deepest(e) by {
        assert(locality::depth_of(d, i) < serialize::deepest(d));
    }
    ancestry::lemma_lineage(d.links.up, d.root);
    assert(locality::depth_of(e, e.root) == 0);
    reading::lemma_shallow_written(e, e.root);
}

/// Setting an attribute that is there changes its value and nothing else: every
/// byte before the value and every byte behind it is written as it was read.
pub proof fn lemma_value_is_one_region(
    src: Seq<u8>,
    limits: Limits,
    d: Dom,
    i: int,
    q: Seq<char>,
    v: Seq<char>,
)
    requires
        parse::parsed(src, limits) == Ok::<Dom, Error>(d),
        edit::attr_set(d, i, q, v) is Ok,
        query::raw_place(d, d.attrs_of(i), vstd::utf8::encode_utf8(q), 0) is Some,
    ensures
        ({
            let e = edit::attr_set(d, i, q, v)->Ok_0;
            let k = query::raw_place(d, d.attrs_of(i), vstd::utf8::encode_utf8(q), 0)->0;
            let a = d.attrs_of(i)[k];
            let b = edit::value_bytes(v, Some(edit::quote_char(a.quote)));
            &&& a.value.start <= a.value.end <= src.len()
            &&& serialize::written(e, e.root, 0) == Some(
                src.take(a.value.start as int) + b + src.skip(a.value.end as int),
            )
        }),
{
    reading::lemma_parsed_sited(src, limits);
    let n = vstd::utf8::encode_utf8(q);
    let e = edit::attr_set(d, i, q, v)->Ok_0;
    let s = d.attrs_of(i);
    let k = query::raw_place(d, s, n, 0)->0;
    let a = s[k];
    let b = edit::value_bytes(v, Some(edit::quote_char(a.quote)));
    let x = d.elem(i);
    assert(model::node_ok(d, i));
    laws::lemma_raw_place(d, s, n, 0);
    effects::lemma_attr_set_touches(d, i, q, v);
    lemma_still_written(d, e);
    laws::lemma_marked_frame(
        change::attr_replaced(change::arena_grown(d, b), x.attrs_from + k, e.attrs_of(i)[k]),
        i,
    );
    lemma_marked_tag(Dom { attrs: e.attrs, arena: e.arena, ..d }, i);
    assert(e.elem(i) == x);
    assert(model::calm(d, i));
    assert(sited::sited_at(d, i));
    let lo = x.qname.end as int;
    let hi = x.pre_close_ws.start as int;
    sited::lemma_attrs_in_order(d.src, s, lo, hi);
    arena::lemma_mark_bits();
    edit::lemma_value_marks(a.flags.marks);
    let c = e.attrs_of(i)[k];
    assert(e.attrs_of(i) =~= s.update(k, c));
    assert(e.piece(c.value, true) =~= b);
    lemma_sits_one(d.src, s, k, lo, hi);
    lemma_attrs_replaced(e, s, k, c, b, lo, hi);
    lemma_tag_rewritten(d, e, i);
    let from = d.nodes[i].span.start as int;
    let to = x.pre_close_ws.end as int;
    assert(d.src.take(from) + serialize::head_text(e, i) + d.src.skip(to) =~= d.src.take(
        a.value.start as int,
    ) + b + d.src.skip(a.value.end as int));
}

/// An attribute among those that stand in the source stands there.
proof fn lemma_sits_one(src: Seq<u8>, s: Seq<Attr>, k: int, lo: int, hi: int)
    requires
        sited::attrs_sit(src, s, lo, hi),
        0 <= k < s.len(),
    ensures
        sited::attr_sits(src, s[k], s[k].pre_ws.start as int, s[k].value.end + 1),
    decreases s.len(),
{
    if k < s.len() - 1 {
        lemma_sits_one(src, s.drop_last(), k, lo, s.last().pre_ws.start as int);
        assert(s.drop_last()[k] == s[k]);
    }
}

/// A marked node is changed, and has the tags that it had.
proof fn lemma_marked_tag(f: Dom, i: int)
    requires
        f.has_node(i),
    ensures
        ({
            let e = change::marked(f, i);
            &&& e.nodes[i].flags.changed()
            &&& e.nodes[i].kind == f.nodes[i].kind
            &&& e.nodes[i].aux == f.nodes[i].aux
            &&& model::is_empty_tag(e.nodes[i]) == model::is_empty_tag(f.nodes[i])
            &&& e.kids(i) == f.kids(i)
        }),
{
    let m = f.nodes[i].flags.marks;
    arena::lemma_mark_bits();
    arena::lemma_marks(m, 1, 1);
    arena::lemma_marks(m, 1, 4);
    arena::lemma_marks(m | 1, 2, 1);
    arena::lemma_marks(m | 1, 2, 4);
}

/// Setting an attribute that is not there adds it at the end of the opening tag,
/// before the white space there, and changes nothing else.
pub proof fn lemma_new_attr_is_one_region(
    src: Seq<u8>,
    limits: Limits,
    d: Dom,
    i: int,
    q: Seq<char>,
    v: Seq<char>,
)
    requires
        parse::parsed(src, limits) == Ok::<Dom, Error>(d),
        edit::attr_set(d, i, q, v) is Ok,
        query::raw_place(d, d.attrs_of(i), vstd::utf8::encode_utf8(q), 0) is None,
    ensures
        ({
            let e = edit::attr_set(d, i, q, v)->Ok_0;
            let at = d.elem(i).pre_close_ws.start as int;
            let t = seq![32u8] + vstd::utf8::encode_utf8(q) + seq![61u8, 34u8] + edit::value_bytes(
                v,
                Some('"'),
            ) + seq![34u8];
            &&& 0 <= at <= src.len()
            &&& serialize::written(e, e.root, 0) == Some(src.take(at) + t + src.skip(at))
        }),
{
    reading::lemma_parsed_sited(src, limits);
    let n = vstd::utf8::encode_utf8(q);
    let e = edit::attr_set(d, i, q, v)->Ok_0;
    let s = d.attrs_of(i);
    let b = edit::value_bytes(v, Some('"'));
    let new = edit::new_attr(d, n, b);
    let list = s.push(new);
    let x = d.elem(i);
    assert(model::node_ok(d, i));
    effects::lemma_attr_set_touches(d, i, q, v);
    lemma_still_written(d, e);
    let f = change::attrs_moved(change::arena_grown(change::arena_grown(d, n), b), i, list);
    lemma_marked_tag(f, i);
    assert(e == change::marked(f, i));
    assert(e.attrs_of(i) =~= list);
    assert(model::calm(d, i));
    assert(sited::sited_at(d, i));
    let lo = x.qname.end as int;
    let hi = x.pre_close_ws.start as int;
    sited::lemma_attrs_in_order(d.src, s, lo, hi);
    sited::lemma_attrs_sit(e, s, lo, hi);
    edit::lemma_value_marks(0);
    arena::lemma_mark_bits();
    assert(e.arena == d.arena + n + b);
    assert(e.piece(new.pre_ws, true) =~= seq![32u8]);
    assert(e.piece(new.name, true) =~= n);
    assert(e.piece(new.value, true) =~= b);
    assert(e.piece(parse::nil(), true) =~= Seq::empty());
    let t = seq![32u8] + n + seq![61u8, 34u8] + b + seq![34u8];
    assert(serialize::attr_text(e, new) =~= t);
    assert(list.drop_last() =~= s);
    assert(serialize::attrs_text(e, list) == src.subrange(lo, hi) + t);
    lemma_tag_rewritten(d, e, i);
    let from = d.nodes[i].span.start as int;
    let to = x.pre_close_ws.end as int;
    assert(src.take(from) + serialize::head_text(e, i) + src.skip(to) =~= src.take(hi) + t
        + src.skip(hi));
}

proof fn lemma_place_inside(d: Dom, i: int, ns: Option<Seq<char>>, local: Seq<char>, k: int)
    requires
        0 <= k,
    ensures
        query::attr_place(d, i, ns, local, k) matches Some(j) ==> k <= j < d.attrs_of(i).len(),
    decreases d.attrs_of(i).len() - k,
{
    if k < d.attrs_of(i).len() {
        lemma_place_inside(d, i, ns, local, k + 1);
    }
}

/// Removing an attribute takes it out, with the white space before it, and
/// changes nothing else.
pub proof fn lemma_removed_attr_is_one_region(
    src: Seq<u8>,
    limits: Limits,
    d: Dom,
    i: int,
    ns: Option<Seq<char>>,
    local: Seq<char>,
)
    requires
        parse::parsed(src, limits) == Ok::<Dom, Error>(d),
        edit::attr_removed(d, i, ns, local) is Ok,
        edit::attr_removed(d, i, ns, local)->Ok_0.1,
    ensures
        ({
            let e = edit::attr_removed(d, i, ns, local)->Ok_0.0;
            let a = d.attrs_of(i)[query::attr_place(d, i, ns, local, 0)->0];
            &&& a.pre_ws.start < a.value.end < src.len()
            &&& serialize::written(e, e.root, 0) == Some(
                src.take(a.pre_ws.start as int) + src.skip(a.value.end + 1),
            )
        }),
{
    reading::lemma_parsed_sited(src, limits);
    let e = edit::attr_removed(d, i, ns, local)->Ok_0.0;
    let s = d.attrs_of(i);
    let k = query::attr_place(d, i, ns, local, 0)->0;
    lemma_place_inside(d, i, ns, local, 0);
    let list = s.remove(k);
    let x = d.elem(i);
    assert(model::node_ok(d, i));
    effects::lemma_attr_removed_touches(d, i, ns, local);
    lemma_still_written(d, e);
    let f = change::attrs_moved(d, i, list);
    lemma_marked_tag(f, i);
    assert(e == change::marked(f, i));
    assert(e.attrs_of(i) =~= list);
    assert(model::calm(d, i));
    assert(sited::sited_at(d, i));
    let lo = x.qname.end as int;
    let hi = x.pre_close_ws.start as int;
    sited::lemma_attrs_in_order(d.src, s, lo, hi);
    arena::lemma_mark_bits();
    lemma_attrs_less(e, s, k, lo, hi);
    lemma_tag_rewritten(d, e, i);
    let from = d.nodes[i].span.start as int;
    let to = x.pre_close_ws.end as int;
    let y = s[k].pre_ws.start as int;
    let z = s[k].value.end + 1;
    assert(src.take(from) + serialize::head_text(e, i) + src.skip(to) =~= src.take(y) + src.skip(
        z,
    ));
}

/// Setting a text that is there changes it and nothing else.
pub proof fn lemma_text_is_one_region(
    src: Seq<u8>,
    limits: Limits,
    d: Dom,
    i: int,
    v: Seq<char>,
)
    requires
        parse::parsed(src, limits) == Ok::<Dom, Error>(d),
        edit::text_set(d, i, v) is Ok,
        d.nodes[i].kind is Text,
    ensures
        ({
            let e = edit::text_set(d, i, v)->Ok_0;
            let x = d.nodes[i].span;
            &&& x.start <= x.end <= src.len()
            &&& serialize::written(e, e.root, 0) == Some(
                src.take(x.start as int) + edit::value_bytes(v, None) + src.skip(x.end as int),
            )
        }),
{
    reading::lemma_parsed_sited(src, limits);
    let e = edit::text_set(d, i, v)->Ok_0;
    let b = edit::value_bytes(v, None);
    let f = edit::leaf_only(d, i, b);
    effects::lemma_text_set_touches(d, i, v);
    lemma_still_written(d, e);
    lemma_around(d, e, i);
    let m = d.nodes[i].flags.marks | 8;
    arena::lemma_mark_bits();
    arena::lemma_marks(d.nodes[i].flags.marks, 8, 8);
    arena::lemma_marks(m, 1, 8);
    arena::lemma_marks(m | 1, 2, 8);
    lemma_marked_tag(f, i);
    laws::lemma_marked_frame(f, i);
    assert(model::in_arena(e.nodes[i]));
    assert(e.piece(e.nodes[i].span, true) =~= b);
}

/// Nodes are written one behind the other.
proof fn lemma_join(d: Dom, s: Seq<int>, t: Seq<int>, depth: nat)
    requires
        serialize::written_all(d, s, depth) is Some,
        serialize::written_all(d, t, depth) is Some,
    ensures
        serialize::written_all(d, s + t, depth) == Some(
            serialize::written_all(d, s, depth)->0 + serialize::written_all(d, t, depth)->0,
        ),
    decreases t.len(),
{
    let a = serialize::written_all(d, s, depth)->0;
    if t.len() > 0 {
        lemma_join(d, s, t.drop_last(), depth);
        assert((s + t).drop_last() =~= s + t.drop_last());
        let b = serialize::written_all(d, t.drop_last(), depth)->0;
        let c = serialize::written(d, t.last(), depth)->0;
        assert(a + b + c =~= a + (b + c));
    } else {
        assert(s + t =~= s);
        assert(a + Seq::<u8>::empty() =~= a);
    }
}

/// Where nodes are only cut off, none lies deeper.
proof fn lemma_no_deeper(up: Seq<Option<int>>, less: Seq<Option<int>>, i: int)
    requires
        ancestry::acyclic(up),
        ancestry::acyclic(less),
        less.len() == up.len(),
        forall|x: int|
            0 <= x < up.len() ==> (#[trigger] less[x]) is None || less[x] == up[x],
        0 <= i < up.len(),
    ensures
        ancestry::lineage(less, i).len() <= ancestry::lineage(up, i).len(),
    decreases ancestry::rank_of(up)[i],
{
    ancestry::lemma_lineage(up, i);
    ancestry::lemma_lineage(less, i);
    assert(less[i] is None || less[i] == up[i]);
    if let Some(p) = less[i] {
        lemma_no_deeper(up, less, p);
    }
}

/// Cutting a node off takes it out, with all that is below it, and changes
/// nothing else.
#[verifier::spinoff_prover]
pub proof fn lemma_removed_node_is_one_region(src: Seq<u8>, limits: Limits, d: Dom, c: int)
    requires
        parse::parsed(src, limits) == Ok::<Dom, Error>(d),
        edit::node_removed(d, c) is Ok,
    ensures
        ({
            let e = edit::node_removed(d, c)->Ok_0;
            let x = d.nodes[c].span;
            &&& x.start <= x.end <= src.len()
            &&& serialize::written(e, e.root, 0) == Some(
                src.take(x.start as int) + src.skip(x.end as int),
            )
        }),
{
    reading::lemma_parsed_sited(src, limits);
    let e = edit::node_removed(d, c)->Ok_0;
    let p = d.up(c)->0;
    let n = arena::place_of(d.links, c);
    let s = d.kids(p);
    arena::lemma_place(d.links, c);
    effects::lemma_node_removed_touches(d, c);
    lemma_removed_written(d, c);
    lemma_around(d, e, p);
    let dep = locality::depth_of(d, p);
    assert(model::node_ok(d, p));
    assert(model::calm(d, p));
    assert(sited::sited_at(d, p));
    ancestry::lemma_unlink_acyclic(d.links.up, c);
    assert(change::unhooked(d, c).links.up =~= d.links.up.update(c, None));
    lemma_chained_tag(d, change::unhooked(d, c), p);
    let t = e.kids(p);
    assert(t =~= s.take(n) + s.skip(n + 1));
    locality::lemma_written_open(e, p, dep);
    assert forall|k: int| 0 <= k < s.len() implies d.has_node(#[trigger] s[k])
        && locality::same_below(d, e, s[k]) by {
        assert(arena::kid_at(d.links, p, k));
        if ancestry::below(d.links.up, p, s[k]) {
            locality::lemma_above_less(d.links.up, p, s[k]);
            ancestry::lemma_lineage(d.links.up, s[k]);
        }
        locality::lemma_below_same(d, e, p, s[k]);
    }
    let a = s.take(n);
    let b = s.skip(n + 1);
    assert forall|k: int| 0 <= k < a.len() implies d.has_node(#[trigger] a[k])
        && locality::same_below(d, e, a[k]) by {
        assert(a[k] == s[k]);
    }
    assert forall|k: int| 0 <= k < b.len() implies d.has_node(#[trigger] b[k])
        && locality::same_below(d, e, b[k]) by {
        assert(b[k] == s[n + 1 + k]);
    }
    locality::lemma_written_all_same(d, e, a, dep + 1);
    locality::lemma_written_all_same(d, e, b, dep + 1);
    assert(locality::depth_of(d, c) == dep + 1) by {
        ancestry::lemma_lineage(d.links.up, c);
        ancestry::lemma_lineage(d.links.up, p);
    }
    assert(dep + 1 <= serialize::deepest(d));
    locality::lemma_source_around(d, p, n, dep + 1);
    lemma_join(e, a, b, dep + 1);
    let x = d.nodes[p].span;
    let y = d.nodes[c].span;
    let o = locality::open_text(d, p);
    let f = locality::close_text(d, p);
    let before = serialize::written_all(d, a, dep + 1)->0;
    let after = serialize::written_all(d, b, dep + 1)->0;
    assert(locality::open_text(e, p) == o);
    assert(locality::close_text(e, p) == f);
    assert(o + (before + after) + f =~= (o + before) + (after + f));
    assert(src.take(x.start as int) + (src.subrange(x.start as int, y.start as int) + src.subrange(
        y.end as int,
        x.end as int,
    )) + src.skip(x.end as int) =~= src.take(y.start as int) + src.skip(y.end as int));
}

/// A document without one of its nodes can be written.
proof fn lemma_removed_written(d: Dom, c: int)
    requires
        fresh(d),
        edit::node_removed(d, c) is Ok,
    ensures
        serialize::written(
            edit::node_removed(d, c)->Ok_0,
            d.root,
            0,
        ) is Some,
{
    let e = edit::node_removed(d, c)->Ok_0;
    let up = d.links.up;
    arena::lemma_detached(d.links, c);
    ancestry::lemma_unlink_acyclic(up, c);
    assert(e.links.up =~= up.update(c, None));
    assert forall|i: int| e.has_node(i) implies #[trigger] locality::depth_of(e, i)
        <= serialize::deepest(e) by {
        assert(locality::depth_of(d, i) < serialize::deepest(d));
        lemma_no_deeper(up, e.links.up, i);
        ancestry::lemma_lineage(e.links.up, i);
    }
    ancestry::lemma_lineage(e.links.up, d.root);
    assert(locality::depth_of(e, d.root) == 0);
    reading::lemma_shallow_written(e, d.root);
}

/// A node that knows of a change below it is changed, and has the tags that it
/// had.
proof fn lemma_chained_tag(d: Dom, f: Dom, i: int)
    requires
        model::wf(d),
        d.has_node(i),
        locality::same_ground(d, f),
        f.nodes == d.nodes,
        f.elements == d.elements,
        f.attrs == d.attrs,
        f.links.up.len() == d.nodes.len(),
        ancestry::acyclic(f.links.up),
        d.nodes[i].kind.holds_children(),
    ensures
        ({
            let e = change::chained(f, Some(i));
            &&& e.nodes[i].flags.changed()
            &&& locality::same_tags(d, e, i)
            &&& e.kids(i) == f.kids(i)
            &&& locality::open_text(e, i) == locality::open_text(d, i)
            &&& locality::close_text(e, i) == locality::close_text(d, i)
        }),
{
    let e = change::chained(f, Some(i));
    let m = d.nodes[i].flags.marks;
    ancestry::lemma_lineage(f.links.up, i);
    assert(ancestry::lineage(f.links.up, i)[0] == i);
    arena::lemma_mark_bits();
    arena::lemma_marks(m, 2, 2);
    arena::lemma_marks(m, 2, 4);
    arena::lemma_marks(m, 2, 8);
    assert(e.attrs_of(i) == d.attrs_of(i));
    locality::lemma_tags_same(d, e, i);
}

/// Setting the text of an element changes what stands between its tags and
/// nothing else. An element that was written with one tag gets a closing tag.
#[verifier::spinoff_prover]
pub proof fn lemma_element_text_is_one_region(
    src: Seq<u8>,
    limits: Limits,
    d: Dom,
    i: int,
    v: Seq<char>,
)
    requires
        parse::parsed(src, limits) == Ok::<Dom, Error>(d),
        edit::text_set(d, i, v) is Ok,
        d.nodes[i].kind is Element,
    ensures
        ({
            let e = edit::text_set(d, i, v)->Ok_0;
            let b = edit::value_bytes(v, None);
            let x = d.elem(i);
            let y = d.nodes[i].span.end as int;
            if model::is_empty_tag(d.nodes[i]) {
                &&& x.pre_close_ws.end + 2 == y <= src.len()
                &&& serialize::written(e, e.root, 0) == Some(
                    src.take(x.pre_close_ws.end as int) + seq![62u8] + b + seq![60u8, 47u8]
                        + d.piece(x.qname, false) + seq![62u8] + src.skip(y),
                )
            } else {
                &&& 0 <= x.opened_at(false) <= x.closed_at() <= src.len()
                &&& serialize::written(e, e.root, 0) == Some(
                    src.take(x.opened_at(false)) + b + src.skip(x.closed_at()),
                )
            }
        }),
{
    reading::lemma_parsed_sited(src, limits);
    let e = edit::text_set(d, i, v)->Ok_0;
    let b = edit::value_bytes(v, None);
    let n = d.nodes.len() as int;
    let dep = locality::depth_of(d, i);
    let c = d.nodes[i];
    let x = d.elem(i);
    let y = e.elem(i);
    assert(model::node_ok(d, i));
    assert(model::calm(d, i));
    assert(sited::sited_at(d, i));
    arena::lemma_mark_bits();
    effects::lemma_text_set_touches(d, i, v);
    effects::lemma_element_text_made(d, i, v);
    lemma_text_written(d, i, v);
    lemma_around(d, e, i);
    sited::lemma_tags_sit(d, i);
    assert(e.attrs_of(i) =~= d.attrs_of(i));
    locality::lemma_attrs_ok(d, i);
    locality::lemma_attrs_text_same(d, e, d.attrs_of(i));
    assert(serialize::head_text(e, i) == serialize::head_text(d, i));
    locality::lemma_written_open(e, i, dep);
    assert(e.kids(i).drop_last() =~= Seq::<int>::empty());
    assert(e.piece(e.nodes[n].span, true) =~= b);
    assert(serialize::written_all(e, e.kids(i).drop_last(), dep + 1) == Some(Seq::<u8>::empty()));
    assert(serialize::written(e, n, dep + 1) is Some);
    assert(Seq::<u8>::empty() + b =~= b);
    assert(serialize::written_all(e, e.kids(i), dep + 1) == Some(b));
    let h = serialize::head_text(d, i);
    let from = c.span.start as int;
    let to = c.span.end as int;
    if model::is_empty_tag(c) {
        let at = x.pre_close_ws.end as int;
        assert(h =~= src.subrange(from, at)) by {
            assert((h + seq![47u8, 62u8]).take(at - from) =~= h);
            assert(src.subrange(from, to).take(at - from) =~= src.subrange(from, at));
        }
        assert(serialize::tail_text(e, i) =~= seq![60u8, 47u8] + d.piece(x.qname, false)
            + seq![62u8]);
        assert(src.take(from) + ((h + seq![62u8]) + b + (seq![60u8, 47u8] + d.piece(
            x.qname,
            false,
        ) + seq![62u8])) + src.skip(to) =~= src.take(at) + seq![62u8] + b + seq![60u8, 47u8]
            + d.piece(x.qname, false) + seq![62u8] + src.skip(to));
    } else {
        let lo = x.opened_at(false);
        let hi = x.closed_at();
        assert(serialize::tail_text(e, i) == serialize::tail_text(d, i));
        assert(src.take(from) + (src.subrange(from, lo) + b + src.subrange(hi, to)) + src.skip(to)
            =~= src.take(lo) + b + src.skip(hi));
    }
}

/// A document with a new text can be written.
proof fn lemma_text_written(d: Dom, i: int, v: Seq<char>)
    requires
        fresh(d),
        d.is_element(i),
    ensures
        serialize::written(edit::element_text_set(d, i, v), d.root, 0) is Some,
{
    let e = edit::element_text_set(d, i, v);
    let n = d.nodes.len() as int;
    effects::lemma_element_text_made(d, i, v);
    let up = d.links.up;
    let cut = edit::emptied(d.links, i).up;
    effects::lemma_emptied_acyclic(d.links, i);
    assert forall|k: int| e.has_node(k) implies #[trigger] locality::depth_of(e, k)
        <= serialize::deepest(e) by {
        ancestry::lemma_lineage(e.links.up, k);
        if k < n {
            assert(locality::depth_of(d, k) < serialize::deepest(d));
            effects::lemma_still_above(d, i, v, k);
            lemma_no_deeper(up, cut, k);
        } else {
            effects::lemma_still_above(d, i, v, i);
            lemma_no_deeper(up, cut, i);
            assert(locality::depth_of(d, i) < serialize::deepest(d));
        }
    }
    ancestry::lemma_lineage(e.links.up, d.root);
    assert(locality::depth_of(e, d.root) == 0);
    reading::lemma_shallow_written(e, d.root);
}

/// A node with two tags, or a document, is written as its opening, its children
/// and its closing, be it changed or not.
proof fn lemma_written_plain(d: Dom, p: int, k: nat)
    requires
        model::wf(d),
        sited::sited(d),
        d.has_node(p),
        d.nodes[p].kind.holds_children(),
        d.nodes[p].kind is Element ==> !model::is_empty_tag(d.nodes[p]),
        serialize::written(d, p, k) is Some,
        k + 1 <= serialize::deepest(d),
    ensures
        serialize::written_all(d, d.kids(p), k + 1) is Some,
        serialize::written(d, p, k)->0 == locality::open_text(d, p) + serialize::written_all(
            d,
            d.kids(p),
            k + 1,
        )->0 + locality::close_text(d, p),
{
    let c = d.nodes[p];
    if c.flags.changed() {
        locality::lemma_written_open(d, p, k);
    } else {
        let n = d.kids(p).len() as int;
        let x = c.span;
        assert(sited::sited_at(d, p));
        assert(model::node_ok(d, p));
        if c.kind is Element {
            sited::lemma_tags_sit(d, p);
        } else if d.bom {
            assert(d.src.subrange(0, 3) =~= d.src.take(3));
        }
        let lo = coverage::inner_start(d, p);
        let hi = coverage::inner_end(d, p);
        sited::lemma_kids_written(d, p, 0, n, k + 1);
        assert(d.kids(p).subrange(0, n) =~= d.kids(p));
        if c.kind is Document {
            assert(locality::open_text(d, p) =~= d.src.subrange(0, lo));
            assert(locality::close_text(d, p) =~= d.src.subrange(hi, x.end as int));
        }
        assert(d.src.subrange(x.start as int, lo) + d.src.subrange(lo, hi) + d.src.subrange(
            hi,
            x.end as int,
        ) =~= d.src.subrange(x.start as int, x.end as int));
    }
}

/// What is written gets one thing more at one place.
pub open spec fn adds(was: Option<Seq<u8>>, now: Option<Seq<u8>>, t: Option<Seq<u8>>) -> bool {
    exists|a: Seq<u8>, b: Seq<u8>| #[trigger] adds_between(was, now, t, a, b)
}

pub open spec fn adds_between(
    was: Option<Seq<u8>>,
    now: Option<Seq<u8>>,
    t: Option<Seq<u8>>,
    a: Seq<u8>,
    b: Seq<u8>,
) -> bool {
    t is Some && was == Some(a + b) && now == Some(a + t->0 + b)
}

/// A node with one more child is written with one thing more.
#[verifier::spinoff_prover]
#[verifier::rlimit(60)]
proof fn lemma_hung_inside(d: Dom, e: Dom, p: int, k: int, c: int, dep: nat)
    requires
        model::wf(d),
        sited::sited(d),
        d.has_node(p),
        d.has_node(c),
        !ancestry::below(d.links.up, p, c),
        0 <= k <= d.kids(p).len(),
        d.nodes[p].kind.holds_children(),
        d.nodes[p].kind is Element ==> !model::is_empty_tag(d.nodes[p]),
        locality::touched(d, e, p),
        locality::same_tags(d, e, p),
        e.nodes[p].flags.changed(),
        e.kids(p) == d.kids(p).insert(k, c),
        locality::open_text(e, p) == locality::open_text(d, p),
        locality::close_text(e, p) == locality::close_text(d, p),
        serialize::written(d, p, dep) is Some,
        serialize::written(e, p, dep) is Some,
    ensures
        adds(
            serialize::written(d, p, dep),
            serialize::written(e, p, dep),
            serialize::written(d, c, dep + 1),
        ),
{
    let s = d.kids(p);
    let t = e.kids(p);
    locality::lemma_written_open(e, p, dep);
    locality::lemma_split(e, t, dep + 1, k);
    assert(t.take(k) =~= s.take(k));
    assert(t.skip(k + 1) =~= s.skip(k));
    locality::lemma_elsewhere_same(d, e, p, c, dep + 1);
    let a = s.take(k);
    let b = s.skip(k);
    lemma_some_same(d, e, p, dep + 1, a);
    lemma_some_same(d, e, p, dep + 1, b);
    lemma_written_plain(d, p, dep);
    lemma_join(d, a, b, dep + 1);
    assert(a + b =~= s);
    let o = locality::open_text(d, p);
    let z = locality::close_text(d, p);
    let before = serialize::written_all(d, a, dep + 1)->0;
    let after = serialize::written_all(d, b, dep + 1)->0;
    let w = serialize::written(d, c, dep + 1)->0;
    let left = o + before;
    let right = after + z;
    assert(o + (before + after) + z =~= left + right);
    assert(o + (before + w + after) + z =~= left + w + right);
    assert(adds_between(
        serialize::written(d, p, dep),
        serialize::written(e, p, dep),
        serialize::written(d, c, dep + 1),
        left,
        right,
    ));
}

/// The document where a node hangs at a place below another one, and those above
/// know, adds what is written for the node.
proof fn lemma_hung_adds(d: Dom, p: int, k: int, c: int)
    requires
        model::wf(d),
        sited::sited(d),
        edit::attach_fault(d, p, c) is None,
        0 <= k <= d.kids(p).len(),
        d.nodes[p].kind is Element ==> !model::is_empty_tag(d.nodes[p]),
        locality::touched(d, change::chained(change::hooked(d, p, k, c), Some(p)), p),
        ancestry::below(d.links.up, p, d.root),
        serialize::written(d, d.root, 0) is Some,
        serialize::written(
            change::chained(change::hooked(d, p, k, c), Some(p)),
            d.root,
            0,
        ) is Some,
    ensures
        adds(
            serialize::written(d, d.root, 0),
            serialize::written(change::chained(change::hooked(d, p, k, c), Some(p)), d.root, 0),
            serialize::written(d, c, locality::depth_of(d, p) + 1),
        ),
{
    let f = change::hooked(d, p, k, c);
    let e = change::chained(f, Some(p));
    let dep = locality::depth_of(d, p);
    locality::lemma_edit_is_local(d, e, p);
    let (x, y) = choose|x: Seq<u8>, y: Seq<u8>| locality::framed(d, e, p, d.root, 0, x, y);
    ancestry::lemma_link_acyclic(d.links.up, p, c);
    assert(d.arena.take(d.arena.len() as int) =~= d.arena);
    lemma_chained_tag(d, f, p);
    lemma_hung_inside(d, e, p, k, c, dep);
    let was = serialize::written(d, p, dep);
    let now = serialize::written(e, p, dep);
    let t = serialize::written(d, c, dep + 1);
    let (a, b) = choose|a: Seq<u8>, b: Seq<u8>| adds_between(was, now, t, a, b);
    assert(x + (a + b) + y =~= (x + a) + (b + y));
    assert(x + (a + t->0 + b) + y =~= (x + a) + t->0 + (b + y));
    assert(adds_between(
        serialize::written(d, d.root, 0),
        serialize::written(e, d.root, 0),
        t,
        x + a,
        b + y,
    ));
}

/// Children of the edited node that were there are written as before.
proof fn lemma_some_same(d: Dom, e: Dom, p: int, depth: nat, a: Seq<int>)
    requires
        model::wf(d),
        locality::touched(d, e, p),
        forall|k: int| 0 <= k < a.len() ==> d.kids(p).contains(#[trigger] a[k]),
    ensures
        serialize::written_all(e, a, depth) == serialize::written_all(d, a, depth),
{
    assert forall|k: int| 0 <= k < a.len() implies d.has_node(#[trigger] a[k])
        && locality::same_below(d, e, a[k]) by {
        let j = d.kids(p).index_of(a[k]);
        assert(arena::kid_at(d.links, p, j));
        if ancestry::below(d.links.up, p, a[k]) {
            locality::lemma_above_less(d.links.up, p, a[k]);
            ancestry::lemma_lineage(d.links.up, a[k]);
        }
        locality::lemma_below_same(d, e, p, a[k]);
    }
    locality::lemma_written_all_same(d, e, a, depth);
}

/// Hanging a node on another one of the tree adds what is written for the node,
/// and changes nothing else, where the other one is not written with one tag.
pub proof fn lemma_appended_adds(d: Dom, p: int, c: int)
    requires
        model::wf(d),
        sited::sited(d),
        edit::child_appended(d, p, c) is Ok,
        d.nodes[p].kind is Element ==> !model::is_empty_tag(d.nodes[p]),
        ancestry::below(d.links.up, p, d.root),
        serialize::written(d, d.root, 0) is Some,
        serialize::written(edit::child_appended(d, p, c)->Ok_0, d.root, 0) is Some,
    ensures
        adds(
            serialize::written(d, d.root, 0),
            serialize::written(edit::child_appended(d, p, c)->Ok_0, d.root, 0),
            serialize::written(d, c, locality::depth_of(d, p) + 1),
        ),
{
    effects::lemma_child_appended_touches(d, p, c);
    assert(change::opened_up(d, p) == d);
    lemma_hung_adds(d, p, d.kids(p).len() as int, c);
}

/// Putting a node before another one of the tree adds what is written for the
/// node, and changes nothing else.
pub proof fn lemma_inserted_adds(d: Dom, anchor: int, c: int)
    requires
        model::wf(d),
        sited::sited(d),
        edit::child_inserted(d, anchor, c) is Ok,
        ancestry::below(d.links.up, d.up(anchor)->0, d.root),
        serialize::written(d, d.root, 0) is Some,
        serialize::written(edit::child_inserted(d, anchor, c)->Ok_0, d.root, 0) is Some,
    ensures
        adds(
            serialize::written(d, d.root, 0),
            serialize::written(edit::child_inserted(d, anchor, c)->Ok_0, d.root, 0),
            serialize::written(d, c, locality::depth_of(d, d.up(anchor)->0) + 1),
        ),
{
    let p = d.up(anchor)->0;
    effects::lemma_child_inserted_touches(d, anchor, c);
    arena::lemma_place(d.links, anchor);
    assert(sited::sited_at(d, p));
    lemma_hung_adds(d, p, arena::place_of(d.links, anchor), c);
}

} // verus!
