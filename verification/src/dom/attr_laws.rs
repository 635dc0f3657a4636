//! What an edit of one attribute leaves of the others.
use vstd::prelude::*;

use crate::dom::change;
use crate::dom::edit;
use crate::dom::laws;
use crate::dom::model;
use crate::dom::model::Dom;
use crate::dom::query;

verus! {

/// An attribute is written as another one was, name and value.
pub open spec fn reads_same(d: Dom, i: int, x: int, e: Dom, y: int) -> bool {
    &&& query::attr_name(e, e.attrs_of(i)[y]) == query::attr_name(d, d.attrs_of(i)[x])
    &&& query::attr_value(e, e.attrs_of(i)[y]) == query::attr_value(d, d.attrs_of(i)[x])
}

proof fn lemma_kept(d: Dom, i: int, x: int, e: Dom, y: int)
    requires
        model::wf(d),
        d.is_element(i),
        0 <= x < d.attrs_of(i).len(),
        e.attrs_of(i)[y] == d.attrs_of(i)[x],
        laws::holds_bytes(d, e),
    ensures
        reads_same(d, i, x, e, y),
{
    assert(model::node_ok(d, i));
    let a = d.attrs_of(i)[x];
    assert(model::attr_at_ok(d, d.elem(i).attrs_from + x));
    laws::lemma_same_piece(d, e, a.name, model::attr_name_in_arena(a));
    laws::lemma_same_piece(d, e, a.value, model::value_in_arena(a));
}

/// Setting an attribute leaves the others, in their order, with their names and
/// values. One that was there keeps its place; a new one comes last.
pub proof fn lemma_other_attributes_stay(d: Dom, i: int, q: Seq<char>, v: Seq<char>)
    requires
        model::wf(d),
    ensures
        edit::attr_set(d, i, q, v) matches Ok(e) ==> {
            let n = vstd::utf8::encode_utf8(q);
            let s = d.attrs_of(i);
            let t = e.attrs_of(i);
            &&& if exists|x: int|
                0 <= x < s.len() && query::attr_name(d, #[trigger] s[x]) == n {
                t.len() == s.len()
            } else {
                t.len() == s.len() + 1 && query::attr_name(e, t.last()) == n
            }
            &&& forall|x: int|
                0 <= x < s.len() ==> query::attr_name(e, #[trigger] t[x]) == query::attr_name(
                    d,
                    s[x],
                )
            &&& forall|x: int|
                0 <= x < s.len() && query::attr_name(d, s[x]) != n ==> #[trigger] reads_same(
                    d,
                    i,
                    x,
                    e,
                    x,
                )
        },
{
    if let Ok(e) = edit::attr_set(d, i, q, v) {
        let n = vstd::utf8::encode_utf8(q);
        let s = d.attrs_of(i);
        let t = e.attrs_of(i);
        assert(model::node_ok(d, i));
        laws::lemma_raw_place(d, s, n, 0);
        match query::raw_place(d, s, n, 0) {
            Some(k) => {
                let j = d.elem(i).attrs_from + k;
                let a = d.attrs[j];
                let b = edit::value_bytes(v, Some(edit::quote_char(a.quote)));
                assert(query::attr_name(d, s[k]) == n);
                edit::lemma_value_marks(a.flags.marks);
                assert(e.arena == d.arena + b);
                assert(laws::holds_bytes(d, e)) by {
                    assert(e.arena.take(d.arena.len() as int) =~= d.arena);
                }
                laws::lemma_marked_frame(
                    change::attr_replaced(change::arena_grown(d, b), j, t[k]),
                    i,
                );
                assert(t.len() == s.len());
                assert forall|x: int| 0 <= x < s.len() implies query::attr_name(e, #[trigger] t[x])
                    == query::attr_name(d, s[x]) by {
                    assert(model::attr_at_ok(d, d.elem(i).attrs_from + x));
                    laws::lemma_same_piece(d, e, s[x].name, model::attr_name_in_arena(s[x]));
                }
                assert forall|x: int|
                    0 <= x < s.len() && query::attr_name(d, s[x]) != n implies #[trigger] reads_same(
                    d,
                    i,
                    x,
                    e,
                    x,
                ) by {
                    assert(t[x] == s[x]);
                    lemma_kept(d, i, x, e, x);
                }
            },
            None => {
                let b = edit::value_bytes(v, Some('"'));
                let new = edit::new_attr(d, n, b);
                let list = s.push(new);
                let d2 = change::arena_grown(change::arena_grown(d, n), b);
                edit::lemma_value_marks(0);
                laws::lemma_marked_frame(change::attrs_moved(d2, i, list), i);
                assert(t =~= list);
                assert(e.arena == d.arena + n + b);
                assert(laws::holds_bytes(d, e)) by {
                    assert(e.arena.take(d.arena.len() as int) =~= d.arena);
                }
                assert(query::attr_name(e, t.last()) =~= n);
                assert forall|x: int| 0 <= x < s.len() implies #[trigger] reads_same(
                    d,
                    i,
                    x,
                    e,
                    x,
                ) by {
                    assert(t[x] == s[x]);
                    lemma_kept(d, i, x, e, x);
                }
                assert forall|x: int| 0 <= x < s.len() implies query::attr_name(e, #[trigger] t[x])
                    == query::attr_name(d, s[x]) by {
                    assert(reads_same(d, i, x, e, x));
                }
            },
        }
    }
}

proof fn lemma_attr_place(d: Dom, i: int, ns: Option<Seq<char>>, local: Seq<char>, k: int)
    requires
        0 <= k <= d.attrs_of(i).len(),
    ensures
        match query::attr_place(d, i, ns, local, k) {
            Some(j) => k <= j < d.attrs_of(i).len() && query::attr_is(
                d,
                i,
                d.attrs_of(i)[j],
                ns,
                local,
            ) && forall|x: int|
                k <= x < j ==> !query::attr_is(d, i, #[trigger] d.attrs_of(i)[x], ns, local),
            None => forall|x: int|
                k <= x < d.attrs_of(i).len() ==> !query::attr_is(
                    d,
                    i,
                    #[trigger] d.attrs_of(i)[x],
                    ns,
                    local,
                ),
        },
    decreases d.attrs_of(i).len() - k,
{
    if k < d.attrs_of(i).len() && !query::attr_is(d, i, d.attrs_of(i)[k], ns, local) {
        lemma_attr_place(d, i, ns, local, k + 1);
    }
}

/// Removing an attribute takes out the first one that has the name in the
/// namespace, and leaves the others, in their order, with their names and values.
/// Where none has it nothing changes.
pub proof fn lemma_one_attribute_is_removed(
    d: Dom,
    i: int,
    ns: Option<Seq<char>>,
    local: Seq<char>,
)
    requires
        model::wf(d),
    ensures
        match edit::attr_removed(d, i, ns, local) {
            Ok((e, true)) => exists|k: int|
                {
                    &&& 0 <= k < d.attrs_of(i).len()
                    &&& query::attr_is(d, i, #[trigger] d.attrs_of(i)[k], ns, local)
                    &&& forall|x: int|
                        0 <= x < k ==> !query::attr_is(
                            d,
                            i,
                            #[trigger] d.attrs_of(i)[x],
                            ns,
                            local,
                        )
                    &&& e.attrs_of(i).len() == d.attrs_of(i).len() - 1
                    &&& forall|x: int| 0 <= x < k ==> #[trigger] reads_same(d, i, x, e, x)
                    &&& forall|x: int|
                        k < x < d.attrs_of(i).len() ==> #[trigger] reads_same(d, i, x, e, x - 1)
                },
            Ok((e, false)) => e == d && forall|x: int|
                0 <= x < d.attrs_of(i).len() ==> !query::attr_is(
                    d,
                    i,
                    #[trigger] d.attrs_of(i)[x],
                    ns,
                    local,
                ),
            Err(_) => true,
        },
{
    lemma_attr_place(d, i, ns, local, 0);
    if let Ok((e, done)) = edit::attr_removed(d, i, ns, local) {
        if done {
            let k = query::attr_place(d, i, ns, local, 0)->0;
            let s = d.attrs_of(i);
            let list = s.remove(k);
            assert(model::node_ok(d, i));
            laws::lemma_marked_frame(change::attrs_moved(d, i, list), i);
            let t = e.attrs_of(i);
            assert(t =~= list);
            assert(laws::holds_bytes(d, e)) by {
                assert(e.arena.take(d.arena.len() as int) =~= d.arena);
            }
            assert(query::attr_is(d, i, d.attrs_of(i)[k], ns, local));
            assert forall|x: int| 0 <= x < k implies #[trigger] reads_same(d, i, x, e, x) by {
                assert(t[x] == s[x]);
                lemma_kept(d, i, x, e, x);
            }
            assert forall|x: int| k < x < s.len() implies #[trigger] reads_same(
                d,
                i,
                x,
                e,
                x - 1,
            ) by {
                assert(t[x - 1] == s[x]);
                lemma_kept(d, i, x, e, x - 1);
            }
        }
    }
}

} // verus!
