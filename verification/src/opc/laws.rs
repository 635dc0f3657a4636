//! What holds of names, types, relationships and packages.
use vstd::prelude::*;
use vstd::string::*;

use crate::dom::model::Dom;
use crate::opc::assembly;
use crate::opc::content_types;
use crate::opc::content_types::{ByName, Types};
use crate::opc::fault::Fault;
use crate::opc::package;
use crate::opc::package::{Body, Ent, Pack};
use crate::opc::partname;
use crate::opc::parts;
use crate::opc::rels;
use crate::opc::rels::{Book, Link, TargetMode};
use crate::text;

verus! {

/// A name is that of the entry of an archive with a slash before it.
pub proof fn lemma_zip_name_names(t: Seq<char>)
    requires
        partname::valid(t),
    ensures
        partname::named(seq!['/'] + t.skip(1)) == Ok::<Seq<char>, Fault>(t),
{
    assert(seq!['/'] + t.skip(1) =~= t);
}

/// The last place in a text that is put together.
proof fn lemma_last_place_sum(a: Seq<char>, b: Seq<char>, c: char)
    requires
        a.len() > 0,
        a.last() == c,
        forall|k: int| 0 <= k < b.len() ==> #[trigger] b[k] != c,
    ensures
        partname::last_place(a + b, c) == Some(a.len() - 1),
    decreases b.len(),
{
    if b.len() == 0 {
        assert(a + b =~= a);
    } else {
        assert((a + b).drop_last() =~= a + b.drop_last());
        assert(b.last() == b[b.len() - 1]);
        lemma_last_place_sum(a, b.drop_last(), c);
    }
}

/// A name is its directory and its last segment.
proof fn lemma_dir_segment(t: Seq<char>)
    requires
        partname::valid(t),
    ensures
        partname::dir(t) + partname::last_segment(t) == t,
        partname::dir(t).len() > 0,
        partname::dir(t).last() == '/',
        partname::dir(t)[0] == '/',
        forall|k: int|
            0 <= k < partname::last_segment(t).len() ==> #[trigger] partname::last_segment(t)[k]
                != '/',
{
    partname::lemma_last_place(t, '/');
    assert(t[0] == '/');
    let i = partname::last_place(t, '/')->0;
    assert(t.take(i + 1) + t.skip(i + 1) =~= t);
    assert forall|k: int| 0 <= k < t.skip(i + 1).len() implies #[trigger] t.skip(i + 1)[k]
        != '/' by {
        assert(t.skip(i + 1)[k] == t[i + 1 + k]);
    }
}

/// A text with a separator inside, cut at the last one.
proof fn lemma_cut(a: Seq<char>, b: Seq<char>)
    requires
        a.len() > 0,
        a.last() == '/',
        forall|k: int| 0 <= k < b.len() ==> #[trigger] b[k] != '/',
    ensures
        partname::segments(a + b, '/') == partname::segments(a.drop_last(), '/').push(b),
{
    lemma_last_place_sum(a, b, '/');
    assert((a + b).take(a.len() - 1) =~= a.drop_last());
    assert((a + b).skip(a.len() as int) =~= b);
}

/// The text of the name of the relationships of a part is a name.
proof fn lemma_rels_name_is_valid(t: Seq<char>)
    requires
        partname::valid(t),
    ensures
        partname::valid(partname::rels_text(t)),
{
    let d = partname::dir(t);
    let s = partname::last_segment(t);
    let r = partname::rels_text(t);
    lemma_dir_segment(t);
    reveal_strlit("_rels/");
    reveal_strlit(".rels");
    let mid = "_rels/"@.drop_last();
    let b = s + ".rels"@;
    let a = d.skip(1) + "_rels/"@;
    assert(r.skip(1) =~= a + b);
    assert forall|k: int| 0 <= k < b.len() implies #[trigger] b[k] != '/' by {
        if k < s.len() {
            assert(s[k] != '/');
        }
    }
    assert(a.last() == '/');
    lemma_cut(a, b);
    let y = a.drop_last();
    assert(y =~= d.skip(1) + mid);
    assert(partname::segment_ok(b)) by {
        assert(b.last() == 's');
    }
    assert(mid.last() == 's');
    assert forall|k: int| 0 <= k < mid.len() implies #[trigger] mid[k] != '/' by {}
    assert(partname::segments_ok(partname::segments(y, '/'))) by {
        if d.len() == 1 {
            assert(y =~= mid);
            partname::lemma_last_place(mid, '/');
            assert(partname::segments(mid, '/') =~= seq![mid]);
        } else {
            let e = d.skip(1);
            assert(e.last() == '/');
            lemma_cut(e, mid);
            lemma_cut(e, s);
            assert(t.skip(1) =~= e + s);
            let g = partname::segments(e.drop_last(), '/');
            assert(t != seq!['/']);
            assert forall|i: int| 0 <= i < g.push(mid).len() implies partname::segment_ok(
                #[trigger] g.push(mid)[i],
            ) by {
                if i < g.len() {
                    assert(g.push(s)[i] == g[i]);
                }
            }
        }
    }
    let g = partname::segments(y, '/');
    assert forall|i: int| 0 <= i < g.push(b).len() implies partname::segment_ok(
        #[trigger] g.push(b)[i],
    ) by {
        if i < g.len() {
            assert(g.push(b)[i] == g[i]);
        }
    }
    assert(partname::name_chars(r)) by {
        assert forall|i: int| 0 <= i < r.len() implies partname::name_char(#[trigger] r[i]) by {
            if i < d.len() {
                assert(r[i] == t[i]);
            } else if i < d.len() + 6 {
                assert(r[i] == "_rels/"@[i - d.len()]);
            } else if i < d.len() + 6 + s.len() {
                assert(r[i] == s[i - d.len() - 6]);
                assert(s[i - d.len() - 6] == t[i - 6]);
            } else {
                assert(r[i] == ".rels"@[i - d.len() - 6 - s.len()]);
            }
        }
    }
    assert(r[0] == '/');
}

/// Every part that holds no relationships itself can have some, and they belong
/// to it.
pub proof fn lemma_rels_belong(t: Seq<char>)
    requires
        partname::valid(t),
        !partname::is_rels(t),
    ensures
        partname::rels_of(t) == Ok::<Seq<char>, Fault>(partname::rels_text(t)),
        partname::owner_of(partname::rels_text(t)) == Some(t),
{
    lemma_rels_name_is_valid(t);
    let d = partname::dir(t);
    let s = partname::last_segment(t);
    let r = partname::rels_text(t);
    lemma_dir_segment(t);
    reveal_strlit("_rels/");
    reveal_strlit(".rels");
    reveal_strlit("/_rels/");
    let a = d + "_rels/"@;
    let b = s + ".rels"@;
    assert(r =~= a + b);
    assert forall|k: int| 0 <= k < b.len() implies #[trigger] b[k] != '/' by {
        if k < s.len() {
            assert(s[k] != '/');
        }
    }
    assert(a.last() == '/');
    lemma_last_place_sum(a, b, '/');
    assert(partname::dir(r) =~= a);
    assert(partname::last_segment(r) =~= b);
    assert(b.skip(b.len() - 5) =~= ".rels"@);
    assert(text::lowered(r).skip(r.len() - 5) =~= ".rels"@) by {
        let low = text::lowered(r).skip(r.len() - 5);
        assert forall|k: int| 0 <= k < 5 implies low[k] == ".rels"@[k] by {
            assert(low[k] == text::lower(r[r.len() - 5 + k]));
            assert(r[r.len() - 5 + k] == b[b.len() - 5 + k]);
            assert(b[b.len() - 5 + k] == ".rels"@[k]);
        }
    }
    assert(text::lowered(a).skip(a.len() - 7) =~= "/_rels/"@) by {
        let low = text::lowered(a).skip(a.len() - 7);
        assert forall|k: int| 0 <= k < 7 implies low[k] == "/_rels/"@[k] by {
            assert(low[k] == text::lower(a[a.len() - 7 + k]));
            if k == 0 {
                assert(a[a.len() - 7] == d.last());
            } else {
                assert(a[a.len() - 7 + k] == "_rels/"@[k - 1]);
            }
        }
    }
    assert(partname::is_rels(r));
    assert(b.take(b.len() - 5) =~= s);
    assert(a.take(a.len() - 6) =~= d);
    if s.len() == 0 {
        assert(d + s =~= d);
        if t.len() > 1 {
            lemma_no_empty_end(t);
        }
    }
}

/// A name does not end with a slash.
proof fn lemma_no_empty_end(t: Seq<char>)
    requires
        partname::valid(t),
        t.len() > 1,
    ensures
        t.last() != '/',
{
    let b = t.skip(1);
    if t.last() == '/' {
        assert(t != seq!['/']);
        assert(b.last() == '/');
        let segs = partname::segments(b, '/');
        assert(segs.last() =~= Seq::<char>::empty());
        assert(partname::segment_ok(segs[segs.len() - 1]));
    }
}

proof fn lemma_override_place(s: Seq<ByName>, key: Seq<char>, k: int)
    requires
        0 <= k,
    ensures
        match content_types::override_place(s, key, k) {
            Some(i) => k <= i < s.len() && s[i].key == key && forall|j: int|
                k <= j < i ==> (#[trigger] s[j]).key != key,
            None => forall|j: int| k <= j < s.len() ==> (#[trigger] s[j]).key != key,
        },
    decreases s.len() - k,
{
    if k < s.len() && s[k].key != key {
        lemma_override_place(s, key, k + 1);
    }
}

proof fn lemma_override_found(s: Seq<ByName>, key: Seq<char>, k: int, i: int)
    requires
        0 <= k <= i < s.len(),
        s[i].key == key,
        forall|j: int| k <= j < i ==> (#[trigger] s[j]).key != key,
    ensures
        content_types::override_place(s, key, k) == Some(i),
    decreases i - k,
{
    if k < i {
        lemma_override_found(s, key, k + 1, i);
    }
}

/// A part has the type that was asked for.
pub proof fn lemma_ensured_type(t: Types, d: Dom, part: Seq<char>, ct: Seq<char>)
    requires
        content_types::ensured(t, d, part, ct).done is Ok,
    ensures
        content_types::type_of(content_types::ensured(t, d, part, ct).types, part) == Some(ct),
{
    let key = text::lowered(part);
    let u = content_types::ensured(t, d, part, ct).types;
    if content_types::type_of(t, part) != Some(ct) {
        lemma_override_place(t.overrides, key, 0);
        match content_types::override_place(t.overrides, key, 0) {
            Some(k) => lemma_override_found(u.overrides, key, 0, k),
            None => lemma_override_found(
                u.overrides,
                key,
                0,
                t.overrides.len() as int,
            ),
        }
    }
}

/// Asking for the type that a part has changes nothing.
pub proof fn lemma_ensured_again(t: Types, d: Dom, part: Seq<char>, ct: Seq<char>)
    requires
        content_types::ensured(t, d, part, ct).done is Ok,
    ensures
        ({
            let e = content_types::ensured(t, d, part, ct);
            let f = content_types::ensured(e.types, e.doc, part, ct);
            f.types == e.types && f.doc == e.doc && f.done == Ok::<bool, crate::error::Error>(
                false,
            )
        }),
{
    lemma_ensured_type(t, d, part, ct);
}

proof fn lemma_link_push(s: Seq<Link>, l: Link, k: int)
    requires
        0 <= k <= s.len(),
        rels::link_place(s, l.id, k) is None,
    ensures
        rels::link_place(s.push(l), l.id, k) == Some(s.len() as int),
    decreases s.len() - k,
{
    if k < s.len() {
        assert(s.push(l)[k] == s[k]);
        lemma_link_push(s, l, k + 1);
    }
}

/// A new identifier is free: there is a number whose identifier no relationship
/// has.
pub proof fn lemma_fresh_is_free(s: Seq<Link>)
    ensures
        rels::link_place(s, rels::fresh_id(s), 0) is None,
{
    rels::lemma_free_exists(s);
    let n = choose|n: nat| rels::next_free(s, n);
    assert(rels::next_free(s, n));
    assert(rels::is_free(s, n));
}

/// A relationship that was added is found by its identifier.
pub proof fn lemma_added_is_found(
    b: Book,
    d: Dom,
    rel_type: Seq<char>,
    target: Seq<char>,
    mode: TargetMode,
)
    ensures
        ({
            let c = rels::link_made(b, d, rel_type, target, mode);
            c.done matches Ok(id) ==> {
                let k = rels::link_place(c.book.links, id, 0);
                &&& k is Some
                &&& c.book.links[k->0].rel_type == rel_type
                &&& c.book.links[k->0].target == target
                &&& c.book.links[k->0].mode == mode
            }
        }),
{
    let c = rels::link_made(b, d, rel_type, target, mode);
    if let Ok(id) = c.done {
        lemma_fresh_is_free(b.links);
        lemma_link_push(b.links, c.book.links.last(), 0);
    }
}

proof fn lemma_key_found(s: Seq<Ent>, key: Seq<char>, k: int, i: int)
    requires
        0 <= k <= i < s.len(),
        package::has_key(s, i, key),
        forall|j: int| k <= j < i ==> !#[trigger] package::has_key(s, j, key),
    ensures
        package::key_place(s, key, k) == Some(i),
    decreases i - k,
{
    if k < i {
        assert(!package::has_key(s, k, key));
        lemma_key_found(s, key, k + 1, i);
    }
}

/// A part that was added is in the package, with its content and its type.
pub proof fn lemma_added_part_is_there(p: Pack, part: Seq<char>, data: Seq<u8>, ct: Seq<char>)
    requires
        0 <= p.ct_at < p.entries.len(),
        p.entries[p.ct_at].name is None,
        assembly::part_added(p, part, data, ct).fault is None,
    ensures
        ({
            let q = assembly::part_added(p, part, data, ct).pack;
            let i = parts::place(q, part);
            &&& i is Some
            &&& q.entries[i->0].body == Body::Bytes(data)
            &&& q.entries[i->0].added
            &&& content_types::type_of(q.types, part) == Some(ct)
        }),
{
    let key = text::lowered(part);
    let e = content_types::ensured(p.types, assembly::types_doc(p), part, ct);
    let t = assembly::retyped(p, e).pack;
    let q = assembly::part_added(p, part, data, ct).pack;
    lemma_ensured_type(p.types, assembly::types_doc(p), part, ct);
    package::lemma_key_place(p.entries, key, 0);
    match parts::place_any(p, part) {
        Some(i) => {
            assert forall|j: int| 0 <= j < i implies !#[trigger] package::has_key(
                q.entries,
                j,
                key,
            ) by {
                assert(!package::has_key(p.entries, j, key));
            }
            assert(package::has_key(p.entries, i, key));
            lemma_key_found(q.entries, key, 0, i);
        },
        None => {
            let n = p.entries.len() as int;
            assert forall|j: int| 0 <= j < n implies !#[trigger] package::has_key(
                q.entries,
                j,
                key,
            ) by {
                assert(!package::has_key(p.entries, j, key));
            }
            lemma_key_found(q.entries, key, 0, n);
        },
    }
}

/// Two packages have the same names, and what is gone in one is gone in the
/// other.
pub open spec fn keeps_gone(p: Pack, q: Pack) -> bool {
    &&& q.entries.len() == p.entries.len()
    &&& q.ct_at == p.ct_at
    &&& forall|k: int| 0 <= k < p.entries.len() ==> (#[trigger] q.entries[k]).name == p.entries[k].name
    &&& forall|k: int|
        0 <= k < p.entries.len() && k != p.ct_at && p.entries[k].body is Gone ==> (
        #[trigger] q.entries[k]).body is Gone
}

proof fn lemma_swept_keeps(p: Pack, j: int, part: Seq<char>)
    requires
        0 <= j < p.entries.len(),
    ensures
        keeps_gone(p, assembly::swept(p, j, part).pack),
{
}

pub(crate) proof fn lemma_all_swept_keeps(p: Pack, j: int, part: Seq<char>)
    requires
        0 <= j <= p.entries.len(),
    ensures
        keeps_gone(p, assembly::all_swept(p, j, part).pack),
    decreases p.entries.len() - j,
{
    if j < p.entries.len() {
        lemma_swept_keeps(p, j, part);
        let s = assembly::swept(p, j, part);
        if s.fault is None {
            lemma_all_swept_keeps(s.pack, j + 1, part);
            let q = assembly::all_swept(s.pack, j + 1, part).pack;
            assert forall|k: int| 0 <= k < p.entries.len() implies (#[trigger] q.entries[k]).name
                == p.entries[k].name by {
                assert(s.pack.entries[k].name == p.entries[k].name);
            }
            assert forall|k: int|
                0 <= k < p.entries.len() && k != p.ct_at && p.entries[k].body is Gone implies (
            #[trigger] q.entries[k]).body is Gone by {
                assert(s.pack.entries[k].body is Gone);
            }
        }
    }
}

/// Where names are the same, so are places.
pub(crate) proof fn lemma_same_key_place(s: Seq<Ent>, t: Seq<Ent>, key: Seq<char>, k: int)
    requires
        0 <= k,
        s.len() == t.len(),
        forall|i: int| 0 <= i < s.len() ==> (#[trigger] t[i]).name == s[i].name,
    ensures
        package::key_place(s, key, k) == package::key_place(t, key, k),
    decreases s.len() - k,
{
    if k < s.len() {
        assert(t[k].name == s[k].name);
        lemma_same_key_place(s, t, key, k + 1);
    }
}

/// A part that was removed is not in the package.
pub proof fn lemma_removed_part_is_gone(p: Pack, part: Seq<char>)
    requires
        0 <= p.ct_at < p.entries.len(),
        p.entries[p.ct_at].name is None,
        assembly::part_removed(p, part).fault is None,
    ensures
        parts::place(assembly::part_removed(p, part).pack, part) is None,
{
    let key = text::lowered(part);
    let i = parts::place(p, part)->0;
    package::lemma_key_place(p.entries, key, 0);
    let a = assembly::dropped(p, i, part).pack;
    assert(a.entries[i].body is Gone);
    let b = match partname::rels_of(part) {
        Ok(rp) => match parts::place(a, rp) {
            Some(j) => assembly::dropped(a, j, rp).pack,
            None => a,
        },
        Err(_) => a,
    };
    if let Ok(rp) = partname::rels_of(part) {
        package::lemma_key_place(a.entries, text::lowered(rp), 0);
    }
    assert(b.entries.len() == p.entries.len());
    assert(b.entries[i].body is Gone);
    lemma_all_swept_keeps(b, 0, part);
    let q = assembly::part_removed(p, part).pack;
    assert(q == assembly::all_swept(b, 0, part).pack);
    assert forall|k: int| 0 <= k < p.entries.len() implies (#[trigger] q.entries[k]).name
        == p.entries[k].name by {
        assert(b.entries[k].name == p.entries[k].name);
    }
    lemma_same_key_place(p.entries, q.entries, key, 0);
    assert(q.entries[i].body is Gone);
}

} // verus!
