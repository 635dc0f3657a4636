//! Reading a document.
//!
//! What comes back as bytes are the bytes of the part, as they will be written.
//! What comes back as text has its references replaced and its line ends made
//! uniform; it never goes back into the tree.
use vstd::prelude::*;
use vstd::string::*;

use crate::bytes::span::Span;
use crate::dom::ancestry;
use crate::dom::arena;
use crate::dom::arena::{Node, NodeId, NodeKind};
use crate::dom::document::Document;
use crate::dom::model;
use crate::dom::node::{Attr, ElementData};
use crate::error::{Error, XmlError};
use crate::text;
use crate::xml::entity;
use crate::xml::lexer;
use crate::xml::name;
use crate::xml::reader;

verus! {

/// The index of the first of the nodes that is an element, from `k` on.
pub open spec fn first_element(d: model::Dom, s: Seq<int>, k: int) -> Option<int>
    decreases s.len() - k,
{
    if !(0 <= k < s.len()) {
        None
    } else if d.nodes[s[k]].kind is Element {
        Some(s[k])
    } else {
        first_element(d, s, k + 1)
    }
}

/// The name of an element.
pub open spec fn qname_of(d: model::Dom, i: int) -> Seq<u8> {
    let e = d.elem(i);
    d.piece(e.qname, model::name_in_arena(e))
}

/// The name of an element without its prefix.
pub open spec fn local_name_of(d: model::Dom, i: int) -> Seq<u8> {
    let e = d.elem(i);
    d.piece(e.local, model::name_in_arena(e))
}

/// The namespace of an element.
pub open spec fn uri_of(d: model::Dom, i: int) -> Option<Seq<char>> {
    let e = d.elem(i);
    if e.ns_uri == ElementData::NO_NS {
        None
    } else {
        Some(d.uris[e.ns_uri as int])
    }
}

/// Whether a node is an element with this name in this namespace.
pub open spec fn is_named(d: model::Dom, i: int, ns: Option<Seq<char>>, local: Seq<char>) -> bool {
    d.nodes[i].kind is Element && local_name_of(d, i) == vstd::utf8::encode_utf8(local) && uri_of(
        d,
        i,
    ) == ns
}

/// The first of the nodes with this name, from `k` on.
pub open spec fn first_named(
    d: model::Dom,
    s: Seq<int>,
    ns: Option<Seq<char>>,
    local: Seq<char>,
    k: int,
) -> Option<int>
    decreases s.len() - k,
{
    if !(0 <= k < s.len()) {
        None
    } else if is_named(d, s[k], ns, local) {
        Some(s[k])
    } else {
        first_named(d, s, ns, local, k + 1)
    }
}

pub open spec fn attr_name(d: model::Dom, a: Attr) -> Seq<u8> {
    d.piece(a.name, model::attr_name_in_arena(a))
}

pub open spec fn attr_value(d: model::Dom, a: Attr) -> Seq<u8> {
    d.piece(a.value, model::value_in_arena(a))
}

/// The value by which one of the attributes declares a prefix, from `k` on.
pub open spec fn declared_among(d: model::Dom, s: Seq<Attr>, prefix: Seq<u8>, k: int) -> Option<
    Seq<u8>,
>
    decreases s.len() - k,
{
    if !(0 <= k < s.len()) {
        None
    } else if name::prefix(attr_name(d, s[k])) == reader::XMLNS@ && name::local(
        attr_name(d, s[k]),
    ) == prefix {
        Some(attr_value(d, s[k]))
    } else {
        declared_among(d, s, prefix, k + 1)
    }
}

/// The value by which the first of the nodes declares a prefix, from `k` on.
pub open spec fn declared_on_way(d: model::Dom, way: Seq<int>, prefix: Seq<u8>, k: int) -> Option<
    Seq<u8>,
>
    decreases way.len() - k,
{
    if !(0 <= k < way.len()) {
        None
    } else if d.nodes[way[k]].kind is Element {
        match declared_among(d, d.attrs_of(way[k]), prefix, 0) {
            Some(v) => Some(v),
            None => declared_on_way(d, way, prefix, k + 1),
        }
    } else {
        declared_on_way(d, way, prefix, k + 1)
    }
}

/// The namespace of a declaration: none when it is empty, which takes a prefix
/// back.
pub open spec fn declared_uri(v: Option<Seq<u8>>) -> Option<Seq<char>> {
    match v {
        None => None,
        Some(b) => if b.len() > 0 && vstd::utf8::valid_utf8(b) {
            Some(vstd::utf8::decode_utf8(b))
        } else {
            None
        },
    }
}

/// The namespace of an attribute with a prefix. One without a prefix is in no
/// namespace.
pub open spec fn attr_uri(d: model::Dom, i: int, prefix: Seq<u8>) -> Option<Seq<char>> {
    if prefix.len() == 0 {
        None
    } else if prefix == reader::XML@ {
        Some(reader::xml_uri())
    } else {
        declared_uri(
            declared_on_way(d, ancestry::lineage(d.links.up, i), prefix, 0),
        )
    }
}

/// Whether an attribute of a node has this name in this namespace.
pub open spec fn attr_is(
    d: model::Dom,
    i: int,
    a: Attr,
    ns: Option<Seq<char>>,
    local: Seq<char>,
) -> bool {
    name::local(attr_name(d, a)) == vstd::utf8::encode_utf8(local) && attr_uri(
        d,
        i,
        name::prefix(attr_name(d, a)),
    ) == ns
}

/// The place of the first attribute of this name, from `k` on.
pub open spec fn attr_place(
    d: model::Dom,
    i: int,
    ns: Option<Seq<char>>,
    local: Seq<char>,
    k: int,
) -> Option<int>
    decreases d.attrs_of(i).len() - k,
{
    if !(0 <= k < d.attrs_of(i).len()) {
        None
    } else if attr_is(d, i, d.attrs_of(i)[k], ns, local) {
        Some(k)
    } else {
        attr_place(d, i, ns, local, k + 1)
    }
}

/// What the value of an attribute stands for, when it can be read.
pub open spec fn attr_read(
    d: model::Dom,
    i: int,
    ns: Option<Seq<char>>,
    local: Seq<char>,
) -> Option<Seq<char>> {
    match attr_place(d, i, ns, local, 0) {
        Some(k) => match bytes_read(attr_value(d, d.attrs_of(i)[k]), true) {
            Ok(t) => Some(t),
            Err(_) => None,
        },
        None => None,
    }
}

/// The place of the attribute whose name is written so, from `k` on.
pub open spec fn raw_place(d: model::Dom, s: Seq<Attr>, n: Seq<u8>, k: int) -> Option<int>
    decreases s.len() - k,
{
    if !(0 <= k < s.len()) {
        None
    } else if attr_name(d, s[k]) == n {
        Some(k)
    } else {
        raw_place(d, s, n, k + 1)
    }
}

/// A text that may be missing.
pub open spec fn opt_view(s: Option<&str>) -> Option<Seq<char>> {
    match s {
        Some(t) => Some(t@),
        None => None,
    }
}

/// The first `n` bytes are UTF-8, and no more than these.
pub open spec fn valid_up_to(b: Seq<u8>, n: int) -> bool {
    0 <= n < b.len() && vstd::utf8::valid_utf8(b.take(n)) && forall|k: int|
        n < k <= b.len() ==> !vstd::utf8::valid_utf8(#[trigger] b.take(k))
}

/// How many bytes, at most, are UTF-8 when cut off there.
pub open spec fn valid_len(b: Seq<u8>) -> int {
    choose|n: int| valid_up_to(b, n)
}

/// What bytes stand for: text, or the value of an attribute.
pub open spec fn bytes_read(b: Seq<u8>, attr: bool) -> Result<Seq<char>, Error> {
    if vstd::utf8::valid_utf8(b) {
        entity::decoded(vstd::utf8::decode_utf8(b), 0, attr)
    } else {
        lexer::fault(XmlError::NotUtf8, valid_len(b))
    }
}

/// A result of texts.
pub open spec fn result_view(r: Result<String, Error>) -> Result<Seq<char>, Error> {
    match r {
        Ok(t) => Ok(t@),
        Err(e) => Err(e),
    }
}

/// Reads bytes as text, or as the value of an attribute.
pub(crate) fn decode_bytes(b: &[u8], attr: bool) -> (r: Result<String, Error>)
    requires
        b@.len() <= u32::MAX,
    ensures
        result_view(r) == bytes_read(b@, attr),
{
    match text::utf8_text(b) {
        Ok(s) => {
            let cs = text::chars_of(s.as_str());
            entity::decode(cs.as_slice(), attr)
        },
        Err(n) => {
            proof {
                assert(valid_up_to(b@, n as int));
                let m = valid_len(b@);
                assert(valid_up_to(b@, m));
                if m < n {
                    assert(!vstd::utf8::valid_utf8(b@.take(n as int)));
                }
                if n < m {
                    assert(!vstd::utf8::valid_utf8(b@.take(m)));
                }
            }
            Err(Error::Xml { kind: XmlError::NotUtf8, offset: n as u32 })
        },
    }
}

impl Document {
    /// The root element.
    pub fn root_element(&self) -> (r: Result<NodeId, Error>)
        requires
            self.wf(),
        ensures
            match r {
                Ok(id) => first_element(self@, self@.kids(self@.root), 0) == Some(id.num()),
                Err(e) => first_element(self@, self@.kids(self@.root), 0) is None && e == (
                Error::Xml { kind: XmlError::NoRoot, offset: 0 }),
            },
    {
        let kids = self.children(self.root);
        let ghost s = self@.kids(self@.root);
        let mut k: usize = 0;
        while k < kids.len()
            invariant
                self.wf(),
                k <= kids@.len(),
                s == self@.kids(self@.root),
                ids(kids@) == s,
                first_element(self@, s, k as int) == first_element(self@, s, 0),
            decreases kids@.len() - k,
        {
            assert(s[k as int] == kids@[k as int].num());
            assert(arena::kid_at(self@.links, self@.root, k as int));
            if self.kind(kids[k]) == Some(NodeKind::Element) {
                return Ok(kids[k]);
            }
            k = k + 1;
        }
        Err(Error::Xml { kind: XmlError::NoRoot, offset: 0 })
    }

    /// What a node is; `None` when it is none of the document.
    #[must_use]
    pub fn kind(&self, n: NodeId) -> (r: Option<NodeKind>)
        ensures
            r == if self@.has_node(n.num()) {
                Some(self@.nodes[n.num()].kind)
            } else {
                None
            },
    {
        let i: usize = n.index();
        if i < self.nodes.len() {
            Some(self.nodes[i].kind)
        } else {
            None
        }
    }

    /// The parent of a node.
    #[must_use]
    pub fn parent(&self, n: NodeId) -> (r: Option<NodeId>)
        requires
            self.wf(),
        ensures
            arena::num_of(r) == if self@.has_node(n.num()) {
                self@.up(n.num())
            } else {
                None
            },
    {
        let i: usize = n.index();
        if i < self.nodes.len() {
            assert(arena::ends_ok(self.nodes@, self.links@, i as int));
            self.nodes[i].parent
        } else {
            None
        }
    }

    /// The span of a node, of the source or of the new bytes.
    #[must_use]
    pub fn span(&self, n: NodeId) -> (r: Option<Span>)
        ensures
            r == if self@.has_node(n.num()) {
                Some(self@.nodes[n.num()].span)
            } else {
                None
            },
    {
        let i: usize = n.index();
        if i < self.nodes.len() {
            Some(self.nodes[i].span)
        } else {
            None
        }
    }

    /// Whether the span of a node is one of the new bytes.
    #[must_use]
    pub fn span_in_arena(&self, n: NodeId) -> (r: bool)
        ensures
            r == (self@.has_node(n.num()) && model::in_arena(self@.nodes[n.num()])),
    {
        let i: usize = n.index();
        i < self.nodes.len() && self.nodes[i].flags.has(8)
    }

    /// Whether an element is written with one tag.
    #[must_use]
    pub fn is_self_closing(&self, n: NodeId) -> (r: bool)
        ensures
            r == (self@.has_node(n.num()) && model::is_empty_tag(self@.nodes[n.num()])),
    {
        let i: usize = n.index();
        i < self.nodes.len() && self.nodes[i].flags.has(4)
    }

    /// The children of a node, in their order.
    pub fn children(&self, n: NodeId) -> (r: Vec<NodeId>)
        requires
            self.wf(),
        ensures
            ids(r@) == if self@.has_node(n.num()) {
                self@.kids(n.num())
            } else {
                Seq::empty()
            },
    {
        let mut out: Vec<NodeId> = Vec::new();
        let i: usize = n.index();
        if i >= self.nodes.len() {
            assert(ids(out@) =~= Seq::empty());
            return out;
        }
        let ghost s = self@.kids(n.num());
        let ghost mut k: int = 0;
        assert(arena::ends_ok(self.nodes@, self.links@, i as int));
        let mut cur: Option<NodeId> = self.nodes[i].first_child;
        assert(ids(out@) =~= s.take(0));
        loop
            invariant
                self.wf(),
                self@.has_node(n.num()),
                s == self@.kids(n.num()),
                0 <= k <= s.len(),
                arena::num_of(cur) == arena::item(s, k),
                ids(out@) == s.take(k),
            ensures
                k == s.len(),
            decreases s.len() - k,
        {
            let c: NodeId = match cur {
                Some(c) => c,
                None => break,
            };
            proof {
                assert(arena::kid_at(self@.links, n.num(), k));
                assert(arena::sides_ok(self.nodes@, self.links@, n.num(), k));
            }
            let ghost before = out@;
            out.push(c);
            proof {
                assert(ids(out@) =~= ids(before).push(c.num()));
                assert(ids(out@) =~= s.take(k + 1));
                k = k + 1;
            }
            cur = self.nodes[c.index()].next;
        }
        assert(s.take(k) =~= s);
        out
    }

    /// The name of an element as it is written, with its prefix.
    #[must_use]
    pub fn qname(&self, n: NodeId) -> (r: Option<&[u8]>)
        requires
            self.wf(),
        ensures
            match r {
                Some(b) => self@.is_element(n.num()) && b@ == qname_of(self@, n.num()),
                None => !self@.is_element(n.num()),
            },
    {
        match self.elem(n) {
            Ok(e) => Some(self.bytes(e.qname, e.flags.has(1))),
            Err(_) => None,
        }
    }

    /// The name of an element without its prefix.
    #[must_use]
    pub fn local_name(&self, n: NodeId) -> (r: Option<&[u8]>)
        requires
            self.wf(),
        ensures
            match r {
                Some(b) => self@.is_element(n.num()) && b@ == local_name_of(self@, n.num()),
                None => !self@.is_element(n.num()),
            },
    {
        match self.elem(n) {
            Ok(e) => Some(self.bytes(e.local, e.flags.has(1))),
            Err(_) => None,
        }
    }

    /// The namespace of an element. One that was made with
    /// [`Document::new_element`] has none.
    #[must_use]
    pub fn element_uri(&self, n: NodeId) -> (r: Option<&str>)
        requires
            self.wf(),
        ensures
            opt_view(r) == if self@.is_element(n.num()) {
                uri_of(self@, n.num())
            } else {
                None
            },
    {
        match self.elem(n) {
            Ok(e) => {
                if e.ns_uri == u32::MAX {
                    None
                } else {
                    Some(self.uris[e.ns_uri as usize].as_str())
                }
            },
            Err(_) => None,
        }
    }

    /// The first child element with a name. `ns`: `None` asks for an element in
    /// no namespace.
    #[must_use]
    pub fn find_child(&self, n: NodeId, ns: Option<&str>, local: &str) -> (r: Option<NodeId>)
        requires
            self.wf(),
        ensures
            arena::num_of(r) == if self@.has_node(n.num()) {
                first_named(self@, self@.kids(n.num()), opt_view(ns), local@, 0)
            } else {
                None
            },
    {
        let kids = self.children(n);
        let ghost s = ids(kids@);
        let mut k: usize = 0;
        while k < kids.len()
            invariant
                self.wf(),
                k <= kids@.len(),
                s == ids(kids@),
                s == (if self@.has_node(n.num()) {
                    self@.kids(n.num())
                } else {
                    Seq::empty()
                }),
                first_named(self@, s, opt_view(ns), local@, k as int) == first_named(
                    self@,
                    s,
                    opt_view(ns),
                    local@,
                    0,
                ),
            decreases kids@.len() - k,
        {
            assert(s[k as int] == kids@[k as int].num());
            assert(arena::kid_at(self@.links, n.num(), k as int));
            if self.is_named(kids[k], ns, local) {
                return Some(kids[k]);
            }
            k = k + 1;
        }
        None
    }

    fn is_named(&self, n: NodeId, ns: Option<&str>, local: &str) -> (r: bool)
        requires
            self.wf(),
            self@.has_node(n.num()),
        ensures
            r == is_named(self@, n.num(), opt_view(ns), local@),
    {
        match self.local_name(n) {
            None => false,
            Some(b) => {
                if !name::same(b, local.as_bytes()) {
                    return false;
                }
                same_opt(self.element_uri(n), ns)
            },
        }
    }

    /// The value of an attribute, with its references as they stand.
    #[must_use]
    pub fn attr_raw(&self, n: NodeId, ns: Option<&str>, local: &str) -> (r: Option<&[u8]>)
        requires
            self.wf(),
        ensures
            match r {
                Some(b) => self@.is_element(n.num()) && match attr_place(
                    self@,
                    n.num(),
                    opt_view(ns),
                    local@,
                    0,
                ) {
                    Some(k) => b@ == attr_value(self@, self@.attrs_of(n.num())[k]) && b@.len()
                        <= u32::MAX,
                    None => false,
                },
                None => !self@.is_element(n.num()) || attr_place(
                    self@,
                    n.num(),
                    opt_view(ns),
                    local@,
                    0,
                ) is None,
            },
    {
        match self.find_attr(n, ns, local) {
            Some((a, _)) => Some(self.bytes(a.value, a.flags.has(2))),
            None => None,
        }
    }

    /// The value of an attribute; `None` when there is none, or it cannot be
    /// read.
    #[must_use]
    pub fn attr(&self, n: NodeId, ns: Option<&str>, local: &str) -> (r: Option<String>)
        requires
            self.wf(),
        ensures
            (match r {
                Some(t) => Some(t@),
                None => None,
            }) == if self@.is_element(n.num()) {
                attr_read(self@, n.num(), opt_view(ns), local@)
            } else {
                None
            },
    {
        match self.attr_raw(n, ns, local) {
            None => None,
            Some(raw) => match decode_bytes(raw, true) {
                Ok(t) => Some(t),
                Err(_) => None,
            },
        }
    }

    /// The name of an attribute as it is written, by its place.
    #[must_use]
    pub fn attr_name_at(&self, n: NodeId, i: usize) -> (r: Option<&[u8]>)
        requires
            self.wf(),
        ensures
            match r {
                Some(b) => self@.is_element(n.num()) && i < self@.attrs_of(n.num()).len() && b@
                    == attr_name(self@, self@.attrs_of(n.num())[i as int]),
                None => !self@.is_element(n.num()) || i >= self@.attrs_of(n.num()).len(),
            },
    {
        match self.elem(n) {
            Ok(e) => {
                let list = self.attrs_of(&e);
                if i < list.len() {
                    let a: Attr = list[i];
                    assert(model::attr_ok(self@, list@[i as int]));
                    Some(self.bytes(a.name, a.flags.has(1)))
                } else {
                    None
                }
            },
            Err(_) => None,
        }
    }

    /// The number of attributes of an element.
    #[must_use]
    pub fn attr_count(&self, n: NodeId) -> (r: usize)
        requires
            self.wf(),
        ensures
            r == if self@.is_element(n.num()) {
                self@.attrs_of(n.num()).len()
            } else {
                0
            },
    {
        match self.elem(n) {
            Ok(e) => e.attrs_len as usize,
            Err(_) => 0,
        }
    }

    /// The attribute of a name in a namespace, and its place.
    pub(crate) fn find_attr(&self, n: NodeId, ns: Option<&str>, local: &str) -> (r: Option<
        (Attr, usize),
    >)
        requires
            self.wf(),
        ensures
            match r {
                Some((a, k)) => {
                    &&& self@.is_element(n.num())
                    &&& attr_place(self@, n.num(), opt_view(ns), local@, 0) == Some(k as int)
                    &&& k < self@.attrs_of(n.num()).len()
                    &&& a == self@.attrs_of(n.num())[k as int]
                    &&& model::attr_ok(self@, a)
                    &&& self@.piece(a.value, model::value_in_arena(a)).len() <= u32::MAX
                },
                None => !self@.is_element(n.num()) || attr_place(
                    self@,
                    n.num(),
                    opt_view(ns),
                    local@,
                    0,
                ) is None,
            },
    {
        let e: ElementData = match self.elem(n) {
            Ok(e) => e,
            Err(_) => return None,
        };
        let list = self.attrs_of(&e);
        let mut k: usize = 0;
        while k < list.len()
            invariant
                self.wf(),
                self@.is_element(n.num()),
                k <= list@.len(),
                list@ == self@.attrs_of(n.num()),
                forall|j: int| 0 <= j < list@.len() ==> model::attr_ok(self@, #[trigger] list@[j]),
                attr_place(self@, n.num(), opt_view(ns), local@, k as int) == attr_place(
                    self@,
                    n.num(),
                    opt_view(ns),
                    local@,
                    0,
                ),
            decreases list@.len() - k,
        {
            let a: Attr = list[k];
            assert(model::attr_ok(self@, list@[k as int]));
            let whole = self.bytes(a.name, a.flags.has(1));
            if name::same(name::local_of(whole), local.as_bytes()) {
                let uri = self.attr_uri(n, name::prefix_of(whole));
                if same_opt_string(&uri, ns) {
                    return Some((a, k));
                }
            }
            k = k + 1;
        }
        None
    }

    /// The place of the attribute whose name is written so.
    pub(crate) fn find_attr_raw(&self, n: NodeId, qname: &[u8]) -> (r: Option<usize>)
        requires
            self.wf(),
            self@.is_element(n.num()),
        ensures
            match r {
                Some(k) => raw_place(self@, self@.attrs_of(n.num()), qname@, 0) == Some(k as int)
                    && k < self@.attrs_of(n.num()).len(),
                None => raw_place(self@, self@.attrs_of(n.num()), qname@, 0) is None,
            },
    {
        let e: ElementData = match self.elem(n) {
            Ok(e) => e,
            Err(_) => return None,
        };
        let list = self.attrs_of(&e);
        let mut k: usize = 0;
        while k < list.len()
            invariant
                self.wf(),
                k <= list@.len(),
                list@ == self@.attrs_of(n.num()),
                forall|j: int| 0 <= j < list@.len() ==> model::attr_ok(self@, #[trigger] list@[j]),
                raw_place(self@, list@, qname@, k as int) == raw_place(self@, list@, qname@, 0),
            decreases list@.len() - k,
        {
            let a: Attr = list[k];
            assert(model::attr_ok(self@, list@[k as int]));
            if name::same(self.bytes(a.name, a.flags.has(1)), qname) {
                return Some(k);
            }
            k = k + 1;
        }
        None
    }

    fn attr_uri(&self, n: NodeId, prefix: &[u8]) -> (r: Option<String>)
        requires
            self.wf(),
            self@.has_node(n.num()),
        ensures
            (match r {
                Some(t) => Some(t@),
                None => None,
            }) == attr_uri(self@, n.num(), prefix@),
    {
        if prefix.len() == 0 {
            return None;
        }
        if name::same(prefix, reader::XML.as_slice()) {
            return Some("http://www.w3.org/XML/1998/namespace".to_owned());
        }
        self.resolve_prefix(n, prefix)
    }

    /// The namespace of a prefix, by the nearest declaration on the way to the
    /// root.
    fn resolve_prefix(&self, from: NodeId, prefix: &[u8]) -> (r: Option<String>)
        requires
            self.wf(),
            self@.has_node(from.num()),
        ensures
            (match r {
                Some(t) => Some(t@),
                None => None,
            }) == declared_uri(
                declared_on_way(
                    self@,
                    ancestry::lineage(self@.links.up, from.num()),
                    prefix@,
                    0,
                ),
            ),
    {
        let ghost way = ancestry::lineage(self@.links.up, from.num());
        let ghost mut k: int = 0;
        let mut cur: NodeId = from;
        assert(way.skip(0) =~= way);
        loop
            invariant
                self.wf(),
                self@.has_node(cur.num()),
                way == ancestry::lineage(self@.links.up, from.num()),
                0 <= k < way.len(),
                way.skip(k) == ancestry::lineage(self@.links.up, cur.num()),
                declared_on_way(self@, way, prefix@, k) == declared_on_way(
                    self@,
                    way,
                    prefix@,
                    0,
                ),
            decreases ancestry::rank_of(self@.links.up)[cur.num()],
        {
            proof {
                ancestry::lemma_lineage(self@.links.up, cur.num());
                assert(way.skip(k)[0] == way[k]);
                assert(ancestry::lineage(self@.links.up, cur.num())[0] == cur.num());
            }
            if let Ok(e) = self.elem(cur) {
                if let Some(raw) = self.find_declared(&e, prefix) {
                    if raw.len() == 0 {
                        return None;
                    }
                    return match text::utf8_text(raw) {
                        Ok(t) => Some(t),
                        Err(_) => None,
                    };
                }
            }
            match self.parent(cur) {
                Some(p) => {
                    proof {
                        ancestry::lemma_lineage(self@.links.up, p.num());
                        let rest = ancestry::lineage(self@.links.up, p.num());
                        assert(way.skip(k) == seq![cur.num()] + rest);
                        assert(way.skip(k + 1) =~= rest) by {
                            assert(way.skip(k + 1) =~= way.skip(k).skip(1));
                            assert(way.skip(k).skip(1) =~= rest);
                        }
                        assert(way.skip(k + 1).len() > 0);
                        k = k + 1;
                    }
                    cur = p;
                },
                None => {
                    proof {
                        assert(way.skip(k).len() == 1);
                        assert(declared_on_way(self@, way, prefix@, k + 1) is None);
                    }
                    return None;
                },
            }
        }
    }

    /// The value by which an element declares a prefix.
    fn find_declared(&self, e: &ElementData, prefix: &[u8]) -> (r: Option<&[u8]>)
        requires
            self.wf(),
            model::elem_ok(self@, *e),
        ensures
            (match r {
                Some(b) => Some(b@),
                None => None,
            }) == declared_among(
                self@,
                self@.attrs.subrange(e.attrs_from as int, e.attrs_from + e.attrs_len),
                prefix@,
                0,
            ),
    {
        let list = self.attrs_of(e);
        let mut k: usize = 0;
        while k < list.len()
            invariant
                self.wf(),
                k <= list@.len(),
                forall|j: int| 0 <= j < list@.len() ==> model::attr_ok(self@, #[trigger] list@[j]),
                declared_among(self@, list@, prefix@, k as int) == declared_among(
                    self@,
                    list@,
                    prefix@,
                    0,
                ),
                list@ == self@.attrs.subrange(e.attrs_from as int, e.attrs_from + e.attrs_len),
            decreases list@.len() - k,
        {
            let a: Attr = list[k];
            assert(model::attr_ok(self@, list@[k as int]));
            let whole = self.bytes(a.name, a.flags.has(1));
            if name::same(name::prefix_of(whole), reader::XMLNS.as_slice()) && name::same(
                name::local_of(whole),
                prefix,
            ) {
                return Some(self.bytes(a.value, a.flags.has(2)));
            }
            k = k + 1;
        }
        None
    }
}

/// The body of a CDATA section.
pub open spec fn cdata_body(b: Seq<u8>) -> Option<Seq<u8>> {
    if b.len() >= 12 && b.take(9) == lexer::CDATA_OPEN@ && b.skip(b.len() - 3)
        == lexer::CDATA_CLOSE@ {
        Some(b.subrange(9, b.len() - 3))
    } else {
        None
    }
}

/// The text of a text node or a CDATA section.
pub open spec fn leaf_text(d: model::Dom, i: int) -> Result<Seq<char>, Error> {
    let c = d.nodes[i];
    let b = d.piece(c.span, model::in_arena(c));
    if c.kind is Text {
        bytes_read(b, false)
    } else {
        match cdata_body(b) {
            Some(x) => Ok(text::lossy(x)),
            None => lexer::fault(XmlError::UnexpectedEof, c.span.start as int),
        }
    }
}

pub open spec fn is_leaf_text(d: model::Dom, i: int) -> bool {
    d.nodes[i].kind is Text || d.nodes[i].kind is CData
}

/// The texts of those of the nodes that are text, one behind the other.
pub open spec fn gathered(d: model::Dom, s: Seq<int>) -> Result<Seq<char>, Error>
    decreases s.len(),
{
    if s.len() == 0 {
        Ok(Seq::empty())
    } else {
        match gathered(d, s.drop_last()) {
            Err(e) => Err(e),
            Ok(t) => if is_leaf_text(d, s.last()) {
                match leaf_text(d, s.last()) {
                    Ok(u) => Ok(t + u),
                    Err(e) => Err(e),
                }
            } else {
                Ok(t)
            },
        }
    }
}

/// The text of a node: for an element that of its children, not of what is
/// below them.
pub open spec fn text_of(d: model::Dom, i: int) -> Result<Seq<char>, Error> {
    if is_leaf_text(d, i) {
        leaf_text(d, i)
    } else if d.nodes[i].kind.holds_children() {
        gathered(d, d.kids(i))
    } else {
        Ok(Seq::empty())
    }
}

/// The first of the nodes that takes the byte, from `k` on.
pub open spec fn first_at(d: model::Dom, s: Seq<int>, offset: u32, k: int) -> Option<int>
    decreases s.len() - k,
{
    if !(0 <= k < s.len()) {
        None
    } else if d.nodes[s[k]].span.start <= offset < d.nodes[s[k]].span.end {
        Some(s[k])
    } else {
        first_at(d, s, offset, k + 1)
    }
}

/// Where going down from `i` to the child that takes the byte ends.
pub open spec fn descended(d: model::Dom, i: int, offset: u32) -> int
    decreases
            ancestry::greatest(ancestry::rank_of(d.links.up)) - ancestry::rank_of(d.links.up)[i],
{
    let r = ancestry::rank_of(d.links.up);
    match first_at(d, d.kids(i), offset, 0) {
        Some(c) => if r[i] < r[c] <= ancestry::greatest(r) {
            descended(d, c, offset)
        } else {
            i
        },
        None => i,
    }
}

/// What a node is called in a path.
pub open spec fn label(d: model::Dom, i: int) -> Seq<char> {
    match d.nodes[i].kind {
        NodeKind::Element => text::lossy(qname_of(d, i)),
        NodeKind::Text => "#text"@,
        NodeKind::CData => "#cdata"@,
        NodeKind::Comment => "#comment"@,
        NodeKind::Pi => "#pi"@,
        NodeKind::Decl => "#decl"@,
        NodeKind::Document => "#?"@,
    }
}

/// Whether two nodes are called the same.
pub open spec fn alike(d: model::Dom, a: int, b: int) -> bool {
    &&& d.nodes[a].kind == d.nodes[b].kind
    &&& d.nodes[a].kind is Element ==> qname_of(d, a) == qname_of(d, b)
}

/// How many of the nodes are called like `c`.
pub open spec fn count_alike(d: model::Dom, s: Seq<int>, c: int) -> nat
    decreases s.len(),
{
    if s.len() == 0 {
        0
    } else {
        count_alike(d, s.drop_last(), c) + if alike(d, s.last(), c) {
            1nat
        } else {
            0
        }
    }
}

/// One step of a path: what a node is called, and its number among the siblings
/// that are called the same, where there are several.
pub open spec fn step_text(d: model::Dom, p: int, c: int) -> Seq<char> {
    let s = d.kids(p);
    if count_alike(d, s, c) > 1 {
        label(d, c) + seq!['['] + text::decimal(
            count_alike(d, s.take(s.index_of(c) + 1), c),
        ) + seq![']']
    } else {
        label(d, c)
    }
}

/// The steps from the end of a way to its beginning.
pub open spec fn steps_text(d: model::Dom, way: Seq<int>) -> Seq<char>
    decreases way.len(),
{
    if way.len() <= 1 {
        Seq::empty()
    } else {
        steps_text(d, way.skip(1)) + seq!['/'] + step_text(d, way[1], way[0])
    }
}

/// The path from the root of its tree to a node.
pub open spec fn path_text(d: model::Dom, i: int) -> Seq<char> {
    let t = steps_text(d, ancestry::lineage(d.links.up, i));
    if t.len() == 0 {
        seq!['/']
    } else {
        t
    }
}

impl Document {
    /// The text of a node.
    pub fn text(&self, n: NodeId) -> (r: Result<String, Error>)
        requires
            self.wf(),
        ensures
            result_view(r) == if self@.has_node(n.num()) {
                text_of(self@, n.num())
            } else {
                Err(crate::dom::document::no_node())
            },
    {
        let node: Node = match self.node(n) {
            Ok(x) => x,
            Err(e) => return Err(e),
        };
        match node.kind {
            NodeKind::Text => self.leaf_text(n),
            NodeKind::CData => self.leaf_text(n),
            NodeKind::Element => self.gather_text(n),
            NodeKind::Document => self.gather_text(n),
            _ => {
                let r = String::new();
                assert(r@ =~= Seq::empty());
                Ok(r)
            },
        }
    }

    fn leaf_text(&self, n: NodeId) -> (r: Result<String, Error>)
        requires
            self.wf(),
            self@.has_node(n.num()),
            is_leaf_text(self@, n.num()),
        ensures
            result_view(r) == leaf_text(self@, n.num()),
    {
        let node: Node = match self.node(n) {
            Ok(x) => x,
            Err(e) => return Err(e),
        };
        assert(model::node_ok(self@, n.num()));
        let raw = self.bytes(node.span, node.flags.has(8));
        if node.kind == NodeKind::Text {
            return decode_bytes(raw, false);
        }
        let m: usize = raw.len();
        if m >= 12 {
            let head = vstd::slice::slice_subrange(raw, 0, 9);
            let tail = vstd::slice::slice_subrange(raw, m - 3, m);
            assert(head@ =~= raw@.take(9));
            assert(tail@ =~= raw@.skip(m - 3));
            if name::same(head, lexer::CDATA_OPEN.as_slice()) && name::same(
                tail,
                lexer::CDATA_CLOSE.as_slice(),
            ) {
                return Ok(text::utf8_lossy(vstd::slice::slice_subrange(raw, 9, m - 3)));
            }
        }
        Err(lexer::fail(XmlError::UnexpectedEof, node.span.start as usize))
    }

    fn gather_text(&self, n: NodeId) -> (r: Result<String, Error>)
        requires
            self.wf(),
            self@.has_node(n.num()),
        ensures
            result_view(r) == gathered(self@, self@.kids(n.num())),
    {
        let kids = self.children(n);
        let ghost s = self@.kids(n.num());
        let mut out: String = String::new();
        let mut k: usize = 0;
        assert(s.take(0) =~= Seq::<int>::empty());
        assert(out@ =~= Seq::<char>::empty());
        while k < kids.len()
            invariant
                self.wf(),
                self@.has_node(n.num()),
                k <= kids@.len(),
                s == ids(kids@),
                s == self@.kids(n.num()),
                gathered(self@, s.take(k as int)) == Ok::<Seq<char>, Error>(out@),
            decreases kids@.len() - k,
        {
            let c: NodeId = kids[k];
            proof {
                assert(s[k as int] == c.num());
                assert(arena::kid_at(self@.links, n.num(), k as int));
                assert(s.take(k + 1).drop_last() =~= s.take(k as int));
            }
            let kind: Option<NodeKind> = self.kind(c);
            if kind == Some(NodeKind::Text) || kind == Some(NodeKind::CData) {
                match self.leaf_text(c) {
                    Ok(t) => out.append(t.as_str()),
                    Err(e) => {
                        proof {
                            lemma_gathered_fails(self@, s, k + 1, e);
                        }
                        return Err(e);
                    },
                }
            }
            k = k + 1;
        }
        assert(s.take(k as int) =~= s);
        Ok(out)
    }

    /// The deepest node that takes a byte of the source.
    #[must_use]
    pub fn node_at(&self, offset: u32) -> (r: Option<NodeId>)
        requires
            self.wf(),
        ensures
            arena::num_of(r) == Some(descended(self@, self@.root, offset)),
    {
        let ghost r = ancestry::rank_of(self@.links.up);
        let mut cur: NodeId = self.root;
        loop
            invariant
                self.wf(),
                self@.has_node(cur.num()),
                r == ancestry::rank_of(self@.links.up),
                descended(self@, cur.num(), offset) == descended(self@, self@.root, offset),
            ensures
                cur.num() == descended(self@, self@.root, offset),
            decreases ancestry::greatest(r) - r[cur.num()],
        {
            match self.child_at(cur, offset) {
                Some(c) => {
                    proof {
                        ancestry::lemma_lineage(self@.links.up, c.num());
                        assert(ancestry::ranked(self@.links.up, r));
                        ancestry::lemma_greatest(r, c.num());
                    }
                    cur = c;
                },
                None => break,
            }
        }
        Some(cur)
    }

    /// The path from the root to a node: `/w:document/w:body/w:p[3]/#text`.
    #[must_use]
    pub fn path(&self, n: NodeId) -> (r: String)
        requires
            self.wf(),
        ensures
            r@ == if self@.has_node(n.num()) {
                path_text(self@, n.num())
            } else {
                seq!['/']
            },
    {
        let mut out: String = String::new();
        if n.index() < self.nodes.len() {
            self.push_steps(n, &mut out);
            proof {
                let t = steps_text(self@, ancestry::lineage(self@.links.up, n.num()));
                assert(Seq::<char>::empty() + t =~= t);
            }
        }
        if text::chars_of(out.as_str()).len() == 0 {
            out.push('/');
            assert(out@ =~= seq!['/']);
        }
        out
    }

    fn push_steps(&self, n: NodeId, out: &mut String)
        requires
            self.wf(),
            self@.has_node(n.num()),
        ensures
            final(out)@ == old(out)@ + steps_text(
                self@,
                ancestry::lineage(self@.links.up, n.num()),
            ),
        decreases ancestry::rank_of(self@.links.up)[n.num()],
    {
        let ghost way = ancestry::lineage(self@.links.up, n.num());
        proof {
            ancestry::lemma_lineage(self@.links.up, n.num());
        }
        match self.parent(n) {
            Some(p) => {
                proof {
                    ancestry::lemma_lineage(self@.links.up, p.num());
                    assert(way.skip(1) =~= ancestry::lineage(self@.links.up, p.num()));
                    assert(way[1] == p.num());
                }
                self.push_steps(p, out);
                out.push('/');
                self.push_step(p, n, out);
                assert(out@ =~= old(out)@ + steps_text(self@, way));
            },
            None => {
                assert(out@ + Seq::<char>::empty() =~= out@);
            },
        }
    }

    fn push_label(&self, n: NodeId, out: &mut String)
        requires
            self.wf(),
            self@.has_node(n.num()),
        ensures
            final(out)@ == old(out)@ + label(self@, n.num()),
    {
        match self.nodes[n.index()].kind {
            NodeKind::Element => {
                if let Some(q) = self.qname(n) {
                    out.append(text::utf8_lossy(q).as_str());
                }
            },
            NodeKind::Text => out.append("#text"),
            NodeKind::CData => out.append("#cdata"),
            NodeKind::Comment => out.append("#comment"),
            NodeKind::Pi => out.append("#pi"),
            NodeKind::Decl => out.append("#decl"),
            NodeKind::Document => out.append("#?"),
        }
    }

    fn is_alike(&self, a: NodeId, b: NodeId) -> (r: bool)
        requires
            self.wf(),
            self@.has_node(a.num()),
            self@.has_node(b.num()),
        ensures
            r == alike(self@, a.num(), b.num()),
    {
        if self.nodes[a.index()].kind != self.nodes[b.index()].kind {
            return false;
        }
        match (self.qname(a), self.qname(b)) {
            (Some(x), Some(y)) => name::same(x, y),
            _ => true,
        }
    }

    fn push_step(&self, p: NodeId, c: NodeId, out: &mut String)
        requires
            self.wf(),
            self@.has_node(c.num()),
            self@.up(c.num()) == Some(p.num()),
        ensures
            final(out)@ == old(out)@ + step_text(self@, p.num(), c.num()),
    {
        proof {
            arena::lemma_place(self@.links, c.num());
            assert(arena::distinct(self@.links, p.num()));
        }
        let kids = self.children(p);
        let ghost s = self@.kids(p.num());
        let ghost place = s.index_of(c.num());
        let mut total: usize = 0;
        let mut nth: usize = 0;
        let mut k: usize = 0;
        assert(s.take(0) =~= Seq::<int>::empty());
        while k < kids.len()
            invariant
                self.wf(),
                self@.has_node(p.num()),
                self@.has_node(c.num()),
                k <= kids@.len(),
                total <= k,
                s == ids(kids@),
                s == self@.kids(p.num()),
                s.no_duplicates(),
                place == s.index_of(c.num()),
                0 <= place < s.len(),
                s[place] == c.num(),
                total == count_alike(self@, s.take(k as int), c.num()),
                k > place ==> nth == count_alike(self@, s.take(place + 1), c.num()),
            decreases kids@.len() - k,
        {
            let x: NodeId = kids[k];
            proof {
                assert(s[k as int] == x.num());
                assert(arena::kid_at(self@.links, p.num(), k as int));
                assert(s.take(k + 1).drop_last() =~= s.take(k as int));
            }
            if self.is_alike(x, c) {
                total = total + 1;
                if x.index() == c.index() {
                    proof {
                        assert(s[k as int] == s[place]);
                        assert(k == place);
                    }
                    nth = total;
                }
            }
            k = k + 1;
        }
        assert(s.take(k as int) =~= s);
        self.push_label(c, out);
        if total > 1 {
            out.push('[');
            text::push_decimal(out, nth as u64);
            out.push(']');
        }
        assert(out@ =~= old(out)@ + step_text(self@, p.num(), c.num()));
    }

    fn child_at(&self, n: NodeId, offset: u32) -> (r: Option<NodeId>)
        requires
            self.wf(),
            self@.has_node(n.num()),
        ensures
            arena::num_of(r) == first_at(self@, self@.kids(n.num()), offset, 0),
            r matches Some(c) ==> self@.has_node(c.num()) && self@.up(c.num()) == Some(n.num()),
    {
        let kids = self.children(n);
        let ghost s = self@.kids(n.num());
        let mut k: usize = 0;
        while k < kids.len()
            invariant
                self.wf(),
                self@.has_node(n.num()),
                k <= kids@.len(),
                s == ids(kids@),
                s == self@.kids(n.num()),
                first_at(self@, s, offset, k as int) == first_at(self@, s, offset, 0),
            decreases kids@.len() - k,
        {
            let c: NodeId = kids[k];
            assert(s[k as int] == c.num());
            assert(arena::kid_at(self@.links, n.num(), k as int));
            let x: Span = self.nodes[c.index()].span;
            if x.start <= offset && offset < x.end {
                return Some(c);
            }
            k = k + 1;
        }
        None
    }
}

/// A failure among the first nodes is one among all.
proof fn lemma_gathered_fails(d: model::Dom, s: Seq<int>, n: int, e: Error)
    requires
        0 <= n <= s.len(),
        gathered(d, s.take(n)) == Err::<Seq<char>, Error>(e),
    ensures
        gathered(d, s) == Err::<Seq<char>, Error>(e),
    decreases s.len(),
{
    if n < s.len() {
        assert(s.drop_last().take(n) =~= s.take(n));
        lemma_gathered_fails(d, s.drop_last(), n, e);
    } else {
        assert(s.take(n) =~= s);
    }
}

/// The indices of nodes.
pub open spec fn ids(s: Seq<NodeId>) -> Seq<int> {
    s.map_values(|n: NodeId| n.num())
}

fn same_opt(a: Option<&str>, b: Option<&str>) -> (r: bool)
    ensures
        r == (opt_view(a) == opt_view(b)),
{
    match (a, b) {
        (Some(x), Some(y)) => text::same_text(x, y),
        (None, None) => true,
        _ => false,
    }
}

fn same_opt_string(a: &Option<String>, b: Option<&str>) -> (r: bool)
    ensures
        r == ((match a {
            Some(t) => Some(t@),
            None => None,
        }) == opt_view(b)),
{
    match (a, b) {
        (Some(x), Some(y)) => text::same_text(x.as_str(), y),
        (None, None) => true,
        _ => false,
    }
}

} // verus!
