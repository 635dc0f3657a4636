//! Writing a document.
//!
//! A node that is not changed is written by copying its span. A changed
//! element is put together from its pieces, each as it was.
use vstd::prelude::*;

use crate::bytes::span::Span;
use crate::dom::arena;
use crate::dom::arena::{Node, NodeId, NodeKind};
use crate::dom::document::Document;
use crate::dom::model;
use crate::dom::node::{Attr, ElementData};
use crate::error::{Error, LimitError};
use crate::xml::lexer;

verus! {

/// An attribute as it is written.
pub open spec fn attr_text(d: model::Dom, a: Attr) -> Seq<u8> {
    d.piece(a.pre_ws, model::ws_in_arena(a)) + d.piece(a.name, model::attr_name_in_arena(a))
        + d.piece(a.ws_before_eq, model::ws_in_arena(a)) + seq![61u8] + d.piece(
        a.ws_after_eq,
        model::ws_in_arena(a),
    ) + seq![a.quote] + d.piece(a.value, model::value_in_arena(a)) + seq![a.quote]
}

/// Attributes as they are written.
pub open spec fn attrs_text(d: model::Dom, s: Seq<Attr>) -> Seq<u8>
    decreases s.len(),
{
    if s.len() == 0 {
        Seq::empty()
    } else {
        attrs_text(d, s.drop_last()) + attr_text(d, s.last())
    }
}

/// The opening tag of an element up to its `>` or `/>`.
pub open spec fn head_text(d: model::Dom, i: int) -> Seq<u8> {
    let e = d.elem(i);
    seq![60u8] + d.piece(e.qname, model::name_in_arena(e)) + attrs_text(d, d.attrs_of(i))
        + d.piece(e.pre_close_ws, false)
}

/// The closing tag of an element.
pub open spec fn tail_text(d: model::Dom, i: int) -> Seq<u8> {
    let e = d.elem(i);
    seq![60u8, 47u8] + d.piece(e.close_qname, model::name_in_arena(e)) + d.piece(
        e.close_trailing_ws,
        false,
    ) + seq![62u8]
}

/// How deep nodes may lie. A part that could be read has its elements within
/// the quota, the document above them and a text below.
pub open spec fn deepest(d: model::Dom) -> nat {
    if d.limits.max_xml_depth <= u64::MAX - 3 {
        (d.limits.max_xml_depth + 2) as nat
    } else {
        (u64::MAX - 1) as nat
    }
}

/// What is written for a node in a certain depth; `None` when it lies too deep.
pub open spec fn written(d: model::Dom, i: int, depth: nat) -> Option<Seq<u8>>
    decreases deepest(d) + 1 - depth, 0nat,
{
    let c = d.nodes[i];
    let copied = d.piece(c.span, model::in_arena(c));
    if depth > deepest(d) {
        None
    } else if !c.flags.changed() {
        Some(copied)
    } else if c.kind is Document {
        match written_all(d, d.kids(i), depth + 1) {
            Some(t) => Some(
                (if d.bom {
                    lexer::BOM@
                } else {
                    Seq::empty()
                }) + t,
            ),
            None => None,
        }
    } else if c.kind is Element {
        if model::is_empty_tag(c) {
            Some(head_text(d, i) + seq![47u8, 62u8])
        } else {
            match written_all(d, d.kids(i), depth + 1) {
                Some(t) => Some(head_text(d, i) + seq![62u8] + t + tail_text(d, i)),
                None => None,
            }
        }
    } else {
        Some(copied)
    }
}

/// What is written for nodes, one behind the other.
pub open spec fn written_all(d: model::Dom, s: Seq<int>, depth: nat) -> Option<Seq<u8>>
    decreases deepest(d) + 1 - depth, s.len() + 1,
{
    if s.len() == 0 {
        Some(Seq::empty())
    } else {
        match written_all(d, s.drop_last(), depth) {
            Some(t) => match written(d, s.last(), depth) {
                Some(u) => Some(t + u),
                None => None,
            },
            None => None,
        }
    }
}

pub open spec fn too_deep(d: model::Dom) -> Error {
    Error::Limit(
        LimitError::XmlDepth { got: (deepest(d) + 1) as u64, max: d.limits.max_xml_depth },
    )
}

pub(crate) fn append(out: &mut Vec<u8>, bytes: &[u8])
    ensures
        final(out)@ == old(out)@ + bytes@,
{
    out.extend_from_slice(bytes);
    assert(out@ =~= old(out)@ + bytes@);
}

/// When one of the first nodes lies too deep, so do all of them.
proof fn lemma_written_prefix(d: model::Dom, s: Seq<int>, depth: nat, n: int)
    requires
        0 <= n <= s.len(),
        written_all(d, s.take(n), depth) is None,
    ensures
        written_all(d, s, depth) is None,
    decreases s.len(),
{
    if n < s.len() {
        assert(s.drop_last().take(n) =~= s.take(n));
        lemma_written_prefix(d, s.drop_last(), depth, n);
    } else {
        assert(s.take(n) =~= s);
    }
}

impl Document {
    /// Writes the document. A document that was not changed is written as it
    /// was read.
    pub fn serialize(&self) -> (r: Result<Vec<u8>, Error>)
        requires
            self.wf(),
        ensures
            match r {
                Ok(v) => written(self@, self@.root, 0) == Some(v@),
                Err(e) => written(self@, self@.root, 0) is None && e == too_deep(self@),
            },
    {
        let mut out: Vec<u8> = Vec::new();
        let max: u64 = self.limits.max_xml_depth;
        let bound: u64 = if max <= u64::MAX - 3 {
            max + 2
        } else {
            u64::MAX - 1
        };
        match self.write_node(self.root, &mut out, 0, bound) {
            Ok(_) => {
                proof {
                    let t = written(self@, self@.root, 0)->0;
                    assert(Seq::<u8>::empty() + t =~= t);
                }
                Ok(out)
            },
            Err(e) => Err(e),
        }
    }

    fn write_node(&self, id: NodeId, out: &mut Vec<u8>, depth: u64, bound: u64) -> (r: Result<
        (),
        Error,
    >)
        requires
            self.wf(),
            self@.has_node(id.num()),
            bound == deepest(self@),
            depth <= bound + 1,
        ensures
            match r {
                Ok(_) => written(self@, id.num(), depth as nat) is Some && final(out)@ == old(
                    out,
                )@ + written(self@, id.num(), depth as nat)->0,
                Err(e) => written(self@, id.num(), depth as nat) is None && e == too_deep(self@),
            },
        decreases bound + 1 - depth, 1nat,
    {
        if depth > bound {
            return Err(
                Error::Limit(LimitError::XmlDepth { got: depth, max: self.limits.max_xml_depth }),
            );
        }
        let n: Node = match self.node(id) {
            Ok(n) => n,
            Err(e) => return Err(e),
        };
        proof {
            assert(model::node_ok(self@, id.num()));
        }
        let whole: bool = !n.flags.dirty();
        if whole || !n.kind.may_have_children() {
            append(out, self.bytes(n.span, n.flags.has(8)));
            return Ok(());
        }
        let ghost before = out@;
        if n.kind == NodeKind::Document {
            if self.bom {
                append(out, lexer::BOM.as_slice());
            }
            let ghost mid = out@;
            return match self.write_children(id, n.first_child, out, depth, bound) {
                Ok(_) => {
                    assert(out@ =~= before + written(self@, id.num(), depth as nat)->0);
                    Ok(())
                },
                Err(e) => Err(e),
            };
        }
        let e: ElementData = match self.elem(id) {
            Ok(e) => e,
            Err(e) => return Err(e),
        };
        self.write_head(id, &e, out);
        if n.flags.has(4) {
            out.push(47);
            out.push(62);
            assert(out@ =~= before + written(self@, id.num(), depth as nat)->0);
            return Ok(());
        }
        out.push(62);
        if let Err(x) = self.write_children(id, n.first_child, out, depth, bound) {
            return Err(x);
        }
        let arena: bool = e.flags.has(1);
        out.push(60);
        out.push(47);
        append(out, self.bytes(e.close_qname, arena));
        append(out, self.bytes(e.close_trailing_ws, false));
        out.push(62);
        assert(out@ =~= before + written(self@, id.num(), depth as nat)->0);
        Ok(())
    }

    /// Writes an opening tag up to its `>` or `/>`.
    fn write_head(&self, id: NodeId, e: &ElementData, out: &mut Vec<u8>)
        requires
            self.wf(),
            self@.is_element(id.num()),
            *e == self@.elem(id.num()),
            model::elem_ok(self@, *e),
        ensures
            final(out)@ == old(out)@ + head_text(self@, id.num()),
    {
        out.push(60);
        append(out, self.bytes(e.qname, e.flags.has(1)));
        let list = self.attrs_of(e);
        let ghost start = out@;
        let mut i: usize = 0;
        assert(list@.take(0) =~= Seq::<Attr>::empty());
        assert(start + attrs_text(self@, list@.take(0)) =~= start);
        while i < list.len()
            invariant
                self.wf(),
                i <= list@.len(),
                forall|k: int| 0 <= k < list@.len() ==> model::attr_ok(self@, #[trigger] list@[k]),
                out@ == start + attrs_text(self@, list@.take(i as int)),
            decreases list@.len() - i,
        {
            let a: Attr = list[i];
            assert(model::attr_ok(self@, list@[i as int]));
            self.write_attr(&a, out);
            i = i + 1;
            proof {
                assert(list@.take(i as int).drop_last() =~= list@.take(i - 1));
                assert(out@ =~= start + attrs_text(self@, list@.take(i as int)));
            }
        }
        assert(list@.take(i as int) =~= list@);
        append(out, self.bytes(e.pre_close_ws, false));
        assert(out@ =~= old(out)@ + head_text(self@, id.num()));
    }

    fn write_attr(&self, a: &Attr, out: &mut Vec<u8>)
        requires
            self.wf(),
            model::attr_ok(self@, *a),
        ensures
            final(out)@ == old(out)@ + attr_text(self@, *a),
    {
        let ws: bool = a.flags.has(4);
        append(out, self.bytes(a.pre_ws, ws));
        append(out, self.bytes(a.name, a.flags.has(1)));
        append(out, self.bytes(a.ws_before_eq, ws));
        out.push(61);
        append(out, self.bytes(a.ws_after_eq, ws));
        out.push(a.quote);
        append(out, self.bytes(a.value, a.flags.has(2)));
        out.push(a.quote);
        assert(out@ =~= old(out)@ + attr_text(self@, *a));
    }

    fn write_children(
        &self,
        id: NodeId,
        first: Option<NodeId>,
        out: &mut Vec<u8>,
        depth: u64,
        bound: u64,
    ) -> (r: Result<(), Error>)
        requires
            self.wf(),
            self@.has_node(id.num()),
            arena::num_of(first) == arena::item(self@.kids(id.num()), 0),
            bound == deepest(self@),
            depth <= bound,
        ensures
            match r {
                Ok(_) => written_all(self@, self@.kids(id.num()), (depth + 1) as nat) is Some
                    && final(out)@ == old(out)@ + written_all(
                    self@,
                    self@.kids(id.num()),
                    (depth + 1) as nat,
                )->0,
                Err(e) => written_all(self@, self@.kids(id.num()), (depth + 1) as nat) is None
                    && e == too_deep(self@),
            },
        decreases bound + 1 - depth, 0nat,
    {
        let ghost s = self@.kids(id.num());
        let ghost n = (depth + 1) as nat;
        let ghost mut k: int = 0;
        let mut cur: Option<NodeId> = first;
        assert(s.take(0) =~= Seq::<int>::empty());
        assert(out@ + Seq::<u8>::empty() =~= out@);
        loop
            invariant
                self.wf(),
                self@.has_node(id.num()),
                bound == deepest(self@),
                depth <= bound,
                s == self@.kids(id.num()),
                n == depth + 1,
                0 <= k <= s.len(),
                arena::num_of(cur) == arena::item(s, k),
                written_all(self@, s.take(k), n) is Some,
                out@ == old(out)@ + written_all(self@, s.take(k), n)->0,
            ensures
                k == s.len(),
            decreases s.len() - k,
        {
            let c: NodeId = match cur {
                Some(c) => c,
                None => break,
            };
            proof {
                assert(arena::kid_at(self@.links, id.num(), k));
                assert(s.take(k + 1).drop_last() =~= s.take(k));
                assert(self@.kids(id.num())[k] == c.num());
            }
            if let Err(e) = self.write_node(c, out, depth + 1, bound) {
                proof {
                    lemma_written_prefix(self@, s, n, k + 1);
                }
                return Err(e);
            }
            let node: Node = match self.node(c) {
                Ok(x) => x,
                Err(e) => return Err(e),
            };
            proof {
                assert(out@ =~= old(out)@ + written_all(self@, s.take(k + 1), n)->0);
                k = k + 1;
            }
            cur = node.next;
        }
        assert(s.take(k) =~= s);
        Ok(())
    }
}

/// A document whose root is not changed is written as its source.
pub proof fn lemma_unchanged_written(d: model::Dom)
    requires
        model::wf(d),
        !d.dirty,
        d.nodes[d.root].span == (Span { start: 0, end: d.src.len() as u32 }),
        !model::in_arena(d.nodes[d.root]),
    ensures
        written(d, d.root, 0) == Some(d.src),
{
    assert(model::calm(d, d.root));
    assert(d.src.subrange(0, d.src.len() as int) =~= d.src);
}

} // verus!
