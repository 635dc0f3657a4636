//! What is known of an element and of an attribute.
//!
//! White space around `=`, before `>` and behind the name of a closing tag
//! cannot be told from what a tag means, so each has a span of its own.
use vstd::prelude::*;

use crate::bytes::span::Span;
use crate::dom::arena;

verus! {

/// The marks of an element.
#[derive(Debug, Clone, Copy, PartialEq, Eq, Structural)]
pub struct ElemFlags {
    pub marks: u8,
}

impl Default for ElemFlags {
    fn default() -> (r: Self)
        ensures
            r.marks == 0,
    {
        ElemFlags { marks: 0 }
    }
}

impl ElemFlags {
    /// The names of both tags are new bytes.
    pub const QNAME_IN_ARENA: u8 = 1;

    #[must_use]
    pub fn has(self, bit: u8) -> (r: bool)
        ensures
            r == arena::has(self.marks, bit),
    {
        self.marks & bit != 0
    }

    pub fn set(&mut self, bit: u8)
        ensures
            final(self).marks == old(self).marks | bit,
    {
        self.marks = self.marks | bit;
    }
}

/// An element.
#[derive(Debug, Clone, Copy)]
pub struct ElementData {
    /// The name as it is written, with its prefix.
    pub qname: Span,
    /// The name without its prefix.
    pub local: Span,
    /// The white space before `>` or `/>`.
    pub pre_close_ws: Span,
    /// The name in the closing tag.
    pub close_qname: Span,
    /// The white space behind that name.
    pub close_trailing_ws: Span,
    /// The first of the attributes.
    pub attrs_from: u32,
    /// The number of the attributes.
    pub attrs_len: u32,
    /// The namespace, or [`ElementData::NO_NS`].
    pub ns_uri: u32,
    pub flags: ElemFlags,
}

impl ElementData {
    /// The element is in no namespace.
    pub const NO_NS: u32 = u32::MAX;

    /// Where the opening tag ends: `>` or `/>` follows the white space.
    pub open spec fn opened_at(self, empty: bool) -> int {
        self.pre_close_ws.end + if empty {
            2int
        } else {
            1
        }
    }

    /// Where the closing tag begins: `</` stands before the name.
    pub open spec fn closed_at(self) -> int {
        self.close_qname.start - 2
    }

    /// Where the opening tag ends.
    pub(crate) fn open_end(&self, empty: bool) -> (r: u32)
        ensures
            self.opened_at(empty) <= u32::MAX ==> r == self.opened_at(empty),
            self.opened_at(empty) > u32::MAX ==> r == u32::MAX,
    {
        let tail: u32 = if empty {
            2
        } else {
            1
        };
        self.pre_close_ws.end.saturating_add(tail)
    }

    /// Where the closing tag begins.
    pub(crate) fn close_start(&self) -> (r: u32)
        ensures
            self.closed_at() >= 0 ==> r == self.closed_at(),
            self.closed_at() < 0 ==> r == 0,
    {
        self.close_qname.start.saturating_sub(2)
    }
}

/// The marks of an attribute.
#[derive(Debug, Clone, Copy, PartialEq, Eq, Structural)]
pub struct AttrFlags {
    pub marks: u8,
}

impl Default for AttrFlags {
    fn default() -> (r: Self)
        ensures
            r.marks == 0,
    {
        AttrFlags { marks: 0 }
    }
}

impl AttrFlags {
    /// The name is new bytes.
    pub const NAME_IN_ARENA: u8 = 1;

    /// The value is new bytes: it was written and not read.
    pub const VALUE_IN_ARENA: u8 = 2;

    /// The white space is new bytes.
    pub const WS_IN_ARENA: u8 = 4;

    #[must_use]
    pub fn has(self, bit: u8) -> (r: bool)
        ensures
            r == arena::has(self.marks, bit),
    {
        self.marks & bit != 0
    }

    pub fn set(&mut self, bit: u8)
        ensures
            final(self).marks == old(self).marks | bit,
    {
        self.marks = self.marks | bit;
    }
}

/// An attribute as it is written.
#[derive(Debug, Clone, Copy)]
pub struct Attr {
    /// The white space before the name.
    pub pre_ws: Span,
    /// The name with its prefix.
    pub name: Span,
    pub ws_before_eq: Span,
    pub ws_after_eq: Span,
    /// The value without its quotes, with its references as they stand.
    pub value: Span,
    pub quote: u8,
    pub flags: AttrFlags,
}

impl Attr {
    #[must_use]
    pub fn quote(&self) -> (r: u8)
        ensures
            r == self.quote,
    {
        self.quote
    }

    #[must_use]
    pub fn name_span(&self) -> (r: Span)
        ensures
            r == self.name,
    {
        self.name
    }

    #[must_use]
    pub fn value_span(&self) -> (r: Span)
        ensures
            r == self.value,
    {
        self.value
    }

    /// Whether the value was written and not read.
    #[must_use]
    pub fn is_edited(&self) -> (r: bool)
        ensures
            r == arena::has(self.flags.marks, AttrFlags::VALUE_IN_ARENA),
    {
        self.flags.has(2)
    }
}

} // verus!
