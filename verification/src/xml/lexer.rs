//! The pieces of an XML part.
//!
//! Every byte of a part belongs to one piece: nothing is left out as not
//! significant.
use vstd::prelude::*;
use vstd::slice::slice_subrange;

use crate::bytes::span::Span;
use crate::error::{Error, LimitError, XmlError};
use crate::limits::Limits;
use crate::xml::name;

verus! {

/// The byte order mark of UTF-8.
pub const BOM: [u8; 3] = [0xEF, 0xBB, 0xBF];

/// `<!--`
pub const COMMENT_OPEN: [u8; 4] = [60, 33, 45, 45];

/// `-->`
pub const COMMENT_CLOSE: [u8; 3] = [45, 45, 62];

/// `<![CDATA[`
pub const CDATA_OPEN: [u8; 9] = [60, 33, 91, 67, 68, 65, 84, 65, 91];

/// `]]>`
pub const CDATA_CLOSE: [u8; 3] = [93, 93, 62];

/// `<!DOCTYPE`
pub const DOCTYPE_OPEN: [u8; 9] = [60, 33, 68, 79, 67, 84, 89, 80, 69];

/// `<?xml`
pub const DECL_OPEN: [u8; 5] = [60, 63, 120, 109, 108];

/// `?>`
pub const PI_CLOSE: [u8; 2] = [63, 62];

/// An attribute as it stands in a tag.
#[derive(Debug, Clone, Copy, PartialEq, Eq, Structural)]
pub struct RawAttr {
    /// The white space before the name.
    pub pre_ws: Span,
    pub name: Span,
    pub ws_before_eq: Span,
    pub ws_after_eq: Span,
    /// The value without its quotes, with its references as they stand.
    pub value: Span,
    pub quote: u8,
}

/// A piece.
#[derive(Debug)]
pub enum Piece {
    /// `<?xml ... ?>`
    Decl(Span),
    Pi(Span),
    Comment(Span),
    CData(Span),
    Text(Span),
    Start(StartTag),
    End(EndTag),
}

/// An opening tag, or one that opens and closes an element.
#[derive(Debug)]
pub struct StartTag {
    pub span: Span,
    pub name: Span,
    pub attrs: Vec<RawAttr>,
    /// The white space before `>` or `/>`.
    pub pre_close_ws: Span,
    /// The tag ends with `/>`.
    pub empty: bool,
}

/// A closing tag.
#[derive(Debug, Clone, Copy, PartialEq, Eq, Structural)]
pub struct EndTag {
    pub span: Span,
    pub name: Span,
    pub trailing_ws: Span,
}

/// An opening tag, its attributes as a sequence.
pub struct Open {
    pub span: Span,
    pub name: Span,
    pub attrs: Seq<RawAttr>,
    pub pre_close_ws: Span,
    pub empty: bool,
}

/// A piece, its attributes as a sequence.
pub enum Part {
    Decl(Span),
    Pi(Span),
    Comment(Span),
    CData(Span),
    Text(Span),
    Start(Open),
    End(EndTag),
}

impl StartTag {
    pub open spec fn view(&self) -> Open {
        Open {
            span: self.span,
            name: self.name,
            attrs: self.attrs@,
            pre_close_ws: self.pre_close_ws,
            empty: self.empty,
        }
    }
}

impl Piece {
    pub open spec fn view(&self) -> Part {
        match self {
            Piece::Decl(s) => Part::Decl(*s),
            Piece::Pi(s) => Part::Pi(*s),
            Piece::Comment(s) => Part::Comment(*s),
            Piece::CData(s) => Part::CData(*s),
            Piece::Text(s) => Part::Text(*s),
            Piece::Start(t) => Part::Start(t@),
            Piece::End(t) => Part::End(*t),
        }
    }
}

/// The span from `a` to `b`.
pub open spec fn sp(a: int, b: int) -> Span {
    Span { start: a as u32, end: b as u32 }
}

/// The bytes of a span.
pub open spec fn cut(s: Seq<u8>, x: Span) -> Seq<u8> {
    s.subrange(x.start as int, x.end as int)
}

pub open spec fn fault<T>(kind: XmlError, pos: int) -> Result<T, Error> {
    Err(Error::Xml { kind, offset: pos as u32 })
}

/// The error for a byte that cannot stand at `i`, or for the end.
pub open spec fn unexpected<T>(s: Seq<u8>, i: int) -> Result<T, Error> {
    if i < s.len() {
        fault(XmlError::UnexpectedByte(s[i]), i)
    } else {
        fault(XmlError::UnexpectedEof, i)
    }
}

/// The name at `i`, where one has to stand: its end.
pub open spec fn name_at(s: Seq<u8>, i: int, limits: Limits) -> Result<int, Error> {
    let e = name::name_end(s, i);
    if e == i {
        unexpected(s, i)
    } else if !name::qname_ok(s.subrange(i, e)) {
        fault(XmlError::BadName, i)
    } else if e - i > limits.max_name_bytes {
        Err(
            Error::Limit(
                LimitError::NameTooLong { got: (e - i) as u64, max: limits.max_name_bytes },
            ),
        )
    } else {
        Ok(e)
    }
}

/// The attribute at `i`, and its end.
pub open spec fn attr_at(s: Seq<u8>, i: int, limits: Limits) -> Result<(RawAttr, int), Error> {
    let from = name::space_end(s, i);
    if from == i {
        unexpected(s, i)
    } else {
        match name_at(s, from, limits) {
            Err(e) => Err(e),
            Ok(to) => {
                let eq = name::space_end(s, to);
                if name::at(s, eq) != Some(61u8) {
                    unexpected(s, eq)
                } else {
                    let q = name::space_end(s, eq + 1);
                    if q >= s.len() {
                        fault(XmlError::UnexpectedEof, q)
                    } else if s[q] != 34 && s[q] != 39 {
                        fault(XmlError::UnquotedAttribute, q)
                    } else {
                        match name::find(s, q + 1, s[q]) {
                            None => fault(XmlError::UnexpectedEof, q),
                            Some(k) => match name::find(s.subrange(q + 1, k), 0, 60) {
                                Some(j) => fault(XmlError::UnexpectedByte(60), q + 1 + j),
                                None => Ok(
                                    (
                                        RawAttr {
                                            pre_ws: sp(i, from),
                                            name: sp(from, to),
                                            ws_before_eq: sp(to, eq),
                                            ws_after_eq: sp(eq + 1, q),
                                            value: sp(q + 1, k),
                                            quote: s[q],
                                        },
                                        k + 1,
                                    ),
                                ),
                            },
                        }
                    }
                }
            },
        }
    }
}

/// Whether one of the attributes has the name.
pub open spec fn named(s: Seq<u8>, attrs: Seq<RawAttr>, n: Seq<u8>) -> bool {
    exists|i: int| 0 <= i < attrs.len() && cut(s, #[trigger] attrs[i].name) == n
}

/// The rest of an opening tag from `i` on, behind its name and `attrs`.
pub open spec fn tag_at(
    s: Seq<u8>,
    p: int,
    name: Span,
    attrs: Seq<RawAttr>,
    i: int,
    limits: Limits,
) -> Result<(Open, int), Error>
    decreases s.len() - i,
{
    let e = name::space_end(s, i);
    if name::at(s, e) == Some(62u8) {
        Ok((Open { span: sp(p, e + 1), name, attrs, pre_close_ws: sp(i, e), empty: false }, e + 1))
    } else if name::at(s, e) == Some(47u8) && name::at(s, e + 1) == Some(62u8) {
        Ok((Open { span: sp(p, e + 2), name, attrs, pre_close_ws: sp(i, e), empty: true }, e + 2))
    } else {
        match attr_at(s, i, limits) {
            Err(x) => Err(x),
            Ok((a, k)) => if named(s, attrs, cut(s, a.name)) {
                fault(XmlError::DuplicateAttribute, a.name.start as int)
            } else if attrs.len() + 1 > limits.max_attrs_per_element {
                Err(
                    Error::Limit(
                        LimitError::TooManyAttrs {
                            got: (attrs.len() + 1) as u64,
                            max: limits.max_attrs_per_element,
                        },
                    ),
                )
            } else if i < k <= s.len() {
                tag_at(s, p, name, attrs.push(a), k, limits)
            } else {
                arbitrary()
            },
        }
    }
}

/// The opening tag at `p`.
pub open spec fn start_at(s: Seq<u8>, p: int, limits: Limits) -> Result<(Open, int), Error> {
    match name_at(s, p + 1, limits) {
        Err(e) => Err(e),
        Ok(e) => tag_at(s, p, sp(p + 1, e), Seq::empty(), e, limits),
    }
}

/// The closing tag at `p`.
pub open spec fn end_at(s: Seq<u8>, p: int, limits: Limits) -> Result<(EndTag, int), Error> {
    match name_at(s, p + 2, limits) {
        Err(e) => Err(e),
        Ok(e) => {
            let k = name::space_end(s, e);
            if name::at(s, k) == Some(62u8) {
                Ok(
                    (
                        EndTag { span: sp(p, k + 1), name: sp(p + 2, e), trailing_ws: sp(e, k) },
                        k + 1,
                    ),
                )
            } else {
                unexpected(s, k)
            }
        },
    }
}

/// What ends with `close`, from `p` on; its opening takes `w` bytes.
pub open spec fn enclosed_at(s: Seq<u8>, p: int, w: int, close: Seq<u8>) -> Result<int, Error> {
    match name::find_text(s, p + w, close) {
        Some(k) => Ok(k + close.len()),
        None => fault(XmlError::UnexpectedEof, p),
    }
}

/// What begins with `<!` or `<?` at `p`.
pub open spec fn special_at(s: Seq<u8>, p: int, first: bool, limits: Limits) -> Result<
    (Part, int),
    Error,
> {
    if name::stands(s, p, COMMENT_OPEN@) {
        match enclosed_at(s, p, 4, COMMENT_CLOSE@) {
            Ok(e) => Ok((Part::Comment(sp(p, e)), e)),
            Err(x) => Err(x),
        }
    } else if name::stands(s, p, CDATA_OPEN@) {
        match enclosed_at(s, p, 9, CDATA_CLOSE@) {
            Ok(e) => Ok((Part::CData(sp(p, e)), e)),
            Err(x) => Err(x),
        }
    } else if name::stands(s, p, DOCTYPE_OPEN@) {
        if limits.allow_doctype {
            Err(Error::Unsupported("xml: DOCTYPE"))
        } else {
            fault(XmlError::DoctypeForbidden, p)
        }
    } else if name::at(s, p + 1) == Some(63u8) {
        let decl = name::stands(s, p, DECL_OPEN@) && p + 5 < s.len() && name::space(s[p + 5]);
        if decl && !first {
            fault(XmlError::UnexpectedByte(63), p + 1)
        } else {
            match enclosed_at(s, p, 2, PI_CLOSE@) {
                Ok(e) => if decl {
                    Ok((Part::Decl(sp(p, e)), e))
                } else {
                    Ok((Part::Pi(sp(p, e)), e))
                },
                Err(x) => Err(x),
            }
        }
    } else {
        unexpected(s, p + 1)
    }
}

/// The piece at `p`, and its end. `first`: nothing but a byte order mark stands
/// before it.
pub open spec fn piece_at(s: Seq<u8>, p: int, first: bool, limits: Limits) -> Result<
    (Part, int),
    Error,
> {
    if s[p] != 60 {
        let e = match name::find(s, p, 60) {
            Some(k) => k,
            None => s.len() as int,
        };
        Ok((Part::Text(sp(p, e)), e))
    } else if name::at(s, p + 1) == Some(33u8) || name::at(s, p + 1) == Some(63u8) {
        special_at(s, p, first, limits)
    } else if name::at(s, p + 1) == Some(47u8) {
        match end_at(s, p, limits) {
            Ok((t, e)) => Ok((Part::End(t), e)),
            Err(x) => Err(x),
        }
    } else {
        match start_at(s, p, limits) {
            Ok((t, e)) => Ok((Part::Start(t), e)),
            Err(x) => Err(x),
        }
    }
}

pub(crate) fn fail(kind: XmlError, pos: usize) -> (r: Error)
    requires
        pos <= u32::MAX,
    ensures
        r == (Error::Xml { kind, offset: pos as u32 }),
{
    Error::Xml { kind, offset: pos as u32 }
}

fn stray(s: &[u8], i: usize) -> (r: Error)
    requires
        i <= u32::MAX,
    ensures
        Err::<int, Error>(r) == unexpected::<int>(s@, i as int),
{
    if i < s.len() {
        fail(XmlError::UnexpectedByte(s[i]), i)
    } else {
        fail(XmlError::UnexpectedEof, i)
    }
}

fn span(a: usize, b: usize) -> (r: Span)
    requires
        a <= u32::MAX,
        b <= u32::MAX,
    ensures
        r == sp(a as int, b as int),
{
    Span { start: a as u32, end: b as u32 }
}

fn is_at(s: &[u8], i: usize, b: u8) -> (r: bool)
    ensures
        r == (name::at(s@, i as int) == Some(b)),
{
    i < s.len() && s[i] == b
}

fn scan_name(s: &[u8], i: usize, limits: &Limits) -> (r: Result<usize, Error>)
    requires
        i <= s@.len() <= u32::MAX,
    ensures
        match r {
            Ok(e) => name_at(s@, i as int, *limits) == Ok::<int, Error>(e as int) && i < e
                <= s@.len(),
            Err(x) => name_at(s@, i as int, *limits) == Err::<int, Error>(x),
        },
{
    let e: usize = name::skip_name(s, i);
    if e == i {
        return Err(stray(s, i));
    }
    if !name::is_qname(slice_subrange(s, i, e)) {
        return Err(fail(XmlError::BadName, i));
    }
    match limits.check_name_len((e - i) as u64) {
        Ok(_) => Ok(e),
        Err(x) => Err(x),
    }
}

fn scan_attr(s: &[u8], i: usize, limits: &Limits) -> (r: Result<(RawAttr, usize), Error>)
    requires
        i <= s@.len() <= u32::MAX,
    ensures
        match r {
            Ok((a, e)) => attr_at(s@, i as int, *limits) == Ok::<(RawAttr, int), Error>(
                (a, e as int),
            ) && i < e <= s@.len() && a.name.within(s@.len()),
            Err(x) => attr_at(s@, i as int, *limits) == Err::<(RawAttr, int), Error>(x),
        },
{
    let from: usize = name::skip_space(s, i);
    if from == i {
        return Err(stray(s, i));
    }
    let to: usize = match scan_name(s, from, limits) {
        Ok(e) => e,
        Err(x) => return Err(x),
    };
    let eq: usize = name::skip_space(s, to);
    if !is_at(s, eq, 61) {
        return Err(stray(s, eq));
    }
    let q: usize = name::skip_space(s, eq + 1);
    if q >= s.len() {
        return Err(fail(XmlError::UnexpectedEof, q));
    }
    let quote: u8 = s[q];
    if quote != 34 && quote != 39 {
        return Err(fail(XmlError::UnquotedAttribute, q));
    }
    let k: usize = match name::position(s, q + 1, quote) {
        Some(k) => k,
        None => return Err(fail(XmlError::UnexpectedEof, q)),
    };
    if let Some(j) = name::position(slice_subrange(s, q + 1, k), 0, 60) {
        return Err(fail(XmlError::UnexpectedByte(60), q + 1 + j));
    }
    Ok(
        (
            RawAttr {
                pre_ws: span(i, from),
                name: span(from, to),
                ws_before_eq: span(to, eq),
                ws_after_eq: span(eq + 1, q),
                value: span(q + 1, k),
                quote,
            },
            k + 1,
        ),
    )
}

fn has_named(s: &[u8], attrs: &Vec<RawAttr>, n: Span) -> (r: bool)
    requires
        n.within(s@.len()),
        forall|i: int| 0 <= i < attrs@.len() ==> (#[trigger] attrs@[i]).name.within(s@.len()),
    ensures
        r == named(s@, attrs@, cut(s@, n)),
{
    let want = slice_subrange(s, n.start as usize, n.end as usize);
    let mut i: usize = 0;
    while i < attrs.len()
        invariant
            i <= attrs@.len(),
            n.within(s@.len()),
            want@ == cut(s@, n),
            forall|k: int| 0 <= k < attrs@.len() ==> (#[trigger] attrs@[k]).name.within(s@.len()),
            forall|k: int| 0 <= k < i ==> cut(s@, #[trigger] attrs@[k].name) != cut(s@, n),
        decreases attrs@.len() - i,
    {
        let a: Span = attrs[i].name;
        assert(attrs@[i as int].name.within(s@.len()));
        if name::same(slice_subrange(s, a.start as usize, a.end as usize), want) {
            assert(cut(s@, attrs@[i as int].name) == cut(s@, n));
            return true;
        }
        i = i + 1;
    }
    false
}

fn scan_start(s: &[u8], p: usize, limits: &Limits) -> (r: Result<(StartTag, usize), Error>)
    requires
        p < s@.len() <= u32::MAX,
    ensures
        match r {
            Ok((t, e)) => start_at(s@, p as int, *limits) == Ok::<(Open, int), Error>(
                (t@, e as int),
            ) && p < e <= s@.len(),
            Err(x) => start_at(s@, p as int, *limits) == Err::<(Open, int), Error>(x),
        },
{
    let to: usize = match scan_name(s, p + 1, limits) {
        Ok(e) => e,
        Err(x) => return Err(x),
    };
    let name: Span = span(p + 1, to);
    let mut attrs: Vec<RawAttr> = Vec::new();
    let mut i: usize = to;
    let ghost whole = start_at(s@, p as int, *limits);
    loop
        invariant
            p < i <= s@.len() <= u32::MAX,
            whole == tag_at(s@, p as int, name, attrs@, i as int, *limits),
            whole == start_at(s@, p as int, *limits),
            attrs@.len() <= i,
            forall|k: int| 0 <= k < attrs@.len() ==> (#[trigger] attrs@[k]).name.within(s@.len()),
        decreases s@.len() - i,
    {
        let e: usize = name::skip_space(s, i);
        if is_at(s, e, 62) {
            let t = StartTag {
                span: span(p, e + 1),
                name,
                attrs,
                pre_close_ws: span(i, e),
                empty: false,
            };
            return Ok((t, e + 1));
        }
        if is_at(s, e, 47) && e + 1 < s.len() && s[e + 1] == 62 {
            let t = StartTag {
                span: span(p, e + 2),
                name,
                attrs,
                pre_close_ws: span(i, e),
                empty: true,
            };
            return Ok((t, e + 2));
        }
        let (a, k): (RawAttr, usize) = match scan_attr(s, i, limits) {
            Ok(x) => x,
            Err(x) => return Err(x),
        };
        if has_named(s, &attrs, a.name) {
            return Err(fail(XmlError::DuplicateAttribute, a.name.start as usize));
        }
        if let Err(x) = limits.check_attrs(attrs.len() as u64 + 1) {
            return Err(x);
        }
        attrs.push(a);
        i = k;
    }
}

fn scan_end(s: &[u8], p: usize, limits: &Limits) -> (r: Result<(EndTag, usize), Error>)
    requires
        p + 2 <= s@.len() <= u32::MAX,
    ensures
        match r {
            Ok((t, e)) => end_at(s@, p as int, *limits) == Ok::<(EndTag, int), Error>((t, e as int))
                && p < e <= s@.len(),
            Err(x) => end_at(s@, p as int, *limits) == Err::<(EndTag, int), Error>(x),
        },
{
    let to: usize = match scan_name(s, p + 2, limits) {
        Ok(e) => e,
        Err(x) => return Err(x),
    };
    let k: usize = name::skip_space(s, to);
    if !is_at(s, k, 62) {
        return Err(stray(s, k));
    }
    Ok((EndTag { span: span(p, k + 1), name: span(p + 2, to), trailing_ws: span(to, k) }, k + 1))
}

fn scan_enclosed(s: &[u8], p: usize, w: usize, close: &[u8]) -> (r: Result<usize, Error>)
    requires
        p + w <= s@.len() <= u32::MAX,
        w > 0,
    ensures
        match r {
            Ok(e) => enclosed_at(s@, p as int, w as int, close@) == Ok::<int, Error>(e as int) && p
                < e <= s@.len(),
            Err(x) => enclosed_at(s@, p as int, w as int, close@) == Err::<int, Error>(x),
        },
{
    match name::text_position(s, p + w, close) {
        Some(k) => Ok(k + close.len()),
        None => Err(fail(XmlError::UnexpectedEof, p)),
    }
}

fn scan_special(s: &[u8], p: usize, first: bool, limits: &Limits) -> (r: Result<
    (Piece, usize),
    Error,
>)
    requires
        p < s@.len() <= u32::MAX,
    ensures
        match r {
            Ok((t, e)) => special_at(s@, p as int, first, *limits) == Ok::<(Part, int), Error>(
                (t@, e as int),
            ) && p < e <= s@.len(),
            Err(x) => special_at(s@, p as int, first, *limits) == Err::<(Part, int), Error>(x),
        },
{
    if name::text_at(s, p, COMMENT_OPEN.as_slice()) {
        return match scan_enclosed(s, p, 4, COMMENT_CLOSE.as_slice()) {
            Ok(e) => Ok((Piece::Comment(span(p, e)), e)),
            Err(x) => Err(x),
        };
    }
    if name::text_at(s, p, CDATA_OPEN.as_slice()) {
        return match scan_enclosed(s, p, 9, CDATA_CLOSE.as_slice()) {
            Ok(e) => Ok((Piece::CData(span(p, e)), e)),
            Err(x) => Err(x),
        };
    }
    if name::text_at(s, p, DOCTYPE_OPEN.as_slice()) {
        if limits.allow_doctype {
            return Err(Error::Unsupported("xml: DOCTYPE"));
        }
        return Err(fail(XmlError::DoctypeForbidden, p));
    }
    if !is_at(s, p + 1, 63) {
        return Err(stray(s, p + 1));
    }
    let decl: bool = name::text_at(s, p, DECL_OPEN.as_slice()) && p + 5 < s.len() && name::is_space(
        s[p + 5],
    );
    if decl && !first {
        return Err(fail(XmlError::UnexpectedByte(63), p + 1));
    }
    match scan_enclosed(s, p, 2, PI_CLOSE.as_slice()) {
        Ok(e) => {
            if decl {
                Ok((Piece::Decl(span(p, e)), e))
            } else {
                Ok((Piece::Pi(span(p, e)), e))
            }
        },
        Err(x) => Err(x),
    }
}

/// Reads the piece at `p`. Returns it with the place behind it.
pub fn scan_piece(s: &[u8], p: usize, first: bool, limits: &Limits) -> (r: Result<
    (Piece, usize),
    Error,
>)
    requires
        p < s@.len() <= u32::MAX,
    ensures
        match r {
            Ok((t, e)) => piece_at(s@, p as int, first, *limits) == Ok::<(Part, int), Error>(
                (t@, e as int),
            ) && p < e <= s@.len(),
            Err(x) => piece_at(s@, p as int, first, *limits) == Err::<(Part, int), Error>(x),
        },
{
    let n: usize = s.len();
    if s[p] != 60 {
        proof {
            name::lemma_find(s@, p as int, 60);
        }
        let e: usize = match name::position(s, p, 60) {
            Some(k) => k,
            None => n,
        };
        return Ok((Piece::Text(span(p, e)), e));
    }
    if is_at(s, p + 1, 33) || is_at(s, p + 1, 63) {
        return scan_special(s, p, first, limits);
    }
    if is_at(s, p + 1, 47) {
        return match scan_end(s, p, limits) {
            Ok((t, e)) => Ok((Piece::End(t), e)),
            Err(x) => Err(x),
        };
    }
    match scan_start(s, p, limits) {
        Ok((t, e)) => Ok((Piece::Start(t), e)),
        Err(x) => Err(x),
    }
}

} // verus!
