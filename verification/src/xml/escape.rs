//! Writing text into XML.
//!
//! A literal carriage return would come back as a line feed, and a tab, a line
//! feed or a carriage return in an attribute as a space. Character references
//! do not, so these characters are written as references.
use vstd::prelude::*;
use vstd::string::*;

use crate::error::{Error, XmlError};
use crate::text;

verus! {

/// A character that XML 1.0 allows.
pub open spec fn legal(c: char) -> bool {
    let v = c as u32;
    v == 9 || v == 10 || v == 13 || 0x20 <= v <= 0xD7FF || 0xE000 <= v <= 0xFFFD || v >= 0x10000
}

pub open spec fn all_legal(s: Seq<char>) -> bool {
    forall|i: int| 0 <= i < s.len() ==> legal(#[trigger] s[i])
}

/// What is written for a character: in text when there is no `quote`, else in
/// an attribute between such quotes.
pub open spec fn written(c: char, quote: Option<char>) -> Seq<char> {
    if c == '&' {
        "&amp;"@
    } else if c == '<' {
        "&lt;"@
    } else if c == '\r' {
        "&#xD;"@
    } else if quote is None && c == '>' {
        "&gt;"@
    } else if quote is Some && c == '\t' {
        "&#x9;"@
    } else if quote is Some && c == '\n' {
        "&#xA;"@
    } else if quote == Some('"') && c == '"' {
        "&quot;"@
    } else if quote == Some('\'') && c == '\'' {
        "&apos;"@
    } else {
        seq![c]
    }
}

/// What is written for a text.
pub open spec fn escaped(s: Seq<char>, quote: Option<char>) -> Seq<char>
    decreases s.len(),
{
    if s.len() == 0 {
        Seq::empty()
    } else {
        escaped(s.drop_last(), quote) + written(s.last(), quote)
    }
}

/// The place of the first character that is not allowed.
pub open spec fn first_illegal(s: Seq<char>, i: int) -> Option<int>
    decreases s.len() - i,
{
    if !(0 <= i < s.len()) {
        None
    } else if !legal(s[i]) {
        Some(i)
    } else {
        first_illegal(s, i + 1)
    }
}

/// The error for a text with a character that is not allowed, at its place in
/// bytes.
pub open spec fn illegal(s: Seq<char>, i: int) -> Error {
    Error::Xml { kind: XmlError::IllegalChar(s[i] as u32), offset: text::place(s, i) }
}

pub(crate) fn is_legal(c: char) -> (r: bool)
    ensures
        r == legal(c),
{
    let v: u32 = c as u32;
    v == 9 || v == 10 || v == 13 || (0x20 <= v && v <= 0xD7FF) || (0xE000 <= v && v <= 0xFFFD) || v
        >= 0x10000
}

fn push_written(c: char, quote: Option<char>, out: &mut String)
    ensures
        final(out)@ == old(out)@ + written(c, quote),
{
    let attr: bool = match quote {
        Some(_) => true,
        None => false,
    };
    let double: bool = match quote {
        Some(q) => q == '"',
        None => false,
    };
    let single: bool = match quote {
        Some(q) => q == '\'',
        None => false,
    };
    if c == '&' {
        out.append("&amp;");
    } else if c == '<' {
        out.append("&lt;");
    } else if c == '\r' {
        out.append("&#xD;");
    } else if !attr && c == '>' {
        out.append("&gt;");
    } else if attr && c == '\t' {
        out.append("&#x9;");
    } else if attr && c == '\n' {
        out.append("&#xA;");
    } else if double && c == '"' {
        out.append("&quot;");
    } else if single && c == '\'' {
        out.append("&apos;");
    } else {
        out.push(c);
        assert(out@ =~= old(out)@ + seq![c]);
    }
}

/// Writes a value as text, when there is no `quote`, or as the value of an
/// attribute between such quotes.
pub fn escape(value: &str, quote: Option<char>) -> (r: Result<String, Error>)
    ensures
        match r {
            Ok(t) => all_legal(value@) && t@ == escaped(value@, quote),
            Err(e) => match first_illegal(value@, 0) {
                Some(i) => e == illegal(value@, i),
                None => false,
            },
        },
{
    let cs = text::chars_of(value);
    let mut out: String = String::new();
    let mut pos: u32 = 0;
    let mut i: usize = 0;
    assert(cs@.take(0) =~= Seq::<char>::empty());
    assert(out@ =~= escaped(cs@.take(0), quote));
    while i < cs.len()
        invariant
            i <= cs@.len(),
            out@ == escaped(cs@.take(i as int), quote),
            pos == text::place(cs@, i as int),
            all_legal(cs@.take(i as int)),
            first_illegal(cs@, i as int) == first_illegal(cs@, 0),
            cs@ == value@,
        decreases cs@.len() - i,
    {
        let c: char = cs[i];
        if !is_legal(c) {
            return Err(Error::Xml { kind: XmlError::IllegalChar(c as u32), offset: pos });
        }
        push_written(c, quote, &mut out);
        proof {
            let t = cs@.take(i + 1);
            assert(t.drop_last() =~= cs@.take(i as int));
            assert forall|k: int| 0 <= k < t.len() implies legal(#[trigger] t[k]) by {
                if k < i {
                    assert(cs@.take(i as int)[k] == t[k]);
                }
            }
        }
        pos = text::place_after(cs.as_slice(), i, pos);
        i = i + 1;
    }
    assert(cs@.take(i as int) =~= cs@);
    Ok(out)
}

/// A text without illegal characters has no first one.
pub proof fn lemma_all_legal(s: Seq<char>, i: int)
    requires
        0 <= i,
        all_legal(s),
    ensures
        first_illegal(s, i) is None,
    decreases s.len() - i,
{
    if i < s.len() {
        assert(legal(s[i]));
        lemma_all_legal(s, i + 1);
    }
}

pub proof fn lemma_escaped_concat(a: Seq<char>, b: Seq<char>, quote: Option<char>)
    ensures
        escaped(a + b, quote) == escaped(a, quote) + escaped(b, quote),
    decreases b.len(),
{
    if b.len() == 0 {
        assert(a + b =~= a);
        assert(escaped(a, quote) + escaped(b, quote) =~= escaped(a, quote));
    } else {
        assert((a + b).drop_last() =~= a + b.drop_last());
        lemma_escaped_concat(a, b.drop_last(), quote);
        assert(escaped(a + b, quote) =~= escaped(a, quote) + escaped(b, quote));
    }
}

} // verus!
