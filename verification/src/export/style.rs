//! The styles of cells as classes of CSS.
//!
//! There is a class for every style and not a style on every cell: there are
//! few styles and many cells.
use vstd::prelude::*;
use vstd::string::*;

use crate::export::model::{
    Alignment, Appearance, BorderStyle, Borders, Edge, Font, HAlign, Look, VAlign,
};
use crate::text;

verus! {

/// A text where it is wanted, else nothing.
pub open spec fn when(b: bool, t: Seq<char>) -> Seq<char> {
    if b {
        t
    } else {
        Seq::empty()
    }
}

/// A character that can stand in a quoted name of CSS on a page: no quote, none
/// that opens a tag, none that escapes, and no end of a line.
pub open spec fn harmless(c: char) -> bool {
    c != '\'' && c != '<' && c != '\\' && c != '\n' && c != '\r' && c != '\u{c}'
}

/// A name without the characters that could end it.
pub open spec fn tamed(s: Seq<char>) -> Seq<char>
    decreases s.len(),
{
    if s.len() == 0 {
        Seq::empty()
    } else if harmless(s.last()) {
        tamed(s.drop_last()).push(s.last())
    } else {
        tamed(s.drop_last())
    }
}

/// A hexadecimal digit.
pub open spec fn hex(d: nat) -> char {
    if d < 10 {
        (48 + d) as char
    } else {
        (87 + d) as char
    }
}

/// A colour as CSS has it. Of the number the lower three bytes count: red, green
/// and blue.
pub open spec fn css_color(c: u32) -> Seq<char> {
    seq![
        '#',
        hex((c / 0x10_0000 % 16) as nat),
        hex((c / 0x1_0000 % 16) as nat),
        hex((c / 0x1000 % 16) as nat),
        hex((c / 0x100 % 16) as nat),
        hex((c / 0x10 % 16) as nat),
        hex((c % 16) as nat),
    ]
}

/// A line of a border as CSS has it, when there is one.
pub open spec fn css_line(s: BorderStyle) -> Option<Seq<char>> {
    match s {
        BorderStyle::Absent => None,
        BorderStyle::Hair => Some("1px solid"@),
        BorderStyle::Thin => Some("1px solid"@),
        BorderStyle::Medium => Some("2px solid"@),
        BorderStyle::Thick => Some("3px solid"@),
        BorderStyle::Double => Some("3px double"@),
        BorderStyle::Dashed => Some("1px dashed"@),
        BorderStyle::Dotted => Some("1px dotted"@),
    }
}

pub open spec fn size_text(size: Option<u32>) -> Seq<char> {
    match size {
        Some(px) => "font-size:"@ + text::decimal(px as nat) + "px;"@,
        None => Seq::empty(),
    }
}

pub open spec fn family_text(name: Option<String>) -> Seq<char> {
    match name {
        Some(n) => "font-family:'"@ + tamed(n@) + "',sans-serif;"@,
        None => Seq::empty(),
    }
}

pub open spec fn color_text(name: Seq<char>, color: Option<u32>) -> Seq<char> {
    match color {
        Some(c) => name + css_color(c) + ";"@,
        None => Seq::empty(),
    }
}

/// The lines under and through a text.
pub open spec fn lines_text(f: Font) -> Seq<char> {
    when(
        f.underline || f.strike,
        "text-decoration:"@ + when(f.underline, "underline "@) + when(f.strike, "line-through"@)
            + ";"@,
    )
}

/// The declarations of a font.
pub open spec fn font_text(f: Font) -> Seq<char> {
    when(f.bold, "font-weight:700;"@) + when(f.italic, "font-style:italic;"@) + lines_text(f)
        + size_text(f.size) + family_text(f.name) + color_text("color:"@, f.color)
}

/// The declaration of one side of a border.
pub open spec fn edge_text(name: Seq<char>, e: Edge) -> Seq<char> {
    match css_line(e.line) {
        Some(l) => "border-"@ + name + ":"@ + l + " "@ + (match e.color {
            Some(c) => css_color(c),
            None => "currentColor"@,
        }) + ";"@,
        None => Seq::empty(),
    }
}

/// The declarations of a border.
pub open spec fn borders_text(b: Borders) -> Seq<char> {
    edge_text("left"@, b.left) + edge_text("right"@, b.right) + edge_text("top"@, b.top)
        + edge_text("bottom"@, b.bottom)
}

/// The declarations of how text stands. That text goes on in the next line is
/// a class of the cell itself.
pub open spec fn alignment_text(a: Alignment) -> Seq<char> {
    (match a.h {
        HAlign::Left => "text-align:left;"@,
        HAlign::Center => "text-align:center;"@,
        HAlign::Right => "text-align:right;"@,
        HAlign::Justify => "text-align:justify;"@,
        HAlign::General => Seq::empty(),
    }) + (match a.v {
        VAlign::Top => "vertical-align:top;"@,
        VAlign::Center => "vertical-align:middle;"@,
        VAlign::Bottom => "vertical-align:bottom;"@,
    })
}

pub open spec fn some_font_text(f: Option<Font>) -> Seq<char> {
    match f {
        Some(f) => font_text(f),
        None => Seq::empty(),
    }
}

pub open spec fn some_borders_text(b: Option<Borders>) -> Seq<char> {
    match b {
        Some(b) => borders_text(b),
        None => Seq::empty(),
    }
}

pub open spec fn some_alignment_text(a: Option<Alignment>) -> Seq<char> {
    match a {
        Some(a) => alignment_text(a),
        None => Seq::empty(),
    }
}

/// The declarations of a style.
pub open spec fn look_text(l: Look) -> Seq<char> {
    some_font_text(l.font) + color_text("background:"@, l.fill) + some_borders_text(l.borders)
        + some_alignment_text(l.alignment)
}

/// The class of the style with an index, when there is anything to declare.
pub open spec fn class_text(i: int, l: Look) -> Seq<char> {
    when(
        look_text(l).len() > 0,
        ".x"@ + text::decimal(i as nat) + "{"@ + look_text(l) + "}\n"@,
    )
}

/// The classes of styles.
pub open spec fn classes_text(s: Seq<Look>) -> Seq<char>
    decreases s.len(),
{
    if s.len() == 0 {
        Seq::empty()
    } else {
        classes_text(s.drop_last()) + class_text(s.len() - 1, s.last())
    }
}

fn is_harmless(c: char) -> (r: bool)
    ensures
        r == harmless(c),
{
    c != '\'' && c != '<' && c != '\\' && c != '\n' && c != '\r' && c != '\u{c}'
}

/// Appends a name without the characters that could end it.
fn push_tamed(out: &mut String, s: &str)
    ensures
        final(out)@ == old(out)@ + tamed(s@),
{
    let cs: Vec<char> = text::chars_of(s);
    let mut i: usize = 0;
    assert(old(out)@ + tamed(cs@.take(0)) =~= old(out)@);
    while i < cs.len()
        invariant
            i <= cs@.len(),
            out@ == old(out)@ + tamed(cs@.take(i as int)),
        decreases cs@.len() - i,
    {
        assert(cs@.take(i + 1).drop_last() =~= cs@.take(i as int));
        if is_harmless(cs[i]) {
            out.push(cs[i]);
        }
        i = i + 1;
        assert(out@ =~= old(out)@ + tamed(cs@.take(i as int)));
    }
    assert(cs@.take(i as int) =~= cs@);
}

fn hex_of(d: u32) -> (r: char)
    requires
        d < 16,
    ensures
        r == hex(d as nat),
{
    if d < 10 {
        (48 + d as u8) as char
    } else {
        (87 + d as u8) as char
    }
}

fn push_css_color(out: &mut String, c: u32)
    ensures
        final(out)@ == old(out)@ + css_color(c),
{
    out.push('#');
    out.push(hex_of(c / 0x10_0000 % 16));
    out.push(hex_of(c / 0x1_0000 % 16));
    out.push(hex_of(c / 0x1000 % 16));
    out.push(hex_of(c / 0x100 % 16));
    out.push(hex_of(c / 0x10 % 16));
    out.push(hex_of(c % 16));
    assert(out@ =~= old(out)@ + css_color(c));
}

fn line_of(s: BorderStyle) -> (r: Option<&'static str>)
    ensures
        match r {
            Some(t) => css_line(s) == Some(t@),
            None => css_line(s) is None,
        },
{
    match s {
        BorderStyle::Absent => None,
        BorderStyle::Hair => Some("1px solid"),
        BorderStyle::Thin => Some("1px solid"),
        BorderStyle::Medium => Some("2px solid"),
        BorderStyle::Thick => Some("3px solid"),
        BorderStyle::Double => Some("3px double"),
        BorderStyle::Dashed => Some("1px dashed"),
        BorderStyle::Dotted => Some("1px dotted"),
    }
}

fn push_color(out: &mut String, name: &str, color: Option<u32>)
    ensures
        final(out)@ == old(out)@ + color_text(name@, color),
{
    match color {
        Some(c) => {
            out.append(name);
            push_css_color(out, c);
            out.append(";");
        },
        None => {},
    }
    assert(out@ =~= old(out)@ + color_text(name@, color));
}

fn push_lines(out: &mut String, f: &Font)
    ensures
        final(out)@ == old(out)@ + lines_text(*f),
{
    if f.underline || f.strike {
        out.append("text-decoration:");
        if f.underline {
            out.append("underline ");
        }
        if f.strike {
            out.append("line-through");
        }
        out.append(";");
    }
    assert(out@ =~= old(out)@ + lines_text(*f));
}

/// Appends a text where it is wanted.
pub(crate) fn push_when(out: &mut String, b: bool, t: &str)
    ensures
        final(out)@ == old(out)@ + when(b, t@),
{
    if b {
        out.append(t);
    }
    assert(out@ =~= old(out)@ + when(b, t@));
}

fn push_size(out: &mut String, size: Option<u32>)
    ensures
        final(out)@ == old(out)@ + size_text(size),
{
    if let Some(px) = size {
        out.append("font-size:");
        text::push_decimal(out, px as u64);
        out.append("px;");
    }
    assert(out@ =~= old(out)@ + size_text(size));
}

fn push_family(out: &mut String, name: &Option<String>)
    ensures
        final(out)@ == old(out)@ + family_text(*name),
{
    if let Some(n) = name {
        out.append("font-family:'");
        push_tamed(out, n.as_str());
        out.append("',sans-serif;");
    }
    assert(out@ =~= old(out)@ + family_text(*name));
}

fn push_font(out: &mut String, f: &Font)
    ensures
        final(out)@ == old(out)@ + font_text(*f),
{
    push_when(out, f.bold, "font-weight:700;");
    push_when(out, f.italic, "font-style:italic;");
    push_lines(out, f);
    push_size(out, f.size);
    push_family(out, &f.name);
    push_color(out, "color:", f.color);
    assert(out@ =~= old(out)@ + font_text(*f));
}

fn push_edge(out: &mut String, name: &str, e: &Edge)
    ensures
        final(out)@ == old(out)@ + edge_text(name@, *e),
{
    if let Some(l) = line_of(e.line) {
        out.append("border-");
        out.append(name);
        out.append(":");
        out.append(l);
        out.append(" ");
        match e.color {
            Some(c) => push_css_color(out, c),
            None => out.append("currentColor"),
        }
        out.append(";");
    }
    assert(out@ =~= old(out)@ + edge_text(name@, *e));
}

fn push_alignment(out: &mut String, a: &Alignment)
    ensures
        final(out)@ == old(out)@ + alignment_text(*a),
{
    match a.h {
        HAlign::Left => out.append("text-align:left;"),
        HAlign::Center => out.append("text-align:center;"),
        HAlign::Right => out.append("text-align:right;"),
        HAlign::Justify => out.append("text-align:justify;"),
        HAlign::General => {},
    }
    match a.v {
        VAlign::Top => out.append("vertical-align:top;"),
        VAlign::Center => out.append("vertical-align:middle;"),
        VAlign::Bottom => out.append("vertical-align:bottom;"),
    }
    assert(out@ =~= old(out)@ + alignment_text(*a));
}

fn push_some_font(out: &mut String, f: &Option<Font>)
    ensures
        final(out)@ == old(out)@ + some_font_text(*f),
{
    match f {
        Some(f) => push_font(out, f),
        None => {
            assert(out@ =~= old(out)@ + some_font_text(None));
        },
    }
}

fn push_some_borders(out: &mut String, b: &Option<Borders>)
    ensures
        final(out)@ == old(out)@ + some_borders_text(*b),
{
    match b {
        Some(b) => {
            push_edge(out, "left", &b.left);
            push_edge(out, "right", &b.right);
            push_edge(out, "top", &b.top);
            push_edge(out, "bottom", &b.bottom);
            assert(out@ =~= old(out)@ + borders_text(*b));
        },
        None => {
            assert(out@ =~= old(out)@ + some_borders_text(None));
        },
    }
}

fn push_some_alignment(out: &mut String, a: &Option<Alignment>)
    ensures
        final(out)@ == old(out)@ + some_alignment_text(*a),
{
    match a {
        Some(a) => push_alignment(out, a),
        None => {
            assert(out@ =~= old(out)@ + some_alignment_text(None));
        },
    }
}

fn push_look(out: &mut String, l: &Look)
    ensures
        final(out)@ == old(out)@ + look_text(*l),
{
    push_some_font(out, &l.font);
    push_color(out, "background:", l.fill);
    push_some_borders(out, &l.borders);
    push_some_alignment(out, &l.alignment);
    assert(out@ =~= old(out)@ + look_text(*l));
}

/// The styles of cells as classes of CSS.
pub fn style_classes(ap: &Appearance) -> (r: String)
    ensures
        r@ == classes_text(ap.looks@),
{
    let mut css: String = String::new();
    let ghost all = ap.looks@;
    let mut i: usize = 0;
    assert(css@ =~= classes_text(all.take(0)));
    while i < ap.looks.len()
        invariant
            i <= ap.looks@.len(),
            all == ap.looks@,
            css@ == classes_text(all.take(i as int)),
        decreases ap.looks@.len() - i,
    {
        let ghost before = css@;
        let l = &ap.looks[i];
        proof {
            assert(all.take(i + 1).drop_last() =~= all.take(i as int));
            assert(all.take(i + 1).last() == *l);
        }
        let mut decls: String = String::new();
        push_look(&mut decls, l);
        assert(decls@ =~= look_text(*l));
        let some: bool = text::chars_of(decls.as_str()).len() > 0;
        if some {
            css.append(".x");
            text::push_decimal(&mut css, i as u64);
            css.append("{");
            css.append(decls.as_str());
            css.append("}\n");
        }
        assert(css@ =~= before + class_text(i as int, *l));
        i = i + 1;
    }
    assert(all.take(i as int) =~= all);
    css
}

} // verus!
