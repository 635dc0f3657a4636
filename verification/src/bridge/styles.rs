//! The styles of cells as a block of bytes.
use vstd::prelude::*;
use vstd::slice::slice_subrange;
use vstd::string::*;

use crate::bridge::sheet;
use crate::bytes::writer::Writer;
pub use crate::export::model::BorderStyle;
use crate::export::model::{HAlign, VAlign};
use crate::text;

verus! {

/// What stands for no colour of its own.
pub const NO_COLOR: u32 = 0xFF00_0000;

/// The bits of the size of a font that declares none: eleven points in pixels.
pub const DEFAULT_SIZE: u32 = 0x416A_AAAB;

/// One side of a border. Colours are as CSS has them.
#[derive(Debug)]
pub struct Side {
    pub style: BorderStyle,
    pub color: Option<String>,
}

/// A style of cells.
#[derive(Debug)]
pub struct StyleRecord {
    pub bold: bool,
    pub italic: bool,
    pub wrap: bool,
    /// The bits of the size of the font in pixels, a number of single
    /// precision.
    pub size: Option<u32>,
    pub color: Option<String>,
    pub fill: Option<String>,
    pub h_align: Option<HAlign>,
    pub v_align: Option<VAlign>,
    pub left: Side,
    pub right: Side,
    pub top: Side,
    pub bottom: Side,
    /// The name of the font.
    pub name: Option<String>,
}

/// The number of a line.
pub open spec fn line_code(s: BorderStyle) -> u8 {
    match s {
        BorderStyle::Absent => 0,
        BorderStyle::Hair => 1,
        BorderStyle::Thin => 1,
        BorderStyle::Medium => 2,
        BorderStyle::Thick => 3,
        BorderStyle::Double => 4,
        BorderStyle::Dashed => 5,
        BorderStyle::Dotted => 6,
    }
}

/// The number of a line.
#[must_use]
pub fn border_code(s: BorderStyle) -> (r: u8)
    ensures
        r == line_code(s),
{
    match s {
        BorderStyle::Absent => 0,
        BorderStyle::Hair => 1,
        BorderStyle::Thin => 1,
        BorderStyle::Medium => 2,
        BorderStyle::Thick => 3,
        BorderStyle::Double => 4,
        BorderStyle::Dashed => 5,
        BorderStyle::Dotted => 6,
    }
}

/// The value of a hexadecimal digit.
pub open spec fn hex_digit(c: char) -> Option<nat> {
    if '0' <= c <= '9' {
        Some((c as u32 - 48) as nat)
    } else if 'a' <= c <= 'f' {
        Some((c as u32 - 87) as nat)
    } else if 'A' <= c <= 'F' {
        Some((c as u32 - 55) as nat)
    } else {
        None
    }
}

/// The value of hexadecimal digits.
pub open spec fn hex_value(s: Seq<char>) -> Option<nat>
    decreases s.len(),
{
    if s.len() == 0 {
        Some(0)
    } else {
        match (hex_value(s.drop_last()), hex_digit(s.last())) {
            (Some(v), Some(d)) => Some(v * 16 + d),
            _ => None,
        }
    }
}

/// A text without the `#` at its beginning.
pub open spec fn unhashed(s: Seq<char>) -> Seq<char>
    decreases s.len(),
{
    if s.len() > 0 && s[0] == '#' {
        unhashed(s.skip(1))
    } else {
        s
    }
}

/// A text without one plus at its beginning.
pub open spec fn unsigned(s: Seq<char>) -> Seq<char> {
    if s.len() > 0 && s[0] == '+' {
        s.skip(1)
    } else {
        s
    }
}

/// The number of a colour, when it is one of digits and fits.
pub open spec fn color_number(s: Seq<char>) -> Option<u32> {
    let t = unsigned(unhashed(s));
    match hex_value(t) {
        Some(v) => if t.len() > 0 && v <= u32::MAX {
            Some(v as u32)
        } else {
            None
        },
        None => None,
    }
}

/// The number of a colour that may be missing.
pub open spec fn rgb(c: Option<String>) -> u32 {
    match c {
        Some(s) => match color_number(s@) {
            Some(v) => v,
            None => NO_COLOR,
        },
        None => NO_COLOR,
    }
}

/// The marks of a style.
pub open spec fn marks(s: StyleRecord) -> u8 {
    ((if s.bold {
        1int
    } else {
        0
    }) + (if s.italic {
        2int
    } else {
        0
    }) + (if s.wrap {
        4int
    } else {
        0
    })) as u8
}

pub open spec fn h_code(h: Option<HAlign>) -> u8 {
    match h {
        Some(HAlign::Left) => 1,
        Some(HAlign::Center) => 2,
        Some(HAlign::Right) => 3,
        Some(HAlign::Justify) => 4,
        _ => 0,
    }
}

pub open spec fn v_code(v: Option<VAlign>) -> u8 {
    match v {
        Some(VAlign::Top) => 0,
        Some(VAlign::Center) => 1,
        _ => 2,
    }
}

pub open spec fn side_bytes(s: Side) -> Seq<u8> {
    seq![line_code(s.style)] + sheet::word(rgb(s.color))
}

/// The first bytes of a name, as many as a byte can count. A name whose
/// characters do not end there is left out.
pub open spec fn short_name(b: Seq<u8>) -> Seq<u8> {
    if b.len() <= 255 {
        b
    } else if 128 <= b[255] <= 191 {
        Seq::empty()
    } else {
        b.take(255)
    }
}

pub open spec fn name_bytes(name: Option<String>) -> Seq<u8> {
    let b = short_name(
        match name {
            Some(n) => vstd::utf8::encode_utf8(n@),
            None => Seq::empty(),
        },
    );
    seq![b.len() as u8] + b
}

pub open spec fn size_bits(s: Option<u32>) -> u32 {
    match s {
        Some(v) => v,
        None => DEFAULT_SIZE,
    }
}

/// The four sides of a border.
pub open spec fn sides_bytes(s: StyleRecord) -> Seq<u8> {
    side_bytes(s.left) + side_bytes(s.right) + side_bytes(s.top) + side_bytes(s.bottom)
}

/// A style.
pub open spec fn style_bytes(s: StyleRecord) -> Seq<u8> {
    seq![marks(s)] + sheet::word(size_bits(s.size)) + sheet::word(rgb(s.color)) + sheet::word(
        rgb(s.fill),
    ) + seq![h_code(s.h_align)] + seq![v_code(s.v_align)] + sides_bytes(s) + name_bytes(s.name)
}

pub open spec fn all_style_bytes(s: Seq<StyleRecord>) -> Seq<u8>
    decreases s.len(),
{
    if s.len() == 0 {
        Seq::empty()
    } else {
        all_style_bytes(s.drop_last()) + style_bytes(s.last())
    }
}

/// The block of styles.
pub open spec fn block_bytes(s: Seq<StyleRecord>) -> Seq<u8> {
    sheet::count(s.len()) + all_style_bytes(s)
}

fn digit_value(c: char) -> (r: Option<u32>)
    ensures
        match r {
            Some(v) => hex_digit(c) == Some(v as nat) && v < 16,
            None => hex_digit(c) is None,
        },
{
    if '0' <= c && c <= '9' {
        Some(c as u32 - 48)
    } else if 'a' <= c && c <= 'f' {
        Some(c as u32 - 87)
    } else if 'A' <= c && c <= 'F' {
        Some(c as u32 - 55)
    } else {
        None
    }
}

/// A number that does not fit does not fit with more digits, and neither do
/// digits that are none.
proof fn lemma_hex_prefix(s: Seq<char>, n: int)
    requires
        0 <= n <= s.len(),
    ensures
        hex_value(s.take(n)) is None ==> hex_value(s) is None,
        hex_value(s.take(n)) is Some && hex_value(s) is Some ==> hex_value(s.take(n))->0
            <= hex_value(s)->0,
    decreases s.len(),
{
    if n < s.len() {
        assert(s.drop_last().take(n) =~= s.take(n));
        lemma_hex_prefix(s.drop_last(), n);
    } else {
        assert(s.take(n) =~= s);
    }
}

/// The number of a colour, when it is one.
fn parse_color(s: &str) -> (r: Option<u32>)
    ensures
        r == color_number(s@),
{
    let cs: Vec<char> = text::chars_of(s);
    let n: usize = cs.len();
    let mut from: usize = 0;
    assert(cs@.skip(0) =~= cs@);
    while from < n && cs[from] == '#'
        invariant
            from <= n,
            n == cs@.len(),
            unhashed(cs@) == unhashed(cs@.skip(from as int)),
        ensures
            from <= n,
            unhashed(cs@) == cs@.skip(from as int),
        decreases n - from,
    {
        assert(cs@.skip(from as int).skip(1) =~= cs@.skip(from + 1));
        from = from + 1;
    }
    let ghost u = cs@.skip(from as int);
    if from < n && cs[from] == '+' {
        from = from + 1;
    }
    let ghost t = cs@.skip(from as int);
    assert(t =~= unsigned(u));
    if from == n {
        return None;
    }
    let mut v: u64 = 0;
    let mut i: usize = from;
    assert(t.take(0) =~= Seq::<char>::empty());
    while i < n
        invariant
            from <= i <= n,
            n == cs@.len(),
            from < n,
            t == cs@.skip(from as int),
            t == unsigned(unhashed(s@)),
            v <= u32::MAX,
            hex_value(t.take(i - from)) == Some(v as nat),
        decreases n - i,
    {
        let ghost k = i - from;
        proof {
            assert(t.take(k + 1).drop_last() =~= t.take(k));
            assert(t.take(k + 1).last() == cs@[i as int]);
            lemma_hex_prefix(t, k + 1);
        }
        match digit_value(cs[i]) {
            Some(d) => {
                v = v * 16 + d as u64;
                if v > u32::MAX as u64 {
                    return None;
                }
            },
            None => return None,
        }
        i = i + 1;
    }
    assert(t.take(i - from) =~= t);
    Some(v as u32)
}

/// The number of a colour that may be missing.
#[must_use]
pub fn rgb_of(c: &Option<String>) -> (r: u32)
    ensures
        r == rgb(*c),
{
    match c {
        Some(s) => match parse_color(s.as_str()) {
            Some(v) => v,
            None => NO_COLOR,
        },
        None => NO_COLOR,
    }
}

fn put_side(o: &mut Writer, s: &Side)
    ensures
        final(o)@ == old(o)@ + side_bytes(*s),
{
    o.u8(border_code(s.style));
    o.le_u32(rgb_of(&s.color));
    assert(o@ =~= old(o)@ + side_bytes(*s));
}

fn put_name(o: &mut Writer, name: &Option<String>)
    ensures
        final(o)@ == old(o)@ + name_bytes(*name),
{
    let empty: Vec<u8> = Vec::new();
    assert(empty@ =~= Seq::<u8>::empty());
    let b: &[u8] = match name {
        Some(n) => n.as_str().as_bytes(),
        None => empty.as_slice(),
    };
    let n: usize = b.len();
    let short: &[u8] = if n <= 255 {
        b
    } else if 128 <= b[255] && b[255] <= 191 {
        empty.as_slice()
    } else {
        slice_subrange(b, 0, 255)
    };
    assert(short@ =~= short_name(b@));
    o.u8(short.len() as u8);
    o.bytes(short);
    assert(o@ =~= old(o)@ + name_bytes(*name));
}

fn put_sides(o: &mut Writer, s: &StyleRecord)
    ensures
        final(o)@ == old(o)@ + sides_bytes(*s),
{
    put_side(o, &s.left);
    put_side(o, &s.right);
    put_side(o, &s.top);
    put_side(o, &s.bottom);
    assert(o@ =~= old(o)@ + sides_bytes(*s));
}

fn marks_of(s: &StyleRecord) -> (r: u8)
    ensures
        r == marks(*s),
{
    let mut flags: u8 = 0;
    if s.bold {
        flags = flags + 1;
    }
    if s.italic {
        flags = flags + 2;
    }
    if s.wrap {
        flags = flags + 4;
    }
    flags
}

fn h_of(h: Option<HAlign>) -> (r: u8)
    ensures
        r == h_code(h),
{
    match h {
        Some(HAlign::Left) => 1,
        Some(HAlign::Center) => 2,
        Some(HAlign::Right) => 3,
        Some(HAlign::Justify) => 4,
        _ => 0,
    }
}

fn v_of(v: Option<VAlign>) -> (r: u8)
    ensures
        r == v_code(v),
{
    match v {
        Some(VAlign::Top) => 0,
        Some(VAlign::Center) => 1,
        _ => 2,
    }
}

fn size_of_font(s: Option<u32>) -> (r: u32)
    ensures
        r == size_bits(s),
{
    match s {
        Some(v) => v,
        None => DEFAULT_SIZE,
    }
}

fn put_style(o: &mut Writer, s: &StyleRecord)
    ensures
        final(o)@ == old(o)@ + style_bytes(*s),
{
    o.u8(marks_of(s));
    o.le_u32(size_of_font(s.size));
    o.le_u32(rgb_of(&s.color));
    o.le_u32(rgb_of(&s.fill));
    o.u8(h_of(s.h_align));
    o.u8(v_of(s.v_align));
    put_sides(o, s);
    put_name(o, &s.name);
    assert(o@ =~= old(o)@ + style_bytes(*s));
}

/// The block of styles.
pub fn build_styles(list: &Vec<StyleRecord>) -> (r: Vec<u8>)
    ensures
        r@ == block_bytes(list@),
{
    let ghost all = list@;
    let mut o: Writer = Writer::new();
    o.le_u32(list.len() as u32);
    let ghost start = o@;
    let mut k: usize = 0;
    assert(start + all_style_bytes(all.take(0)) =~= start);
    while k < list.len()
        invariant
            k <= list@.len(),
            all == list@,
            o@ == start + all_style_bytes(all.take(k as int)),
        decreases list@.len() - k,
    {
        let ghost before = o@;
        assert(all.take(k + 1).drop_last() =~= all.take(k as int));
        assert(all.take(k + 1).last() == list@[k as int]);
        put_style(&mut o, &list[k]);
        k = k + 1;
        assert(o@ =~= start + all_style_bytes(all.take(k as int)));
    }
    assert(all.take(k as int) =~= all);
    assert(o@ =~= block_bytes(list@));
    o.finish()
}

} // verus!
