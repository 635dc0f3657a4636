//! A sheet as a block of bytes.
//!
//! The block holds the numbers of rows and columns, the widths of the columns
//! and the heights of the rows, each behind how many they are, then the merged
//! ranges and the cells. Widths and heights are the bits of numbers of single
//! precision.
use vstd::prelude::*;
use vstd::string::*;

use crate::bytes::le;
use crate::bytes::writer::Writer;
use crate::export::grid;
use crate::export::model;
use crate::export::model::{Cell, CellRange, CellValue};

verus! {

/// The bits of 64 pixels, the width of a column that declares none.
pub const DEFAULT_WIDTH: u32 = 0x4280_0000;

/// The bits of 20 pixels, the height of a row that declares none.
pub const DEFAULT_HEIGHT: u32 = 0x41A0_0000;

/// Four bytes of a number.
pub open spec fn word(v: u32) -> Seq<u8> {
    le::le_bytes(v as nat, 4)
}

/// How many there are, in four bytes.
pub open spec fn count(n: nat) -> Seq<u8> {
    word(n as u32)
}

/// Whether a cell says nothing of how far a sheet reaches. Empty cells with a
/// style do: they carry the border of a form.
pub open spec fn says_nothing(c: Cell) -> bool {
    grid::is_blank(c) && c.style is None
}

/// How many rows a sheet has.
pub open spec fn row_count(s: Seq<Cell>) -> u32
    decreases s.len(),
{
    if s.len() == 0 {
        0
    } else if says_nothing(s.last()) {
        row_count(s.drop_last())
    } else {
        grid::greater(row_count(s.drop_last()), grid::next(s.last().at.row))
    }
}

/// How many columns a sheet has.
pub open spec fn col_count(s: Seq<Cell>) -> u32
    decreases s.len(),
{
    if s.len() == 0 {
        0
    } else if says_nothing(s.last()) {
        col_count(s.drop_last())
    } else {
        grid::greater(col_count(s.drop_last()), grid::next(s.last().at.col))
    }
}

/// A size, or the size of what declares none.
pub open spec fn size_or(s: Seq<Option<u32>>, i: int, default: u32) -> u32 {
    match model::size_at(s, i) {
        Some(v) => v,
        None => default,
    }
}

/// The first `n` sizes.
pub open spec fn sizes(s: Seq<Option<u32>>, n: nat, default: u32) -> Seq<u8>
    decreases n,
{
    if n == 0 {
        Seq::empty()
    } else {
        sizes(s, (n - 1) as nat, default) + word(size_or(s, n - 1, default))
    }
}

/// Whether a range begins inside the sheet.
pub open spec fn begins_inside(m: CellRange, rows: u32, cols: u32) -> bool {
    m.from.row < rows && m.from.col < cols
}

/// How many of the ranges begin inside the sheet.
pub open spec fn inside_count(s: Seq<CellRange>, rows: u32, cols: u32) -> nat
    decreases s.len(),
{
    if s.len() == 0 {
        0
    } else {
        inside_count(s.drop_last(), rows, cols) + if begins_inside(s.last(), rows, cols) {
            1nat
        } else {
            0nat
        }
    }
}

/// A range.
pub open spec fn range_bytes(m: CellRange) -> Seq<u8> {
    word(m.from.row) + word(m.from.col) + word(m.to.row) + word(m.to.col)
}

/// The ranges that begin inside the sheet.
pub open spec fn ranges_bytes(s: Seq<CellRange>, rows: u32, cols: u32) -> Seq<u8>
    decreases s.len(),
{
    if s.len() == 0 {
        Seq::empty()
    } else if begins_inside(s.last(), rows, cols) {
        ranges_bytes(s.drop_last(), rows, cols) + range_bytes(s.last())
    } else {
        ranges_bytes(s.drop_last(), rows, cols)
    }
}

/// Whether a cell is handed out.
pub open spec fn is_shown(c: Cell) -> bool {
    !(c.value is Empty) || c.style is Some
}

pub open spec fn shown_count(s: Seq<Cell>) -> nat
    decreases s.len(),
{
    if s.len() == 0 {
        0
    } else {
        shown_count(s.drop_last()) + if is_shown(s.last()) {
            1nat
        } else {
            0nat
        }
    }
}

/// The number of the kind of a value.
pub open spec fn kind_of(v: CellValue) -> u8 {
    match v {
        CellValue::Empty => 0,
        CellValue::Number(_) => 1,
        CellValue::Text(_) => 2,
        CellValue::Bool(_) => 3,
        CellValue::Error(_) => 4,
    }
}

/// The bytes of a text behind how many they are.
pub open spec fn text_bytes(s: Seq<char>) -> Seq<u8> {
    let b = vstd::utf8::encode_utf8(s);
    count(b.len()) + b
}

/// A cell.
pub open spec fn cell_bytes(c: Cell) -> Seq<u8> {
    word(c.at.row) + word(c.at.col) + word(
        match c.style {
            Some(x) => x,
            None => 0,
        },
    ) + seq![kind_of(c.value)] + text_bytes(grid::value_text(c.value))
}

/// The cells that are handed out.
pub open spec fn cells_bytes(s: Seq<Cell>) -> Seq<u8>
    decreases s.len(),
{
    if s.len() == 0 {
        Seq::empty()
    } else if is_shown(s.last()) {
        cells_bytes(s.drop_last()) + cell_bytes(s.last())
    } else {
        cells_bytes(s.drop_last())
    }
}

/// The block of a sheet.
pub open spec fn sheet_bytes(
    cells: Seq<Cell>,
    merges: Seq<CellRange>,
    widths: Seq<Option<u32>>,
    heights: Seq<Option<u32>>,
) -> Seq<u8> {
    let rows = row_count(cells);
    let cols = col_count(cells);
    word(rows) + word(cols) + word(cols) + sizes(widths, cols as nat, DEFAULT_WIDTH) + word(rows)
        + sizes(heights, rows as nat, DEFAULT_HEIGHT) + count(inside_count(merges, rows, cols))
        + ranges_bytes(merges, rows, cols) + count(shown_count(cells)) + cells_bytes(cells)
}

/// How many rows and columns a sheet has.
fn extent(cells: &Vec<Cell>) -> (r: (u32, u32))
    ensures
        r.0 == row_count(cells@),
        r.1 == col_count(cells@),
{
    let ghost all = cells@;
    let mut rows: u32 = 0;
    let mut cols: u32 = 0;
    let mut k: usize = 0;
    assert(all.take(0) =~= Seq::<Cell>::empty());
    while k < cells.len()
        invariant
            k <= cells@.len(),
            all == cells@,
            rows == row_count(all.take(k as int)),
            cols == col_count(all.take(k as int)),
        decreases cells@.len() - k,
    {
        let c = &cells[k];
        proof {
            assert(all.take(k + 1).drop_last() =~= all.take(k as int));
            assert(all.take(k + 1).last() == *c);
        }
        let nothing: bool = match c.value {
            CellValue::Empty => c.formula.is_none() && c.style.is_none(),
            _ => false,
        };
        if !nothing {
            let r: u32 = c.at.row.saturating_add(1);
            let w: u32 = c.at.col.saturating_add(1);
            if rows < r {
                rows = r;
            }
            if cols < w {
                cols = w;
            }
        }
        k = k + 1;
    }
    assert(all.take(k as int) =~= all);
    (rows, cols)
}

fn put_sizes(o: &mut Writer, s: &Vec<Option<u32>>, n: u32, default: u32)
    ensures
        final(o)@ == old(o)@ + sizes(s@, n as nat, default),
{
    let mut i: u32 = 0;
    assert(old(o)@ + sizes(s@, 0, default) =~= old(o)@);
    while i < n
        invariant
            i <= n,
            o@ == old(o)@ + sizes(s@, i as nat, default),
        decreases n - i,
    {
        let ghost before = o@;
        let v: u32 = match model::size_of_line(s, i as usize) {
            Some(v) => v,
            None => default,
        };
        o.le_u32(v);
        i = i + 1;
        assert(o@ =~= old(o)@ + sizes(s@, i as nat, default));
    }
}

fn count_inside(s: &Vec<CellRange>, rows: u32, cols: u32) -> (r: usize)
    ensures
        r == inside_count(s@, rows, cols),
{
    let ghost all = s@;
    let mut n: usize = 0;
    let mut k: usize = 0;
    assert(all.take(0) =~= Seq::<CellRange>::empty());
    while k < s.len()
        invariant
            n <= k <= s@.len(),
            all == s@,
            n == inside_count(all.take(k as int), rows, cols),
        decreases s@.len() - k,
    {
        assert(all.take(k + 1).drop_last() =~= all.take(k as int));
        assert(all.take(k + 1).last() == s@[k as int]);
        if s[k].from.row < rows && s[k].from.col < cols {
            n = n + 1;
        }
        k = k + 1;
    }
    assert(all.take(k as int) =~= all);
    n
}

fn put_range(o: &mut Writer, m: &CellRange)
    ensures
        final(o)@ == old(o)@ + range_bytes(*m),
{
    o.le_u32(m.from.row);
    o.le_u32(m.from.col);
    o.le_u32(m.to.row);
    o.le_u32(m.to.col);
    assert(o@ =~= old(o)@ + range_bytes(*m));
}

fn put_ranges(o: &mut Writer, s: &Vec<CellRange>, rows: u32, cols: u32)
    ensures
        final(o)@ == old(o)@ + ranges_bytes(s@, rows, cols),
{
    let ghost all = s@;
    let mut k: usize = 0;
    assert(old(o)@ + ranges_bytes(all.take(0), rows, cols) =~= old(o)@);
    while k < s.len()
        invariant
            k <= s@.len(),
            all == s@,
            o@ == old(o)@ + ranges_bytes(all.take(k as int), rows, cols),
        decreases s@.len() - k,
    {
        let ghost before = o@;
        assert(all.take(k + 1).drop_last() =~= all.take(k as int));
        assert(all.take(k + 1).last() == s@[k as int]);
        if s[k].from.row < rows && s[k].from.col < cols {
            put_range(o, &s[k]);
        }
        k = k + 1;
        assert(o@ =~= old(o)@ + ranges_bytes(all.take(k as int), rows, cols));
    }
    assert(all.take(k as int) =~= all);
}

fn shown(c: &Cell) -> (r: bool)
    ensures
        r == is_shown(*c),
{
    match c.value {
        CellValue::Empty => c.style.is_some(),
        _ => true,
    }
}

fn count_shown(s: &Vec<Cell>) -> (r: usize)
    ensures
        r == shown_count(s@),
{
    let ghost all = s@;
    let mut n: usize = 0;
    let mut k: usize = 0;
    assert(all.take(0) =~= Seq::<Cell>::empty());
    while k < s.len()
        invariant
            n <= k <= s@.len(),
            all == s@,
            n == shown_count(all.take(k as int)),
        decreases s@.len() - k,
    {
        assert(all.take(k + 1).drop_last() =~= all.take(k as int));
        assert(all.take(k + 1).last() == s@[k as int]);
        if shown(&s[k]) {
            n = n + 1;
        }
        k = k + 1;
    }
    assert(all.take(k as int) =~= all);
    n
}

fn put_text(o: &mut Writer, s: &str)
    ensures
        final(o)@ == old(o)@ + text_bytes(s@),
{
    let b = s.as_bytes();
    o.le_u32(b.len() as u32);
    o.bytes(b);
    assert(o@ =~= old(o)@ + text_bytes(s@));
}

fn put_cell(o: &mut Writer, c: &Cell)
    ensures
        final(o)@ == old(o)@ + cell_bytes(*c),
{
    o.le_u32(c.at.row);
    o.le_u32(c.at.col);
    o.le_u32(
        match c.style {
            Some(x) => x,
            None => 0,
        },
    );
    let (kind, t): (u8, &str) = match &c.value {
        CellValue::Empty => (0, ""),
        CellValue::Number(t) => (1, t.as_str()),
        CellValue::Text(t) => (2, t.as_str()),
        CellValue::Bool(b) => (
            3,
            if *b {
                "ИСТИНА"
            } else {
                "ЛОЖЬ"
            },
        ),
        CellValue::Error(t) => (4, t.as_str()),
    };
    proof {
        reveal_strlit("");
        assert(""@ =~= Seq::<char>::empty());
        assert(t@ == grid::value_text(c.value));
    }
    o.u8(kind);
    put_text(o, t);
    assert(o@ =~= old(o)@ + cell_bytes(*c));
}

fn put_cells(o: &mut Writer, s: &Vec<Cell>)
    ensures
        final(o)@ == old(o)@ + cells_bytes(s@),
{
    let ghost all = s@;
    let mut k: usize = 0;
    assert(old(o)@ + cells_bytes(all.take(0)) =~= old(o)@);
    while k < s.len()
        invariant
            k <= s@.len(),
            all == s@,
            o@ == old(o)@ + cells_bytes(all.take(k as int)),
        decreases s@.len() - k,
    {
        let ghost before = o@;
        assert(all.take(k + 1).drop_last() =~= all.take(k as int));
        assert(all.take(k + 1).last() == s@[k as int]);
        if shown(&s[k]) {
            put_cell(o, &s[k]);
        }
        k = k + 1;
        assert(o@ =~= old(o)@ + cells_bytes(all.take(k as int)));
    }
    assert(all.take(k as int) =~= all);
}

/// The block of a sheet. The widths and the heights are bits of numbers of
/// single precision.
pub fn build_sheet(
    cells: &Vec<Cell>,
    merges: &Vec<CellRange>,
    widths: &Vec<Option<u32>>,
    heights: &Vec<Option<u32>>,
) -> (r: Vec<u8>)
    ensures
        r@ == sheet_bytes(cells@, merges@, widths@, heights@),
{
    let (rows, cols): (u32, u32) = extent(cells);
    let mut o: Writer = Writer::new();
    o.le_u32(rows);
    o.le_u32(cols);
    o.le_u32(cols);
    put_sizes(&mut o, widths, cols, DEFAULT_WIDTH);
    o.le_u32(rows);
    put_sizes(&mut o, heights, rows, DEFAULT_HEIGHT);
    o.le_u32(count_inside(merges, rows, cols) as u32);
    put_ranges(&mut o, merges, rows, cols);
    o.le_u32(count_shown(cells) as u32);
    put_cells(&mut o, cells);
    assert(o@ =~= sheet_bytes(cells@, merges@, widths@, heights@));
    o.finish()
}

} // verus!
