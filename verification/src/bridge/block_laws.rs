//! What a reader finds in the blocks of sheets and styles.
use vstd::prelude::*;
use vstd::string::*;

use crate::bridge::entry;
use crate::bridge::entry::{CellEdit, Reading};
use crate::bridge::sheet;
use crate::bridge::styles;
use crate::bridge::styles::{BorderStyle, Side, StyleRecord};
use crate::bytes::le;
use crate::export::grid;
use crate::export::model::{Cell, CellRange, CellValue, HAlign, VAlign};
use crate::opc::lookup_laws;
use crate::text;
use crate::xml::read_laws;

verus! {

/// The number in the four bytes at `i`, the low one first.
pub open spec fn word_at(b: Seq<u8>, i: int) -> int {
    b[i] + 256 * b[i + 1] + 65536 * b[i + 2] + 16777216 * b[i + 3]
}

proof fn lemma_word(v: u32)
    ensures
        sheet::word(v).len() == 4,
        word_at(sheet::word(v), 0) == v,
{
    let s = sheet::word(v);
    reveal_with_fuel(le::le_range, 5);
    le::lemma_le_round_trip(v as nat, 4);
    le::lemma_le_value_4(s);
}

proof fn lemma_inside(x: Seq<u8>, y: Seq<u8>, z: Seq<u8>, i: int)
    requires
        0 <= i,
        i + 4 <= y.len(),
    ensures
        word_at(x + y + z, x.len() + i) == word_at(y, i),
{
    let b = x + y + z;
    assert(b[x.len() + i] == y[i]);
    assert(b[x.len() + i + 1] == y[i + 1]);
    assert(b[x.len() + i + 2] == y[i + 2]);
    assert(b[x.len() + i + 3] == y[i + 3]);
}

/// A cell says something: it has a value, a formula or a style.
pub open spec fn speaks(c: Cell) -> bool {
    !(c.value is Empty) || c.formula is Some || c.style is Some
}

/// The counts reach as far as the last line of a cell that says something.
proof fn lemma_rows_reach(s: Seq<Cell>)
    ensures
        forall|i: int|
            0 <= i < s.len() && speaks(#[trigger] s[i]) ==> grid::next(s[i].at.row)
                <= sheet::row_count(s) && grid::next(s[i].at.col) <= sheet::col_count(s),
        sheet::row_count(s) == 0 || exists|i: int|
            0 <= i < s.len() && speaks(#[trigger] s[i]) && sheet::row_count(s) == grid::next(
                s[i].at.row,
            ),
        sheet::col_count(s) == 0 || exists|i: int|
            0 <= i < s.len() && speaks(#[trigger] s[i]) && sheet::col_count(s) == grid::next(
                s[i].at.col,
            ),
    decreases s.len(),
{
    if s.len() > 0 {
        let t = s.drop_last();
        let n = s.len() - 1;
        lemma_rows_reach(t);
        assert forall|i: int| 0 <= i < s.len() && speaks(#[trigger] s[i]) implies grid::next(
            s[i].at.row,
        ) <= sheet::row_count(s) && grid::next(s[i].at.col) <= sheet::col_count(s) by {
            if i < n {
                assert(t[i] == s[i]);
            }
        }
        if sheet::row_count(s) != 0 {
            if sheet::row_count(s) == sheet::row_count(t) {
                let i = choose|i: int|
                    0 <= i < t.len() && speaks(#[trigger] t[i]) && sheet::row_count(t)
                        == grid::next(t[i].at.row);
                assert(s[i] == t[i]);
                assert(speaks(s[i]));
            } else {
                assert(speaks(s[n]));
            }
        }
        if sheet::col_count(s) != 0 {
            if sheet::col_count(s) == sheet::col_count(t) {
                let i = choose|i: int|
                    0 <= i < t.len() && speaks(#[trigger] t[i]) && sheet::col_count(t)
                        == grid::next(t[i].at.col);
                assert(s[i] == t[i]);
                assert(speaks(s[i]));
            } else {
                assert(speaks(s[n]));
            }
        }
    }
}

/// The rows and columns of a block reach exactly as far as the cells that say
/// something: each of these lies inside, and one of them in the last row, and
/// one in the last column.
pub proof fn lemma_block_reaches_as_far_as_cells(s: Seq<Cell>)
    requires
        forall|i: int|
            0 <= i < s.len() ==> (#[trigger] s[i]).at.row < u32::MAX && s[i].at.col < u32::MAX,
    ensures
        forall|i: int|
            0 <= i < s.len() && speaks(#[trigger] s[i]) ==> s[i].at.row < sheet::row_count(s)
                && s[i].at.col < sheet::col_count(s),
        sheet::row_count(s) > 0 ==> exists|i: int|
            0 <= i < s.len() && speaks(#[trigger] s[i]) && s[i].at.row + 1 == sheet::row_count(s),
        sheet::col_count(s) > 0 ==> exists|i: int|
            0 <= i < s.len() && speaks(#[trigger] s[i]) && s[i].at.col + 1 == sheet::col_count(s),
{
    lemma_rows_reach(s);
    if sheet::row_count(s) > 0 {
        let i = choose|i: int|
            0 <= i < s.len() && speaks(#[trigger] s[i]) && sheet::row_count(s) == grid::next(
                s[i].at.row,
            );
        assert(speaks(s[i]));
    }
    if sheet::col_count(s) > 0 {
        let i = choose|i: int|
            0 <= i < s.len() && speaks(#[trigger] s[i]) && sheet::col_count(s) == grid::next(
                s[i].at.col,
            );
        assert(speaks(s[i]));
    }
}

/// The size of a line: what is declared for it, or else the usual one.
pub open spec fn declared_or(s: Seq<Option<u32>>, i: int, usual: u32) -> int {
    if i < s.len() && s[i] is Some {
        s[i]->0 as int
    } else {
        usual as int
    }
}

proof fn lemma_sizes(s: Seq<Option<u32>>, n: nat, usual: u32)
    ensures
        sheet::sizes(s, n, usual).len() == 4 * n,
        forall|c: int|
            0 <= c < n ==> word_at(sheet::sizes(s, n, usual), 4 * c) == #[trigger] declared_or(
                s,
                c,
                usual,
            ),
    decreases n,
{
    if n > 0 {
        let m = (n - 1) as nat;
        let a = sheet::sizes(s, m, usual);
        let w = sheet::word(sheet::size_or(s, n - 1, usual));
        let none = Seq::<u8>::empty();
        lemma_sizes(s, m, usual);
        lemma_word(sheet::size_or(s, n - 1, usual));
        assert forall|c: int| 0 <= c < n implies word_at(sheet::sizes(s, n, usual), 4 * c)
            == #[trigger] declared_or(s, c, usual) by {
            if c < m {
                lemma_inside(none, a, w, 4 * c);
                assert(none + a + w =~= a + w);
            } else {
                lemma_inside(a, w, none, 0);
                assert(a + w + none =~= a + w);
            }
        }
    }
}

/// The ranges that begin inside of a sheet.
pub open spec fn inner(merges: Seq<CellRange>, rows: u32, cols: u32) -> Seq<CellRange> {
    merges.filter(|m: CellRange| m.from.row < rows && m.from.col < cols)
}

/// The range at `i` of a block.
pub open spec fn range_at(b: Seq<u8>, i: int, m: CellRange) -> bool {
    &&& word_at(b, i) == m.from.row
    &&& word_at(b, i + 4) == m.from.col
    &&& word_at(b, i + 8) == m.to.row
    &&& word_at(b, i + 12) == m.to.col
}

proof fn lemma_range(m: CellRange)
    ensures
        sheet::range_bytes(m).len() == 16,
        range_at(sheet::range_bytes(m), 0, m),
{
    lemma_word(m.from.row);
    lemma_word(m.from.col);
    lemma_word(m.to.row);
    lemma_word(m.to.col);
    let a = sheet::word(m.from.row);
    let b = sheet::word(m.from.col);
    let c = sheet::word(m.to.row);
    let d = sheet::word(m.to.col);
    let none = Seq::<u8>::empty();
    let all = sheet::range_bytes(m);
    assert(all =~= none + a + (b + c + d));
    assert(all =~= a + b + (c + d));
    assert(all =~= (a + b) + c + d);
    assert(all =~= (a + b + c) + d + none);
    lemma_inside(none, a, b + c + d, 0);
    lemma_inside(a, b, c + d, 0);
    lemma_inside(a + b, c, d, 0);
    lemma_inside(a + b + c, d, none, 0);
}

proof fn lemma_ranges(s: Seq<CellRange>, rows: u32, cols: u32)
    ensures
        sheet::inside_count(s, rows, cols) == inner(s, rows, cols).len(),
        sheet::ranges_bytes(s, rows, cols).len() == 16 * inner(s, rows, cols).len(),
        forall|k: int|
            0 <= k < inner(s, rows, cols).len() ==> range_at(
                sheet::ranges_bytes(s, rows, cols),
                16 * k,
                #[trigger] inner(s, rows, cols)[k],
            ),
    decreases s.len(),
{
    reveal(Seq::filter);
    if s.len() > 0 {
        let t = s.drop_last();
        lemma_ranges(t, rows, cols);
        let m = s.last();
        let a = sheet::ranges_bytes(t, rows, cols);
        let w = sheet::range_bytes(m);
        let none = Seq::<u8>::empty();
        lemma_range(m);
        let was = inner(t, rows, cols);
        let now = inner(s, rows, cols);
        if m.from.row < rows && m.from.col < cols {
            assert(now == was.push(m));
            assert forall|k: int| 0 <= k < now.len() implies range_at(
                sheet::ranges_bytes(s, rows, cols),
                16 * k,
                #[trigger] now[k],
            ) by {
                if k < was.len() {
                    assert(now[k] == was[k]);
                    assert(none + a + w =~= a + w);
                    lemma_inside(none, a, w, 16 * k);
                    lemma_inside(none, a, w, 16 * k + 4);
                    lemma_inside(none, a, w, 16 * k + 8);
                    lemma_inside(none, a, w, 16 * k + 12);
                } else {
                    assert(a + w + none =~= a + w);
                    lemma_inside(a, w, none, 0);
                    lemma_inside(a, w, none, 4);
                    lemma_inside(a, w, none, 8);
                    lemma_inside(a, w, none, 12);
                }
            }
        } else {
            assert(now == was);
        }
    }
}

/// A cell as a reader of a block finds it.
pub struct CellRecord {
    pub row: int,
    pub col: int,
    pub style: int,
    pub kind: u8,
    pub text: Seq<u8>,
}

/// The record of a cell. A cell without a style has that with the number zero.
pub open spec fn record_of(c: Cell) -> CellRecord {
    CellRecord {
        row: c.at.row as int,
        col: c.at.col as int,
        style: match c.style {
            Some(x) => x as int,
            None => 0,
        },
        kind: match c.value {
            CellValue::Empty => 0,
            CellValue::Number(_) => 1,
            CellValue::Text(_) => 2,
            CellValue::Bool(_) => 3,
            CellValue::Error(_) => 4,
        },
        text: match c.value {
            CellValue::Empty => Seq::empty(),
            CellValue::Number(t) => vstd::utf8::encode_utf8(t@),
            CellValue::Text(t) => vstd::utf8::encode_utf8(t@),
            CellValue::Bool(b) => vstd::utf8::encode_utf8(
                if b {
                    "ИСТИНА"@
                } else {
                    "ЛОЖЬ"@
                },
            ),
            CellValue::Error(t) => vstd::utf8::encode_utf8(t@),
        },
    }
}

/// The next `n` cells of a block from `i` on.
pub open spec fn cells_at(b: Seq<u8>, i: int, n: nat) -> Seq<CellRecord>
    decreases n,
{
    if n == 0 {
        Seq::empty()
    } else {
        let e = i + 17 + word_at(b, i + 13);
        seq![
            CellRecord {
                row: word_at(b, i),
                col: word_at(b, i + 4),
                style: word_at(b, i + 8),
                kind: b[i + 12],
                text: b.subrange(i + 17, e),
            },
        ] + cells_at(b, e, (n - 1) as nat)
    }
}

/// The cells that are handed out: those with a value or a style.
pub open spec fn handed(cells: Seq<Cell>) -> Seq<Cell> {
    cells.filter(|c: Cell| !(c.value is Empty) || c.style is Some)
}

/// The bytes of cells, one behind the other.
spec fn glued(s: Seq<Cell>) -> Seq<u8>
    decreases s.len(),
{
    if s.len() == 0 {
        Seq::empty()
    } else {
        glued(s.drop_last()) + sheet::cell_bytes(s.last())
    }
}

proof fn lemma_glued(s: Seq<Cell>)
    ensures
        sheet::cells_bytes(s) == glued(handed(s)),
        sheet::shown_count(s) == handed(s).len(),
    decreases s.len(),
{
    reveal(Seq::filter);
    if s.len() > 0 {
        lemma_glued(s.drop_last());
        let was = handed(s.drop_last());
        if sheet::is_shown(s.last()) {
            assert(handed(s) == was.push(s.last()));
            assert(was.push(s.last()).drop_last() =~= was);
        } else {
            assert(handed(s) == was);
        }
    }
}

proof fn lemma_glued_front(s: Seq<Cell>)
    requires
        s.len() > 0,
    ensures
        glued(s) == sheet::cell_bytes(s[0]) + glued(s.skip(1)),
    decreases s.len(),
{
    if s.len() == 1 {
        assert(s.drop_last() =~= Seq::<Cell>::empty());
        assert(s.skip(1) =~= Seq::<Cell>::empty());
        assert(glued(s) =~= sheet::cell_bytes(s[0]) + glued(s.skip(1)));
    } else {
        lemma_glued_front(s.drop_last());
        assert(s.drop_last().skip(1) =~= s.skip(1).drop_last());
        assert(s.skip(1).last() == s.last());
        assert(glued(s) =~= sheet::cell_bytes(s[0]) + glued(s.skip(1)));
    }
}

/// The text of a value is short enough to be counted.
pub open spec fn countable(c: Cell) -> bool {
    record_of(c).text.len() <= u32::MAX
}

proof fn lemma_value_text(c: Cell)
    ensures
        vstd::utf8::encode_utf8(grid::value_text(c.value)) == record_of(c).text,
{
    if c.value is Empty {
        assert(vstd::utf8::encode_utf8(Seq::<char>::empty()) =~= Seq::<u8>::empty());
    }
}

proof fn lemma_cell(x: Seq<u8>, c: Cell, z: Seq<u8>)
    requires
        countable(c),
    ensures
        ({
            let b = x + sheet::cell_bytes(c) + z;
            let i = x.len() as int;
            let r = record_of(c);
            &&& sheet::cell_bytes(c).len() == 17 + r.text.len()
            &&& word_at(b, i) == r.row
            &&& word_at(b, i + 4) == r.col
            &&& word_at(b, i + 8) == r.style
            &&& b[i + 12] == r.kind
            &&& word_at(b, i + 13) == r.text.len()
            &&& b.subrange(i + 17, i + 17 + r.text.len()) == r.text
        }),
{
    let style: u32 = match c.style {
        Some(v) => v,
        None => 0,
    };
    let t = record_of(c).text;
    lemma_value_text(c);
    lemma_word(c.at.row);
    lemma_word(c.at.col);
    lemma_word(style);
    lemma_word(t.len() as u32);
    let a1 = sheet::word(c.at.row);
    let a2 = sheet::word(c.at.col);
    let a3 = sheet::word(style);
    let k = seq![sheet::kind_of(c.value)];
    let a4 = sheet::word(t.len() as u32);
    let one = sheet::cell_bytes(c);
    let b = x + one + z;
    assert(one =~= a1 + a2 + a3 + k + (a4 + t));
    assert(b =~= x + a1 + (a2 + a3 + k + a4 + t + z));
    assert(b =~= (x + a1) + a2 + (a3 + k + a4 + t + z));
    assert(b =~= (x + a1 + a2) + a3 + (k + a4 + t + z));
    assert(b =~= (x + a1 + a2 + a3 + k) + a4 + (t + z));
    lemma_inside(x, a1, a2 + a3 + k + a4 + t + z, 0);
    lemma_inside(x + a1, a2, a3 + k + a4 + t + z, 0);
    lemma_inside(x + a1 + a2, a3, k + a4 + t + z, 0);
    lemma_inside(x + a1 + a2 + a3 + k, a4, t + z, 0);
    let i = x.len() as int;
    assert(b.subrange(i + 17, i + 17 + t.len()) =~= t);
}

proof fn lemma_cells_step(b: Seq<u8>, i: int, n: nat, r: CellRecord)
    requires
        n > 0,
        word_at(b, i) == r.row,
        word_at(b, i + 4) == r.col,
        word_at(b, i + 8) == r.style,
        b[i + 12] == r.kind,
        word_at(b, i + 13) == r.text.len(),
        b.subrange(i + 17, i + 17 + r.text.len()) == r.text,
    ensures
        cells_at(b, i, n) == seq![r] + cells_at(b, i + 17 + r.text.len(), (n - 1) as nat),
{
}

proof fn lemma_first_cell(x: Seq<u8>, c: Cell, z: Seq<u8>, n: nat)
    requires
        countable(c),
        n > 0,
    ensures
        cells_at(x + sheet::cell_bytes(c) + z, x.len() as int, n) == seq![record_of(c)] + cells_at(
            x + sheet::cell_bytes(c) + z,
            (x + sheet::cell_bytes(c)).len() as int,
            (n - 1) as nat,
        ),
{
    lemma_cell(x, c, z);
    lemma_cells_step(x + sheet::cell_bytes(c) + z, x.len() as int, n, record_of(c));
}

proof fn lemma_records_front(s: Seq<Cell>)
    requires
        s.len() > 0,
    ensures
        s.map_values(|c: Cell| record_of(c)) == seq![record_of(s[0])] + s.skip(1).map_values(
            |c: Cell| record_of(c),
        ),
{
    let f = |c: Cell| record_of(c);
    assert(s.map_values(f) =~= seq![record_of(s[0])] + s.skip(1).map_values(f));
}

proof fn lemma_cells_read(x: Seq<u8>, s: Seq<Cell>)
    requires
        forall|k: int| 0 <= k < s.len() ==> countable(#[trigger] s[k]),
    ensures
        cells_at(x + glued(s), x.len() as int, s.len()) == s.map_values(|c: Cell| record_of(c)),
    decreases s.len(),
{
    if s.len() > 0 {
        let rest = s.skip(1);
        let y = x + sheet::cell_bytes(s[0]);
        assert(x + glued(s) == y + glued(rest)) by {
            lemma_glued_front(s);
            assert(x + glued(s) =~= y + glued(rest));
        }
        assert(countable(s[0]));
        lemma_first_cell(x, s[0], glued(rest), s.len());
        assert forall|k: int| 0 <= k < rest.len() implies countable(#[trigger] rest[k]) by {
            assert(rest[k] == s[k + 1]);
        }
        lemma_cells_read(y, rest);
        lemma_records_front(s);
    } else {
        assert(s.map_values(|c: Cell| record_of(c)) =~= Seq::<CellRecord>::empty());
    }
}

/// A reader finds in the block of a sheet how many rows and columns there are,
/// the width of every column and the height of every row, the ranges that begin
/// inside, and the cells with a value or a style, in their order.
#[verifier::spinoff_prover]
#[verifier::rlimit(60)]
pub proof fn lemma_block_of_a_sheet(
    cells: Seq<Cell>,
    merges: Seq<CellRange>,
    widths: Seq<Option<u32>>,
    heights: Seq<Option<u32>>,
)
    requires
        inner(merges, sheet::row_count(cells), sheet::col_count(cells)).len() <= u32::MAX,
        handed(cells).len() <= u32::MAX,
        forall|k: int| 0 <= k < handed(cells).len() ==> countable(#[trigger] handed(cells)[k]),
    ensures
        ({
            let b = sheet::sheet_bytes(cells, merges, widths, heights);
            let rows = sheet::row_count(cells) as int;
            let cols = sheet::col_count(cells) as int;
            let ranges = inner(merges, rows as u32, cols as u32);
            let m = 16 + 4 * cols + 4 * rows;
            let n = m + 4 + 16 * ranges.len();
            &&& word_at(b, 0) == rows
            &&& word_at(b, 4) == cols
            &&& word_at(b, 8) == cols
            &&& forall|c: int|
                0 <= c < cols ==> word_at(b, 12 + 4 * c) == #[trigger] declared_or(
                    widths,
                    c,
                    0x4280_0000,
                )
            &&& word_at(b, 12 + 4 * cols) == rows
            &&& forall|r: int|
                0 <= r < rows ==> word_at(b, 16 + 4 * cols + 4 * r) == #[trigger] declared_or(
                    heights,
                    r,
                    0x41A0_0000,
                )
            &&& word_at(b, m) == ranges.len()
            &&& forall|k: int|
                0 <= k < ranges.len() ==> range_at(b, m + 4 + 16 * k, #[trigger] ranges[k])
            &&& word_at(b, n) == handed(cells).len()
            &&& cells_at(b, n + 4, handed(cells).len()) == handed(cells).map_values(
                |c: Cell| record_of(c),
            )
        }),
{
    let rows = sheet::row_count(cells);
    let cols = sheet::col_count(cells);
    let ranges = inner(merges, rows, cols);
    lemma_sizes(widths, cols as nat, sheet::DEFAULT_WIDTH);
    lemma_sizes(heights, rows as nat, sheet::DEFAULT_HEIGHT);
    lemma_ranges(merges, rows, cols);
    lemma_glued(cells);
    let mm = ranges.len() as u32;
    let kk = handed(cells).len() as u32;
    lemma_word(rows);
    lemma_word(cols);
    lemma_word(mm);
    lemma_word(kk);
    let a1 = sheet::word(rows);
    let a2 = sheet::word(cols);
    let w = sheet::sizes(widths, cols as nat, sheet::DEFAULT_WIDTH);
    let h = sheet::sizes(heights, rows as nat, sheet::DEFAULT_HEIGHT);
    let cm = sheet::word(mm);
    let rb = sheet::ranges_bytes(merges, rows, cols);
    let ck = sheet::word(kk);
    let cb = glued(handed(cells));
    let b = sheet::sheet_bytes(cells, merges, widths, heights);
    let none = Seq::<u8>::empty();
    lemma_parts(a1, a2, a2, w, a1, h, cm, rb, ck, cb);
    let x1 = a1;
    let x2 = x1 + a2;
    let x3 = x2 + a2;
    let x4 = x3 + w;
    let x5 = x4 + a1;
    let x6 = x5 + h;
    let x7 = x6 + cm;
    let x8 = x7 + rb;
    let x9 = x8 + ck;
    assert(b == x9 + cb);
    let z8 = ck + cb;
    let z7 = rb + z8;
    let z6 = cm + z7;
    let z5 = h + z6;
    let z4 = a1 + z5;
    let z3 = w + z4;
    let z2 = a2 + z3;
    lemma_inside(none, a1, a2 + z2, 0);
    lemma_inside(x1, a2, z2, 0);
    lemma_inside(x2, a2, z3, 0);
    assert forall|c: int| 0 <= c < cols implies word_at(b, 12 + 4 * c) == #[trigger] declared_or(
        widths,
        c,
        0x4280_0000,
    ) by {
        lemma_inside(x3, w, z4, 4 * c);
    }
    lemma_inside(x4, a1, z5, 0);
    assert forall|r: int| 0 <= r < rows implies word_at(b, 16 + 4 * cols + 4 * r)
        == #[trigger] declared_or(heights, r, 0x41A0_0000) by {
        lemma_inside(x5, h, z6, 4 * r);
    }
    lemma_inside(x6, cm, z7, 0);
    assert forall|k: int| 0 <= k < ranges.len() implies range_at(
        b,
        16 + 4 * cols + 4 * rows + 4 + 16 * k,
        #[trigger] ranges[k],
    ) by {
        lemma_inside(x7, rb, z8, 16 * k);
        lemma_inside(x7, rb, z8, 16 * k + 4);
        lemma_inside(x7, rb, z8, 16 * k + 8);
        lemma_inside(x7, rb, z8, 16 * k + 12);
    }
    lemma_inside(x8, ck, cb, 0);
    lemma_cells_read(x9, handed(cells));
}

proof fn lemma_shift(x: Seq<u8>, y: Seq<u8>, z: Seq<u8>)
    ensures
        x + y + z == x + (y + z),
{
    assert(x + y + z =~= x + (y + z));
}

/// Parts one behind the other, with each of them between those before it and
/// those behind it.
proof fn lemma_parts(
    a: Seq<u8>,
    b: Seq<u8>,
    c: Seq<u8>,
    d: Seq<u8>,
    e: Seq<u8>,
    f: Seq<u8>,
    g: Seq<u8>,
    h: Seq<u8>,
    i: Seq<u8>,
    j: Seq<u8>,
)
    ensures
        ({
            let all = a + b + c + d + e + f + g + h + i + j;
            let none = Seq::<u8>::empty();
            let z8 = i + j;
            let z7 = h + z8;
            let z6 = g + z7;
            let z5 = f + z6;
            let z4 = e + z5;
            let z3 = d + z4;
            let z2 = c + z3;
            let z1 = b + z2;
            &&& all == none + a + z1
            &&& all == a + b + z2
            &&& all == (a + b) + c + z3
            &&& all == (a + b + c) + d + z4
            &&& all == (a + b + c + d) + e + z5
            &&& all == (a + b + c + d + e) + f + z6
            &&& all == (a + b + c + d + e + f) + g + z7
            &&& all == (a + b + c + d + e + f + g) + h + z8
        }),
{
    let none = Seq::<u8>::empty();
    let z8 = i + j;
    let z7 = h + z8;
    let z6 = g + z7;
    let z5 = f + z6;
    let z4 = e + z5;
    let z3 = d + z4;
    let z2 = c + z3;
    lemma_shift(a + b + c + d + e + f + g + h, i, j);
    lemma_shift(a + b + c + d + e + f + g, h, z8);
    lemma_shift(a + b + c + d + e + f, g, z7);
    lemma_shift(a + b + c + d + e, f, z6);
    lemma_shift(a + b + c + d, e, z5);
    lemma_shift(a + b + c, d, z4);
    lemma_shift(a + b, c, z3);
    lemma_shift(a, b, z2);
    assert(none + a =~= a);
}

/// A colour in digits to the base of sixteen, with a `#` before them or without,
/// is the number that these spell.
pub proof fn lemma_colour_is_its_number(v: u32, small: bool)
    ensures
        styles::color_number(seq!['#'] + read_laws::spelled(v as nat, 16, small)) == Some(v),
        styles::color_number(read_laws::spelled(v as nat, 16, small)) == Some(v),
{
    let h = read_laws::spelled(v as nat, 16, small);
    let s = seq!['#'] + h;
    lemma_hex_value(v as nat, small);
    assert(s[0] == '#');
    assert(s.skip(1) =~= h);
    assert(styles::unhashed(h) == h);
    assert(styles::unhashed(s) == h);
}

proof fn lemma_hex_value(n: nat, small: bool)
    ensures
        read_laws::spelled(n, 16, small).len() > 0,
        styles::hex_value(read_laws::spelled(n, 16, small)) == Some(n),
        read_laws::spelled(n, 16, small)[0] != '#',
        read_laws::spelled(n, 16, small)[0] != '+',
    decreases n,
{
    let s = read_laws::spelled(n, 16, small);
    lemma_hex_digit(n % 16, small);
    if n < 16 {
        assert(s.drop_last() =~= Seq::<char>::empty());
        reveal_with_fuel(styles::hex_value, 2);
    } else {
        lemma_hex_value(n / 16, small);
        assert(s.drop_last() =~= read_laws::spelled(n / 16, 16, small));
    }
}

proof fn lemma_hex_digit(v: nat, small: bool)
    requires
        v < 16,
    ensures
        styles::hex_digit(read_laws::digit(v, small)) == Some(v),
        read_laws::digit(v, small) != '#',
        read_laws::digit(v, small) != '+',
{
}

/// The number of a colour in a block: that of its digits, and one that no colour
/// has where there are none.
pub open spec fn colour_of(c: Option<String>) -> int {
    match c {
        Some(s) => match styles::color_number(s@) {
            Some(v) => v as int,
            None => 0xFF00_0000,
        },
        None => 0xFF00_0000,
    }
}

/// A side of a border in a block: the number of its line, and its colour.
pub open spec fn side_at(b: Seq<u8>, i: int, s: Side) -> bool {
    &&& b[i] == match s.style {
        BorderStyle::Absent => 0u8,
        BorderStyle::Hair => 1,
        BorderStyle::Thin => 1,
        BorderStyle::Medium => 2,
        BorderStyle::Thick => 3,
        BorderStyle::Double => 4,
        BorderStyle::Dashed => 5,
        BorderStyle::Dotted => 6,
    }
    &&& word_at(b, i + 1) == colour_of(s.color)
}

/// The name of a font in a block: all of it when a byte can count it; else its
/// first bytes, or none where a character would be cut.
pub open spec fn name_at(b: Seq<u8>, i: int, name: Option<String>) -> bool {
    let n = match name {
        Some(t) => vstd::utf8::encode_utf8(t@),
        None => Seq::empty(),
    };
    if n.len() <= 255 {
        b[i] == n.len() && b.subrange(i + 1, i + 1 + n.len()) == n
    } else if 128 <= n[255] <= 191 {
        b[i] == 0
    } else {
        b[i] == 255 && b.subrange(i + 1, i + 256) == n.take(255)
    }
}

/// A style in a block.
pub open spec fn style_at(b: Seq<u8>, i: int, s: StyleRecord) -> bool {
    &&& (b[i] % 2 == 1) == s.bold
    &&& (b[i] / 2 % 2 == 1) == s.italic
    &&& (b[i] / 4 % 2 == 1) == s.wrap
    &&& b[i] < 8
    &&& word_at(b, i + 1) == match s.size {
        Some(v) => v as int,
        None => 0x416A_AAAB,
    }
    &&& word_at(b, i + 5) == colour_of(s.color)
    &&& word_at(b, i + 9) == colour_of(s.fill)
    &&& b[i + 13] == match s.h_align {
        Some(HAlign::Left) => 1u8,
        Some(HAlign::Center) => 2,
        Some(HAlign::Right) => 3,
        Some(HAlign::Justify) => 4,
        Some(HAlign::General) => 0,
        None => 0,
    }
    &&& b[i + 14] == match s.v_align {
        Some(VAlign::Top) => 0u8,
        Some(VAlign::Center) => 1,
        Some(VAlign::Bottom) => 2,
        None => 2,
    }
    &&& side_at(b, i + 15, s.left)
    &&& side_at(b, i + 20, s.right)
    &&& side_at(b, i + 25, s.top)
    &&& side_at(b, i + 30, s.bottom)
    &&& name_at(b, i + 35, s.name)
}

proof fn lemma_side(s: Side)
    ensures
        styles::side_bytes(s).len() == 5,
        side_at(styles::side_bytes(s), 0, s),
{
    let v = styles::rgb(s.color);
    lemma_word(v);
    let a = seq![styles::line_code(s.style)];
    let none = Seq::<u8>::empty();
    lemma_inside(a, sheet::word(v), none, 0);
    assert(a + sheet::word(v) + none =~= styles::side_bytes(s));
}

proof fn lemma_side_inside(x: Seq<u8>, s: Side, z: Seq<u8>)
    ensures
        side_at(x + styles::side_bytes(s) + z, x.len() as int, s),
        styles::side_bytes(s).len() == 5,
{
    lemma_side(s);
    lemma_inside(x, styles::side_bytes(s), z, 1);
}

/// A reader finds in the bytes of a style its marks, sizes, colours, alignment,
/// sides and the name of its font, each in its place.
#[verifier::spinoff_prover]
#[verifier::rlimit(60)]
pub proof fn lemma_block_of_a_style(x: Seq<u8>, s: StyleRecord, z: Seq<u8>)
    ensures
        style_at(x + styles::style_bytes(s) + z, x.len() as int, s),
{
    let m = seq![styles::marks(s)];
    let a = sheet::word(styles::size_bits(s.size));
    let c = sheet::word(styles::rgb(s.color));
    let f = sheet::word(styles::rgb(s.fill));
    let h = seq![styles::h_code(s.h_align)];
    let v = seq![styles::v_code(s.v_align)];
    let l = styles::side_bytes(s.left);
    let r = styles::side_bytes(s.right);
    let t = styles::side_bytes(s.top);
    let o = styles::side_bytes(s.bottom);
    let n = styles::name_bytes(s.name);
    let b = x + styles::style_bytes(s) + z;
    lemma_word(styles::size_bits(s.size));
    lemma_word(styles::rgb(s.color));
    lemma_word(styles::rgb(s.fill));
    lemma_side(s.left);
    lemma_side(s.right);
    lemma_side(s.top);
    lemma_side(s.bottom);
    let hv = h + v;
    assert(styles::style_bytes(s) =~= m + a + c + f + hv + l + r + t + o + n);
    let k = x + m;
    lemma_parts(k, a, c, f, hv, l, r, t, o, n + z);
    assert(b =~= k + a + c + f + hv + l + r + t + o + (n + z));
    lemma_inside(k, a, c + f + hv + l + r + t + o + (n + z), 0);
    lemma_inside(k + a, c, f + hv + l + r + t + o + (n + z), 0);
    lemma_inside(k + a + c, f, hv + l + r + t + o + (n + z), 0);
    let y = k + a + c + f + hv;
    lemma_side_inside(y, s.left, r + t + o + (n + z));
    lemma_side_inside(y + l, s.right, t + o + (n + z));
    lemma_side_inside(y + l + r, s.top, o + (n + z));
    assert(b =~= (y + l + r + t) + o + (n + z));
    lemma_side_inside(y + l + r + t, s.bottom, n + z);
    let i = x.len() as int;
    assert(b[i] == styles::marks(s));
    assert(b[i + 13] == h[0]);
    assert(b[i + 14] == v[0]);
    let w = y + l + r + t + o;
    assert(b =~= w + n + z);
    assert(w.len() == i + 35);
    lemma_name(w, s.name, z);
}

proof fn lemma_name(w: Seq<u8>, name: Option<String>, z: Seq<u8>)
    ensures
        name_at(w + styles::name_bytes(name) + z, w.len() as int, name),
{
    let n = match name {
        Some(t) => vstd::utf8::encode_utf8(t@),
        None => Seq::empty(),
    };
    let b = w + styles::name_bytes(name) + z;
    let i = w.len() as int;
    let k = styles::short_name(n);
    assert(styles::name_bytes(name) =~= seq![k.len() as u8] + k);
    assert(b[i] == k.len() as u8);
    assert(b.subrange(i + 1, i + 1 + k.len()) =~= k);
}

/// The block of styles says how many there are, and holds them one behind the
/// other.
pub proof fn lemma_block_of_styles(a: Seq<StyleRecord>, s: StyleRecord, z: Seq<StyleRecord>)
    requires
        a.len() + 1 + z.len() <= u32::MAX,
    ensures
        ({
            let b = styles::block_bytes(a.push(s) + z);
            let i = 4 + styles::all_style_bytes(a).len() as int;
            &&& word_at(b, 0) == a.len() + 1 + z.len()
            &&& style_at(b, i, s)
        }),
{
    let all = a.push(s) + z;
    let n = all.len() as u32;
    lemma_word(n);
    let c = sheet::word(n);
    let none = Seq::<u8>::empty();
    assert(a.push(s).drop_last() =~= a);
    let x = styles::all_style_bytes(a);
    let one = styles::style_bytes(s);
    let rest = styles::all_style_bytes(a.push(s) + z).skip((x + one).len() as int);
    lemma_styles_front(a.push(s), z);
    let b = styles::block_bytes(all);
    assert(b =~= (c + x) + one + rest) by {
        assert(styles::all_style_bytes(all) =~= x + one + rest);
    }
    assert(b =~= none + c + (x + one + rest));
    lemma_inside(none, c, x + one + rest, 0);
    lemma_block_of_a_style(c + x, s, rest);
}

proof fn lemma_styles_front(a: Seq<StyleRecord>, z: Seq<StyleRecord>)
    ensures
        styles::all_style_bytes(a + z).len() >= styles::all_style_bytes(a).len(),
        styles::all_style_bytes(a + z).take(styles::all_style_bytes(a).len() as int)
            == styles::all_style_bytes(a),
    decreases z.len(),
{
    let n = styles::all_style_bytes(a).len() as int;
    if z.len() > 0 {
        assert((a + z).drop_last() =~= a + z.drop_last());
        lemma_styles_front(a, z.drop_last());
        let p = styles::all_style_bytes(a + z.drop_last());
        assert(styles::all_style_bytes(a + z).take(n) =~= p.take(n));
    } else {
        assert(a + z =~= a);
        assert(styles::all_style_bytes(a).take(n) =~= styles::all_style_bytes(a));
    }
}

/// White space around what was typed plays no part, and nothing but white space
/// clears the cell. A number is a number; a truth value is typed as a word, in
/// whatever case of the letters of ASCII; all else is text.
pub proof fn lemma_what_was_typed(v: Seq<char>, s: Seq<char>, w: Seq<char>, reading: Reading)
    requires
        lookup_laws::blank(v),
        lookup_laws::blank(w),
        s.len() > 0 ==> !text::whitespace(s[0]) && !text::whitespace(s.last()),
    ensures
        ({
            let r = entry::edit_of(v + s + w, reading);
            let yes = text::lowered(s) == text::lowered("истина"@) || text::lowered(s)
                == text::lowered("true"@);
            let no = text::lowered(s) == text::lowered("ложь"@) || text::lowered(s)
                == text::lowered("false"@);
            &&& s.len() == 0 ==> r == CellEdit::Clear
            &&& s.len() > 0 && reading is Finite ==> r == CellEdit::Number
            &&& s.len() > 0 && reading is NotFinite ==> r == CellEdit::Text
            &&& s.len() > 0 && reading is NoNumber && yes ==> r == CellEdit::Bool(true)
            &&& s.len() > 0 && reading is NoNumber && !yes && no ==> r == CellEdit::Bool(false)
            &&& s.len() > 0 && reading is NoNumber && !yes && !no ==> r == CellEdit::Text
        }),
{
    if s.len() == 0 {
        let all = v + s + w;
        assert(lookup_laws::blank(all)) by {
            assert forall|k: int| 0 <= k < all.len() implies text::whitespace(
                #[trigger] all[k],
            ) by {
                if k < v.len() {
                    assert(all[k] == v[k]);
                } else {
                    assert(all[k] == w[k - v.len()]);
                }
            }
        }
        let none = Seq::<char>::empty();
        lookup_laws::lemma_trim_back(none, all);
        assert(none + all =~= all);
    } else {
        assert((v + s).last() == s.last());
        lookup_laws::lemma_trim_back(v + s, w);
        lookup_laws::lemma_trim_front(v, s);
    }
}

} // verus!
