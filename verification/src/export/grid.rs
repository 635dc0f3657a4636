//! The cells of a sheet, laid out in rows and columns.
use vstd::prelude::*;
use vstd::string::*;

use crate::export::model;
use crate::export::model::{Cell, CellRange, CellValue};
use crate::text;

verus! {

/// A cell of the table that is shown.
#[derive(Debug)]
pub struct Slot {
    pub text: String,
    pub class: &'static str,
    pub title: Option<String>,
    /// How many rows and columns the cell takes.
    pub span: Option<(u32, u32)>,
    pub style: Option<u32>,
    /// Another cell takes the place.
    pub covered: bool,
}

/// A cell of the table that is shown, as texts.
pub struct Spot {
    pub text: Seq<char>,
    pub class: Seq<char>,
    pub title: Option<Seq<char>>,
    pub span: Option<(u32, u32)>,
    pub style: Option<u32>,
    pub covered: bool,
}

impl Slot {
    pub open spec fn view(&self) -> Spot {
        Spot {
            text: self.text@,
            class: self.class@,
            title: model::text_of(self.title),
            span: self.span,
            style: self.style,
            covered: self.covered,
        }
    }
}

/// Whether nothing stands in a cell.
pub open spec fn is_blank(c: Cell) -> bool {
    c.value is Empty && c.formula is None
}

/// Whether all cells are blank.
pub open spec fn all_blank(s: Seq<Cell>) -> bool {
    forall|i: int| 0 <= i < s.len() ==> is_blank(#[trigger] s[i])
}

pub open spec fn greater(a: u32, b: u32) -> u32 {
    if a < b {
        b
    } else {
        a
    }
}

pub open spec fn lesser(a: u32, b: u32) -> u32 {
    if a < b {
        a
    } else {
        b
    }
}

/// A number and one, or the greatest number.
pub open spec fn next(a: u32) -> u32 {
    if a < u32::MAX {
        (a + 1) as u32
    } else {
        a
    }
}

/// The last row with a cell that is not blank.
pub open spec fn last_row(s: Seq<Cell>) -> u32
    decreases s.len(),
{
    if s.len() == 0 {
        0
    } else if is_blank(s.last()) {
        last_row(s.drop_last())
    } else {
        greater(last_row(s.drop_last()), s.last().at.row)
    }
}

/// The last column with a cell that is not blank.
pub open spec fn last_col(s: Seq<Cell>) -> u32
    decreases s.len(),
{
    if s.len() == 0 {
        0
    } else if is_blank(s.last()) {
        last_col(s.drop_last())
    } else {
        greater(last_col(s.drop_last()), s.last().at.col)
    }
}

/// A place where no cell stands.
pub open spec fn bare_spot() -> Spot {
    Spot {
        text: Seq::empty(),
        class: ""@,
        title: None,
        span: None,
        style: None,
        covered: false,
    }
}

/// A value as it is shown.
pub open spec fn value_text(v: CellValue) -> Seq<char> {
    match v {
        CellValue::Empty => Seq::empty(),
        CellValue::Number(t) => t@,
        CellValue::Text(t) => t@,
        CellValue::Bool(b) => if b {
            "ИСТИНА"@
        } else {
            "ЛОЖЬ"@
        },
        CellValue::Error(t) => t@,
    }
}

/// The class of a value.
pub open spec fn value_class(v: CellValue) -> Seq<char> {
    match v {
        CellValue::Empty => "s"@,
        CellValue::Number(_) => "n"@,
        CellValue::Text(_) => "s"@,
        CellValue::Bool(_) => "b"@,
        CellValue::Error(_) => "e"@,
    }
}

/// A place with a cell in it. What was there before keeps the title when the
/// cell has no formula.
pub open spec fn filled(s: Spot, c: Cell) -> Spot {
    Spot {
        text: value_text(c.value),
        class: value_class(c.value),
        title: match c.formula {
            Some(f) => Some("="@ + f@),
            None => s.title,
        },
        style: c.style,
        ..s
    }
}

/// A place with the cells that stand in it.
pub open spec fn spot_of_cells(s: Seq<Cell>, r: int, c: int) -> Spot
    decreases s.len(),
{
    if s.len() == 0 {
        bare_spot()
    } else {
        let before = spot_of_cells(s.drop_last(), r, c);
        if s.last().at.row == r && s.last().at.col == c {
            filled(before, s.last())
        } else {
            before
        }
    }
}

/// How many lines lie from one to another, with both.
pub open spec fn width_of(a: int, b: int) -> u32 {
    if a <= b {
        (b - a + 1) as u32
    } else {
        1
    }
}

/// The last line of a range, of those that are shown.
pub open spec fn clamped(x: u32, n: int) -> int {
    if x < n {
        x as int
    } else {
        n - 1
    }
}

/// A place with a range of cells that are one.
pub open spec fn merged(s: Spot, m: CellRange, rows: int, cols: int, r: int, c: int) -> Spot {
    if m.from.row >= rows || m.from.col >= cols {
        s
    } else {
        let r1 = clamped(m.to.row, rows);
        let c1 = clamped(m.to.col, cols);
        if r == m.from.row && c == m.from.col {
            Spot {
                span: Some((width_of(m.from.row as int, r1), width_of(m.from.col as int, c1))),
                ..s
            }
        } else if m.from.row <= r <= r1 && m.from.col <= c <= c1 {
            Spot { covered: true, ..s }
        } else {
            s
        }
    }
}

/// A place of the table.
pub open spec fn spot(
    cells: Seq<Cell>,
    merges: Seq<CellRange>,
    rows: int,
    cols: int,
    r: int,
    c: int,
) -> Spot
    decreases merges.len(),
{
    if merges.len() == 0 {
        spot_of_cells(cells, r, c)
    } else {
        merged(
            spot(cells, merges.drop_last(), rows, cols, r, c),
            merges.last(),
            rows,
            cols,
            r,
            c,
        )
    }
}

/// A table has so many rows and columns.
pub open spec fn sized(g: Seq<Vec<Slot>>, rows: int, cols: int) -> bool {
    g.len() == rows && forall|r: int| 0 <= r < rows ==> (#[trigger] g[r])@.len() == cols
}

/// The place of a table.
pub open spec fn at(g: Seq<Vec<Slot>>, r: int, c: int) -> Spot {
    g[r]@[c]@
}

fn bare_slot() -> (r: Slot)
    ensures
        r@ == bare_spot(),
{
    let text: String = String::new();
    assert(text@ =~= Seq::<char>::empty());
    Slot { text, class: "", title: None, span: None, style: None, covered: false }
}

/// A table of places where no cell stands.
fn bare_grid(rows: usize, cols: usize) -> (g: Vec<Vec<Slot>>)
    ensures
        sized(g@, rows as int, cols as int),
        forall|r: int, c: int|
            0 <= r < rows && 0 <= c < cols ==> #[trigger] at(g@, r, c) == bare_spot(),
{
    let mut g: Vec<Vec<Slot>> = Vec::new();
    let mut r: usize = 0;
    while r < rows
        invariant
            r <= rows,
            sized(g@, r as int, cols as int),
            forall|x: int, c: int|
                0 <= x < r && 0 <= c < cols ==> #[trigger] at(g@, x, c) == bare_spot(),
        decreases rows - r,
    {
        let mut line: Vec<Slot> = Vec::new();
        let mut c: usize = 0;
        while c < cols
            invariant
                c <= cols,
                line@.len() == c,
                forall|x: int| 0 <= x < c ==> (#[trigger] line@[x])@ == bare_spot(),
            decreases cols - c,
        {
            line.push(bare_slot());
            c = c + 1;
        }
        let ghost before = g@;
        g.push(line);
        proof {
            assert forall|x: int, c: int| 0 <= x < r + 1 && 0 <= c < cols implies #[trigger] at(
                g@,
                x,
                c,
            ) == bare_spot() by {
                if x < r {
                    assert(at(before, x, c) == bare_spot());
                } else {
                    assert(line@[c]@ == bare_spot());
                }
            }
        }
        r = r + 1;
    }
    g
}

/// Puts a cell into its place.
fn fill(slot: &mut Slot, cell: &Cell)
    ensures
        final(slot)@ == filled(old(slot)@, *cell),
{
    match &cell.value {
        CellValue::Empty => {
            let t = String::new();
            assert(t@ =~= Seq::<char>::empty());
            slot.text = t;
            slot.class = "s";
        },
        CellValue::Number(t) => {
            slot.text = t.as_str().to_owned();
            slot.class = "n";
        },
        CellValue::Text(t) => {
            slot.text = t.as_str().to_owned();
            slot.class = "s";
        },
        CellValue::Bool(b) => {
            slot.text = (if *b {
                "ИСТИНА"
            } else {
                "ЛОЖЬ"
            }).to_owned();
            slot.class = "b";
        },
        CellValue::Error(t) => {
            slot.text = t.as_str().to_owned();
            slot.class = "e";
        },
    }
    slot.style = cell.style;
    if let Some(f) = &cell.formula {
        let mut t: String = "=".to_owned();
        t.append(f.as_str());
        slot.title = Some(t);
    }
}

/// Another place of a table.
proof fn lemma_one_place(a: Seq<Vec<Slot>>, b: Seq<Vec<Slot>>, rows: int, cols: int, r: int, c: int)
    requires
        sized(a, rows, cols),
        0 <= r < rows,
        0 <= c < cols,
        b.len() == a.len(),
        forall|x: int| 0 <= x < rows && x != r ==> b[x] == a[x],
        b[r]@ == a[r]@.update(c, b[r]@[c]),
    ensures
        sized(b, rows, cols),
        forall|x: int, y: int|
            0 <= x < rows && 0 <= y < cols && !(x == r && y == c) ==> #[trigger] at(b, x, y) == at(
                a,
                x,
                y,
            ),
{
    assert forall|x: int| 0 <= x < rows implies (#[trigger] b[x])@.len() == cols by {
        assert(a[x]@.len() == cols);
        assert(a[r]@.len() == cols);
    }
    assert forall|x: int, y: int|
        0 <= x < rows && 0 <= y < cols && !(x == r && y == c) implies #[trigger] at(b, x, y) == at(
        a,
        x,
        y,
    ) by {
        if x == r {
            assert(b[r]@[y] == a[r]@[y]);
        }
    }
}

/// Lays cells out. Those that lie behind the rows or columns are left out.
fn place_cells(cells: &Vec<Cell>, rows: usize, cols: usize) -> (g: Vec<Vec<Slot>>)
    requires
        rows <= u32::MAX,
        cols <= u32::MAX,
    ensures
        sized(g@, rows as int, cols as int),
        forall|r: int, c: int|
            0 <= r < rows && 0 <= c < cols ==> #[trigger] at(g@, r, c) == spot_of_cells(
                cells@,
                r,
                c,
            ),
{
    let mut g: Vec<Vec<Slot>> = bare_grid(rows, cols);
    let ghost all = cells@;
    let mut k: usize = 0;
    assert(all.take(0) =~= Seq::<Cell>::empty());
    while k < cells.len()
        invariant
            k <= cells@.len(),
            all == cells@,
            sized(g@, rows as int, cols as int),
            forall|r: int, c: int|
                0 <= r < rows && 0 <= c < cols ==> #[trigger] at(g@, r, c) == spot_of_cells(
                    all.take(k as int),
                    r,
                    c,
                ),
        decreases cells@.len() - k,
    {
        let cell = &cells[k];
        proof {
            assert(all.take(k + 1).drop_last() =~= all.take(k as int));
            assert(all.take(k + 1).last() == *cell);
        }
        let r: usize = cell.at.row as usize;
        let c: usize = cell.at.col as usize;
        if r < rows && c < cols {
            let ghost before = g@;
            assert(g@[r as int]@.len() == cols);
            assert(at(before, r as int, c as int) == spot_of_cells(all.take(k as int), r as int, c as int));
            let line: &mut Vec<Slot> = &mut g[r];
            fill(&mut line[c], cell);
            proof {
                lemma_one_place(before, g@, rows as int, cols as int, r as int, c as int);
                assert forall|x: int, y: int|
                    0 <= x < rows && 0 <= y < cols implies #[trigger] at(g@, x, y)
                    == spot_of_cells(all.take(k + 1), x, y) by {
                    if !(x == r && y == c) {
                        assert(at(g@, x, y) == at(before, x, y));
                    }
                }
            }
        }
        k = k + 1;
    }
    assert(all.take(k as int) =~= all);
    g
}

/// Merges a range of cells.
fn merge(g: &mut Vec<Vec<Slot>>, m: &CellRange, rows: usize, cols: usize)
    requires
        sized(old(g)@, rows as int, cols as int),
        rows <= u32::MAX,
        cols <= u32::MAX,
    ensures
        sized(final(g)@, rows as int, cols as int),
        forall|r: int, c: int|
            0 <= r < rows && 0 <= c < cols ==> #[trigger] at(final(g)@, r, c) == merged(
                at(old(g)@, r, c),
                *m,
                rows as int,
                cols as int,
                r,
                c,
            ),
{
    let r0: usize = m.from.row as usize;
    let c0: usize = m.from.col as usize;
    if r0 >= rows || c0 >= cols {
        return;
    }
    let r1: usize = if (m.to.row as usize) < rows {
        m.to.row as usize
    } else {
        rows - 1
    };
    let c1: usize = if (m.to.col as usize) < cols {
        m.to.col as usize
    } else {
        cols - 1
    };
    let tall: u32 = if r0 <= r1 {
        (r1 - r0) as u32 + 1
    } else {
        1
    };
    let wide: u32 = if c0 <= c1 {
        (c1 - c0) as u32 + 1
    } else {
        1
    };
    let ghost start = g@;
    assert(g@[r0 as int]@.len() == cols);
    {
        let line: &mut Vec<Slot> = &mut g[r0];
        line[c0].span = Some((tall, wide));
    }
    proof {
        lemma_one_place(start, g@, rows as int, cols as int, r0 as int, c0 as int);
    }
    let mut r: usize = r0;
    while r <= r1
        invariant
            sized(g@, rows as int, cols as int),
            sized(start, rows as int, cols as int),
            r0 < rows,
            c0 < cols,
            r1 < rows,
            c1 < cols,
            r0 <= r,
            rows <= u32::MAX,
            cols <= u32::MAX,
            m.from.row == r0,
            m.from.col == c0,
            r1 == clamped(m.to.row, rows as int),
            c1 == clamped(m.to.col, cols as int),
            tall == width_of(r0 as int, r1 as int),
            wide == width_of(c0 as int, c1 as int),
            forall|x: int, y: int|
                0 <= x < rows && 0 <= y < cols ==> #[trigger] at(g@, x, y) == if x < r || (x == r0
                    && y == c0) {
                    merged(at(start, x, y), *m, rows as int, cols as int, x, y)
                } else {
                    at(start, x, y)
                },
        decreases r1 + 1 - r,
    {
        let mut c: usize = c0;
        while c <= c1
            invariant
                sized(g@, rows as int, cols as int),
                sized(start, rows as int, cols as int),
                r0 < rows,
                c0 < cols,
                r1 < rows,
                c1 < cols,
                r0 <= r <= r1,
                c0 <= c,
                rows <= u32::MAX,
                cols <= u32::MAX,
                m.from.row == r0,
                m.from.col == c0,
                r1 == clamped(m.to.row, rows as int),
                c1 == clamped(m.to.col, cols as int),
                tall == width_of(r0 as int, r1 as int),
                wide == width_of(c0 as int, c1 as int),
                forall|x: int, y: int|
                    0 <= x < rows && 0 <= y < cols ==> #[trigger] at(g@, x, y) == if x < r || (x
                        == r && y < c) || (x == r0 && y == c0) {
                        merged(at(start, x, y), *m, rows as int, cols as int, x, y)
                    } else {
                        at(start, x, y)
                    },
            decreases c1 + 1 - c,
        {
            if !(r == r0 && c == c0) {
                let ghost before = g@;
                assert(g@[r as int]@.len() == cols);
                assert(at(before, r as int, c as int) == at(start, r as int, c as int));
                {
                    let line: &mut Vec<Slot> = &mut g[r];
                    line[c].covered = true;
                }
                proof {
                    lemma_one_place(before, g@, rows as int, cols as int, r as int, c as int);
                    assert forall|x: int, y: int|
                        0 <= x < rows && 0 <= y < cols implies #[trigger] at(g@, x, y) == if x < r
                        || (x == r && y < c + 1) || (x == r0 && y == c0) {
                        merged(at(start, x, y), *m, rows as int, cols as int, x, y)
                    } else {
                        at(start, x, y)
                    } by {
                        if !(x == r && y == c) {
                            assert(at(g@, x, y) == at(before, x, y));
                        }
                    }
                }
            }
            c = c + 1;
        }
        r = r + 1;
    }
}

/// Lays a sheet out.
pub fn lay_out(cells: &Vec<Cell>, merges: &Vec<CellRange>, rows: usize, cols: usize) -> (g: Vec<
    Vec<Slot>,
>)
    requires
        rows <= u32::MAX,
        cols <= u32::MAX,
    ensures
        sized(g@, rows as int, cols as int),
        forall|r: int, c: int|
            0 <= r < rows && 0 <= c < cols ==> #[trigger] at(g@, r, c) == spot(
                cells@,
                merges@,
                rows as int,
                cols as int,
                r,
                c,
            ),
{
    let mut g: Vec<Vec<Slot>> = place_cells(cells, rows, cols);
    let ghost all = merges@;
    let mut k: usize = 0;
    assert(all.take(0) =~= Seq::<CellRange>::empty());
    while k < merges.len()
        invariant
            rows <= u32::MAX,
            cols <= u32::MAX,
            k <= merges@.len(),
            all == merges@,
            sized(g@, rows as int, cols as int),
            forall|r: int, c: int|
                0 <= r < rows && 0 <= c < cols ==> #[trigger] at(g@, r, c) == spot(
                    cells@,
                    all.take(k as int),
                    rows as int,
                    cols as int,
                    r,
                    c,
                ),
        decreases merges@.len() - k,
    {
        let ghost before = g@;
        proof {
            assert(all.take(k + 1).drop_last() =~= all.take(k as int));
            assert(all.take(k + 1).last() == merges@[k as int]);
        }
        merge(&mut g, &merges[k], rows, cols);
        proof {
            assert forall|r: int, c: int| 0 <= r < rows && 0 <= c < cols implies #[trigger] at(
                g@,
                r,
                c,
            ) == spot(cells@, all.take(k + 1), rows as int, cols as int, r, c) by {
                assert(at(before, r, c) == spot(
                    cells@,
                    all.take(k as int),
                    rows as int,
                    cols as int,
                    r,
                    c,
                ));
            }
        }
        k = k + 1;
    }
    assert(all.take(k as int) =~= all);
    g
}

/// The last row and column with a cell that is not blank; `None` when all are.
pub fn extent(cells: &Vec<Cell>) -> (r: Option<(u32, u32)>)
    ensures
        r == if all_blank(cells@) {
            None
        } else {
            Some((last_row(cells@), last_col(cells@)))
        },
{
    let ghost all = cells@;
    let mut row: u32 = 0;
    let mut col: u32 = 0;
    let mut any: bool = false;
    let mut k: usize = 0;
    assert(all.take(0) =~= Seq::<Cell>::empty());
    while k < cells.len()
        invariant
            k <= cells@.len(),
            all == cells@,
            row == last_row(all.take(k as int)),
            col == last_col(all.take(k as int)),
            !any ==> forall|i: int| 0 <= i < k ==> is_blank(#[trigger] all[i]),
            any ==> !all_blank(all),
        decreases cells@.len() - k,
    {
        let c = &cells[k];
        proof {
            assert(all.take(k + 1).drop_last() =~= all.take(k as int));
            assert(all.take(k + 1).last() == *c);
            assert(all[k as int] == *c);
        }
        let blank: bool = match c.value {
            CellValue::Empty => c.formula.is_none(),
            _ => false,
        };
        if !blank {
            any = true;
            if row < c.at.row {
                row = c.at.row;
            }
            if col < c.at.col {
                col = c.at.col;
            }
        }
        k = k + 1;
    }
    assert(all.take(k as int) =~= all);
    if any {
        Some((row, col))
    } else {
        None
    }
}

} // verus!
