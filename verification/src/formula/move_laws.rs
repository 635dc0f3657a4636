//! What edits of a sheet and moves of a formula mean for the cells that a
//! reference stands for.
use vstd::prelude::*;

use crate::formula::refs;
use crate::formula::refs::{Axis, CellRef, Edit, RefBody, Shift};

verus! {

/// A number lies between two others, whichever of these is the greater one.
pub open spec fn between(a: int, x: int, b: int) -> bool {
    a <= x <= b || b <= x <= a
}

/// The ends of a reference along an axis; none where it goes over the whole
/// sheet there, or stands for nothing.
pub open spec fn ends(b: RefBody, axis: Axis) -> Option<(int, int)> {
    match (b, axis) {
        (RefBody::Cell(c), Axis::Rows) => Some((c.row as int, c.row as int)),
        (RefBody::Cell(c), Axis::Cols) => Some((c.col as int, c.col as int)),
        (RefBody::Area { from, to }, Axis::Rows) => Some((from.row as int, to.row as int)),
        (RefBody::Area { from, to }, Axis::Cols) => Some((from.col as int, to.col as int)),
        (RefBody::Cols { from, to }, Axis::Cols) => Some((from.idx as int, to.idx as int)),
        (RefBody::Rows { from, to }, Axis::Rows) => Some((from.idx as int, to.idx as int)),
        _ => None,
    }
}

/// The other axis.
pub open spec fn across(axis: Axis) -> Axis {
    match axis {
        Axis::Rows => Axis::Cols,
        Axis::Cols => Axis::Rows,
    }
}

/// The last row or column of a sheet.
pub open spec fn last_line(axis: Axis) -> int {
    match axis {
        Axis::Rows => 1_048_575,
        Axis::Cols => 16_383,
    }
}

/// References of one kind, with the same dollars.
pub open spec fn same_form(a: RefBody, b: RefBody) -> bool {
    match (a, b) {
        (RefBody::Invalid, RefBody::Invalid) => true,
        (RefBody::Cell(x), RefBody::Cell(y)) => x.col_abs == y.col_abs && x.row_abs == y.row_abs,
        (RefBody::Area { from: f, to: t }, RefBody::Area { from: g, to: u }) => f.col_abs
            == g.col_abs && f.row_abs == g.row_abs && t.col_abs == u.col_abs && t.row_abs
            == u.row_abs,
        (RefBody::Cols { from: f, to: t }, RefBody::Cols { from: g, to: u }) => f.abs == g.abs
            && t.abs == u.abs,
        (RefBody::Rows { from: f, to: t }, RefBody::Rows { from: g, to: u }) => f.abs == g.abs
            && t.abs == u.abs,
        _ => false,
    }
}

/// Where a row or a column comes to lie when `count` are deleted from `at` on.
pub open spec fn after_deletion(i: int, at: int, count: int) -> int {
    if i < at {
        i
    } else {
        i - count
    }
}

/// The ends of a range after a deletion hold what is left of it between them.
proof fn lemma_span_left(a: nat, b: nat, e: Edit)
    requires
        !e.insert,
        e.at + e.count <= u32::MAX,
    ensures
        match refs::moved_ends(a, b, e) {
            Some((x, y)) => {
                &&& x <= a && y <= b
                &&& a <= b ==> x <= y
                &&& b <= a ==> y <= x
                &&& forall|i: int|
                    between(a as int, i, b as int) && !(e.at <= i < e.at + e.count) ==> between(
                        x as int,
                        #[trigger] after_deletion(i, e.at as int, e.count as int),
                        y as int,
                    )
                &&& forall|j: int| #[trigger]
                    between(x as int, j, y as int) ==> {
                        let i = if j < e.at {
                            j
                        } else {
                            j + e.count
                        };
                        between(a as int, i, b as int) && !(e.at <= i < e.at + e.count)
                    }
            },
            None => forall|i: int| #[trigger]
                between(a as int, i, b as int) ==> e.at <= i < e.at + e.count,
        },
{
}

/// After a deletion a reference stands for exactly what is left of it: every
/// cell that is not deleted is found where it comes to lie, and every cell of
/// the new reference is such a one. The reference is broken only when nothing
/// is left of it, and keeps its form and the order of its ends.
pub proof fn lemma_deletion_keeps_what_is_left(b: RefBody, axis: Axis, at: u32, count: u32)
    requires
        refs::on_grid(b),
        at + count <= u32::MAX,
    ensures
        ({
            let r = refs::shifted(b, axis, Shift::plain(axis, at, count, false).edit());
            &&& r is Invalid || same_form(r, b)
            &&& ends(b, across(axis)) is Some && !(r is Invalid) ==> ends(r, across(axis)) == ends(
                b,
                across(axis),
            )
            &&& match ends(b, axis) {
                None => r == b,
                Some((p, q)) => match ends(r, axis) {
                    None => r is Invalid && forall|i: int| #[trigger]
                        between(p, i, q) ==> at <= i < at + count,
                    Some((x, y)) => {
                        &&& p <= q ==> x <= y
                        &&& q <= p ==> y <= x
                        &&& forall|i: int|
                            between(p, i, q) && !(at <= i < at + count) ==> between(
                                x,
                                #[trigger] after_deletion(i, at as int, count as int),
                                y,
                            )
                        &&& forall|j: int| #[trigger]
                            between(x, j, y) ==> exists|i: int| #[trigger]
                                after_deletion(i, at as int, count as int) == j && between(p, i, q)
                                    && !(at <= i < at + count)
                    },
                },
            }
        }),
{
    let e = Shift::plain(axis, at, count, false).edit();
    let r = refs::shifted(b, axis, e);
    if let Some((p, q)) = ends(b, axis) {
        lemma_span_left(p as nat, q as nat, e);
        if let RefBody::Cell(c) = b {
            assert(refs::moved_ends(p as nat, q as nat, e) is Some == refs::moved_index(
                p as nat,
                e,
            ) is Some);
        }
        if let Some((x, y)) = ends(r, axis) {
            assert forall|j: int| #[trigger] between(x, j, y) implies exists|i: int| #[trigger]
                after_deletion(i, at as int, count as int) == j && between(p, i, q) && !(at <= i
                    < at + count) by {
                let i = if j < at {
                    j
                } else {
                    j + count
                };
                assert(after_deletion(i, at as int, count as int) == j);
            }
        } else {
            assert forall|i: int| #[trigger] between(p, i, q) implies at <= i < at + count by {}
        }
    }
}

/// Where a row or a column comes to lie when `count` are inserted before `at`.
pub open spec fn after_insertion(i: int, at: int, count: int) -> int {
    if i < at {
        i
    } else {
        i + count
    }
}

/// After an insertion a reference stands for the cells for which it stood, where
/// these come to lie, and for what was inserted between two of them. It is
/// broken only when one of its ends would leave the sheet, and keeps its form
/// and the order of its ends.
pub proof fn lemma_insertion_keeps_all(b: RefBody, axis: Axis, at: u32, count: u32)
    requires
        refs::on_grid(b),
        at + count <= u32::MAX,
    ensures
        ({
            let r = refs::shifted(b, axis, Shift::plain(axis, at, count, true).edit());
            &&& r is Invalid || same_form(r, b)
            &&& ends(b, across(axis)) is Some && !(r is Invalid) ==> ends(r, across(axis)) == ends(
                b,
                across(axis),
            )
            &&& match ends(b, axis) {
                None => r == b,
                Some((p, q)) => match ends(r, axis) {
                    None => r is Invalid && ((at <= p && p + count > last_line(axis)) || (at <= q
                        && q + count > last_line(axis))),
                    Some((x, y)) => {
                        &&& x <= last_line(axis) && y <= last_line(axis)
                        &&& x == after_insertion(p, at as int, count as int)
                        &&& y == after_insertion(q, at as int, count as int)
                    },
                },
            }
        }),
{
}

/// An edit that would count its rows or columns past all numbers breaks what
/// lies along its axis.
pub proof fn lemma_endless_edit_breaks(b: RefBody, axis: Axis, at: u32, count: u32, insert: bool)
    requires
        at + count > u32::MAX,
    ensures
        refs::shifted(b, axis, Shift::plain(axis, at, count, insert).edit()) == match ends(b, axis) {
            Some(_) => RefBody::Invalid,
            None => b,
        },
{
}

/// A coordinate after a formula was moved by `d`: it stays with a dollar, and
/// follows without one.
pub open spec fn follows(old: u32, new: u32, fixed: bool, d: int) -> bool {
    if fixed {
        new == old
    } else {
        new == old + d
    }
}

/// A coordinate that follows stays on the sheet.
pub open spec fn stays_on(old: u32, fixed: bool, d: int, last: int) -> bool {
    fixed || 0 <= old + d <= last
}

pub open spec fn cell_follows(old: CellRef, new: CellRef, d_col: int, d_row: int) -> bool {
    &&& follows(old.col, new.col, old.col_abs, d_col)
    &&& follows(old.row, new.row, old.row_abs, d_row)
}

pub open spec fn cell_stays_on(c: CellRef, d_col: int, d_row: int) -> bool {
    stays_on(c.col, c.col_abs, d_col, 16_383) && stays_on(c.row, c.row_abs, d_row, 1_048_575)
}

/// A formula that is copied takes its references along: each coordinate of each
/// end without a dollar is the old one plus the way of the formula, in columns
/// for a column and in rows for a row; what has a dollar keeps its number. A
/// reference is broken exactly when a coordinate would leave the sheet.
pub proof fn lemma_copy_moves_each_end(b: RefBody, d_col: i64, d_row: i64)
    ensures
        ({
            let r = refs::translated(b, d_col, d_row);
            &&& r is Invalid || same_form(r, b)
            &&& match b {
                RefBody::Invalid => r is Invalid,
                RefBody::Cell(c) => match r {
                    RefBody::Cell(n) => cell_follows(c, n, d_col as int, d_row as int)
                        && cell_stays_on(c, d_col as int, d_row as int),
                    _ => !cell_stays_on(c, d_col as int, d_row as int),
                },
                RefBody::Area { from, to } => match r {
                    RefBody::Area { from: f, to: t } => {
                        &&& cell_follows(from, f, d_col as int, d_row as int)
                        &&& cell_follows(to, t, d_col as int, d_row as int)
                        &&& cell_stays_on(from, d_col as int, d_row as int)
                        &&& cell_stays_on(to, d_col as int, d_row as int)
                    },
                    _ => !cell_stays_on(from, d_col as int, d_row as int) || !cell_stays_on(
                        to,
                        d_col as int,
                        d_row as int,
                    ),
                },
                RefBody::Cols { from, to } => match r {
                    RefBody::Cols { from: f, to: t } => {
                        &&& follows(from.idx, f.idx, from.abs, d_col as int)
                        &&& follows(to.idx, t.idx, to.abs, d_col as int)
                        &&& stays_on(from.idx, from.abs, d_col as int, 16_383)
                        &&& stays_on(to.idx, to.abs, d_col as int, 16_383)
                    },
                    _ => !stays_on(from.idx, from.abs, d_col as int, 16_383) || !stays_on(
                        to.idx,
                        to.abs,
                        d_col as int,
                        16_383,
                    ),
                },
                RefBody::Rows { from, to } => match r {
                    RefBody::Rows { from: f, to: t } => {
                        &&& follows(from.idx, f.idx, from.abs, d_row as int)
                        &&& follows(to.idx, t.idx, to.abs, d_row as int)
                        &&& stays_on(from.idx, from.abs, d_row as int, 1_048_575)
                        &&& stays_on(to.idx, to.abs, d_row as int, 1_048_575)
                    },
                    _ => !stays_on(from.idx, from.abs, d_row as int, 1_048_575) || !stays_on(
                        to.idx,
                        to.abs,
                        d_row as int,
                        1_048_575,
                    ),
                },
            }
        }),
{
}

} // verus!
