//! What a page shows of a workbook.
use vstd::prelude::*;
use vstd::string::*;

verus! {

/// A cell of a sheet, by its row and its column, both from zero.
#[derive(Debug, Clone, Copy, PartialEq, Eq, Structural)]
pub struct CellPos {
    pub row: u32,
    pub col: u32,
}

/// A range of cells, with both corners.
#[derive(Debug, Clone, Copy, PartialEq, Eq, Structural)]
pub struct CellRange {
    pub from: CellPos,
    pub to: CellPos,
}

/// The value of a cell.
#[derive(Debug)]
pub enum CellValue {
    Empty,
    /// A number, as it is shown.
    Number(String),
    Text(String),
    Bool(bool),
    /// An error, as it is shown.
    Error(String),
}

/// A cell.
#[derive(Debug)]
pub struct Cell {
    pub at: CellPos,
    pub value: CellValue,
    /// The text of the formula, without `=`.
    pub formula: Option<String>,
    /// The index of the style.
    pub style: Option<u32>,
}

/// The widths of columns and the heights of rows that the sheet declares, in
/// pixels.
#[derive(Debug)]
pub struct SheetLayout {
    pub cols: Vec<Option<u32>>,
    pub rows: Vec<Option<u32>>,
}

/// How text stands in a cell from left to right.
#[derive(Debug, Clone, Copy, PartialEq, Eq, Structural)]
pub enum HAlign {
    General,
    Left,
    Center,
    Right,
    Justify,
}

/// How text stands in a cell from top to bottom.
#[derive(Debug, Clone, Copy, PartialEq, Eq, Structural)]
pub enum VAlign {
    Top,
    Center,
    Bottom,
}

/// A font. A colour is a number whose lower three bytes are red, green and blue.
#[derive(Debug)]
pub struct Font {
    pub bold: bool,
    pub italic: bool,
    pub underline: bool,
    pub strike: bool,
    /// The size in pixels.
    pub size: Option<u32>,
    pub name: Option<String>,
    pub color: Option<u32>,
}

/// A line of a border.
#[derive(Debug, Clone, Copy, PartialEq, Eq, Structural)]
pub enum BorderStyle {
    Absent,
    Hair,
    Thin,
    Medium,
    Thick,
    Double,
    Dashed,
    Dotted,
}

/// One side of a border.
#[derive(Debug, Clone, Copy, PartialEq, Eq, Structural)]
pub struct Edge {
    pub line: BorderStyle,
    pub color: Option<u32>,
}

/// The border of a cell.
#[derive(Debug)]
pub struct Borders {
    pub left: Edge,
    pub right: Edge,
    pub top: Edge,
    pub bottom: Edge,
}

/// How text stands in a cell.
#[derive(Debug, Clone, Copy, PartialEq, Eq, Structural)]
pub struct Alignment {
    pub h: HAlign,
    pub v: VAlign,
    /// Text goes on in the next line.
    pub wrap: bool,
}

/// A style of cells.
#[derive(Debug)]
pub struct Look {
    pub font: Option<Font>,
    /// The colour behind the text.
    pub fill: Option<u32>,
    pub borders: Option<Borders>,
    pub alignment: Option<Alignment>,
}

/// The styles of cells.
#[derive(Debug)]
pub struct Appearance {
    pub looks: Vec<Look>,
}

/// A sheet.
#[derive(Debug)]
pub struct Sheet {
    pub name: String,
    pub visible: bool,
    pub cells: Vec<Cell>,
    pub merges: Vec<CellRange>,
    pub layout: SheetLayout,
    /// The lines between cells are shown.
    pub grid: bool,
}

/// A workbook.
#[derive(Debug)]
pub struct Workbook {
    pub sheets: Vec<Sheet>,
    pub appearance: Option<Appearance>,
}

pub open spec fn text_of(t: Option<String>) -> Option<Seq<char>> {
    match t {
        Some(s) => Some(s@),
        None => None,
    }
}

/// The value of a list, or nothing behind its end.
pub open spec fn size_at(s: Seq<Option<u32>>, i: int) -> Option<u32> {
    if 0 <= i < s.len() {
        s[i]
    } else {
        None
    }
}

/// The value of a list, or nothing behind its end.
pub fn size_of_line(s: &Vec<Option<u32>>, i: usize) -> (r: Option<u32>)
    ensures
        r == size_at(s@, i as int),
{
    if i < s.len() {
        s[i]
    } else {
        None
    }
}

} // verus!
