//! A1 references: model, printing, and what structural edits do to them.
//!
//! A dollar before the letters fixes the column, one before the digits the
//! row, each by itself: `A1`, `$A1`, `A$1` and `$A$1` are four things.
//!
//! Two operations follow opposite rules about the dollar. [`Reference::shift`]
//! is an edit of the sheet, and the dollar does not stop it: after a row was
//! inserted above, `$A$5` is `$A$6`. [`Reference::translate`] moves the formula
//! itself, and the dollar holds.
//!
//! Indices are counted from zero. What leaves the sheet or is deleted becomes
//! [`RefBody::Invalid`], which is written `#REF!`.
use vstd::prelude::*;
use vstd::string::*;

use crate::text;

verus! {

/// The greatest column: `XFD`.
pub const MAX_COL: u32 = 16_383;

/// The greatest row.
pub const MAX_ROW: u32 = 1_048_575;

/// A reference to one cell.
#[derive(Debug, Clone, Copy, PartialEq, Eq, Hash, Structural)]
pub struct CellRef {
    pub col: u32,
    pub row: u32,
    /// A dollar stands before the letters.
    pub col_abs: bool,
    /// A dollar stands before the digits.
    pub row_abs: bool,
}

/// One end of an open range: the number of a row or column, with its dollar.
#[derive(Debug, Clone, Copy, PartialEq, Eq, Hash, Structural)]
pub struct Line {
    pub idx: u32,
    pub abs: bool,
}

/// What stands behind the `!`.
#[derive(Debug, Clone, Copy, PartialEq, Eq, Hash, Structural)]
pub enum RefBody {
    /// `#REF!`: what was referred to is gone.
    Invalid,
    /// One cell.
    Cell(CellRef),
    /// A rectangle: `A1:B2`.
    Area { from: CellRef, to: CellRef },
    /// Whole columns: `A:A`.
    Cols { from: Line, to: Line },
    /// Whole rows: `1:1`.
    Rows { from: Line, to: Line },
}

/// What stands before the `!`.
#[derive(Debug, Clone, PartialEq, Eq, Hash)]
pub struct SheetPrefix {
    /// An outside workbook with its brackets, and the path before them.
    pub book: Option<String>,
    /// The name of the sheet, without quotes.
    pub first: String,
    /// The second sheet of `Sheet1:Sheet3!A1`.
    pub last: Option<String>,
    /// The prefix stands in quotes. Kept and not computed: the quotes are not
    /// only there where they are needed.
    pub quoted: bool,
}

/// A reference: a sheet, where one is named, and a body.
#[derive(Debug, Clone, PartialEq, Eq, Hash)]
pub struct Reference {
    pub sheet: Option<Box<SheetPrefix>>,
    pub body: RefBody,
}

/// The texts of a prefix.
pub struct PrefixText {
    pub book: Option<Seq<char>>,
    pub first: Seq<char>,
    pub last: Option<Seq<char>>,
    pub quoted: bool,
}

/// A reference as text and numbers.
pub struct RefText {
    pub sheet: Option<PrefixText>,
    pub body: RefBody,
}

pub open spec fn opt_text(s: Option<String>) -> Option<Seq<char>> {
    match s {
        Some(t) => Some(t@),
        None => None,
    }
}

impl SheetPrefix {
    pub open spec fn view(&self) -> PrefixText {
        PrefixText {
            book: opt_text(self.book),
            first: self.first@,
            last: opt_text(self.last),
            quoted: self.quoted,
        }
    }
}

fn text_copy(s: &Option<String>) -> (r: Option<String>)
    ensures
        opt_text(r) == opt_text(*s),
{
    match s {
        Some(t) => Some(t.as_str().to_owned()),
        None => None,
    }
}

impl SheetPrefix {
    /// The same prefix once more.
    fn copy(&self) -> (r: Self)
        ensures
            r@ == self@,
    {
        SheetPrefix {
            book: text_copy(&self.book),
            first: self.first.as_str().to_owned(),
            last: text_copy(&self.last),
            quoted: self.quoted,
        }
    }
}

impl Reference {
    /// The same reference once more.
    pub(crate) fn copy(&self) -> (r: Self)
        ensures
            r@ == self@,
    {
        let sheet: Option<Box<SheetPrefix>> = match &self.sheet {
            Some(p) => Some(Box::new(p.copy())),
            None => None,
        };
        Reference { sheet, body: self.body }
    }

    pub open spec fn view(&self) -> RefText {
        RefText {
            sheet: match self.sheet {
                Some(p) => Some(p@),
                None => None,
            },
            body: self.body,
        }
    }
}

/// The letter of a digit of a column name.
pub open spec fn letter(d: nat) -> char {
    (65 + d) as char
}

/// The name of column `i`, cut to its last `n` letters. There is no zero among
/// the letters: `Z` is followed by `AA`.
pub open spec fn letters(i: nat, n: nat) -> Seq<char>
    decreases n,
{
    if i < 26 || n <= 1 {
        seq![letter(i % 26)]
    } else {
        letters((i / 26 - 1) as nat, (n - 1) as nat).push(letter(i % 26))
    }
}

/// The name of column `i`, three letters at most.
pub open spec fn col_text(i: nat) -> Seq<char> {
    letters(i, 3)
}

/// The number of a row as it is written.
pub open spec fn row_text(i: nat) -> Seq<char> {
    text::decimal(
        if i < u32::MAX {
            i + 1
        } else {
            i
        },
    )
}

/// A dollar, where there is one.
pub open spec fn dollar(abs: bool) -> Seq<char> {
    if abs {
        seq!['$']
    } else {
        Seq::empty()
    }
}

pub open spec fn cell_text(c: CellRef) -> Seq<char> {
    dollar(c.col_abs) + col_text(c.col as nat) + dollar(c.row_abs) + row_text(c.row as nat)
}

pub open spec fn body_text(b: RefBody) -> Seq<char> {
    match b {
        RefBody::Invalid => seq!['#', 'R', 'E', 'F', '!'],
        RefBody::Cell(c) => cell_text(c),
        RefBody::Area { from, to } => cell_text(from) + seq![':'] + cell_text(to),
        RefBody::Cols { from, to } => dollar(from.abs) + col_text(from.idx as nat) + seq![':']
            + dollar(to.abs) + col_text(to.idx as nat),
        RefBody::Rows { from, to } => dollar(from.abs) + row_text(from.idx as nat) + seq![':']
            + dollar(to.abs) + row_text(to.idx as nat),
    }
}

/// `s` with every quote doubled.
pub open spec fn doubled(s: Seq<char>, q: char) -> Seq<char>
    decreases s.len(),
{
    if s.len() == 0 {
        Seq::empty()
    } else if s.last() == q {
        doubled(s.drop_last(), q).push(q).push(q)
    } else {
        doubled(s.drop_last(), q).push(s.last())
    }
}

/// The text of a sheet name; an apostrophe is doubled inside apostrophes.
pub open spec fn name_text(s: Seq<char>, quoted: bool) -> Seq<char> {
    if quoted {
        doubled(s, '\'')
    } else {
        s
    }
}

pub open spec fn quote_text(quoted: bool) -> Seq<char> {
    if quoted {
        seq!['\'']
    } else {
        Seq::empty()
    }
}

pub open spec fn prefix_text(p: PrefixText) -> Seq<char> {
    quote_text(p.quoted) + (match p.book {
        Some(b) => name_text(b, p.quoted),
        None => Seq::empty(),
    }) + name_text(p.first, p.quoted) + (match p.last {
        Some(l) => seq![':'] + name_text(l, p.quoted),
        None => Seq::empty(),
    }) + quote_text(p.quoted) + seq!['!']
}

/// The text of a reference.
pub open spec fn ref_text(r: RefText) -> Seq<char> {
    (match r.sheet {
        Some(p) => prefix_text(p),
        None => Seq::empty(),
    }) + body_text(r.body)
}

impl CellRef {
    /// A relative reference.
    #[must_use]
    pub fn new(col: u32, row: u32) -> (r: Self)
        ensures
            r == (CellRef { col, row, col_abs: false, row_abs: false }),
    {
        CellRef { col, row, col_abs: false, row_abs: false }
    }

    /// The same cell with both dollars.
    #[must_use]
    pub fn absolute(self) -> (r: Self)
        ensures
            r == (CellRef { col_abs: true, row_abs: true, ..self }),
    {
        CellRef { col: self.col, row: self.row, col_abs: true, row_abs: true }
    }

    fn write(self, out: &mut String)
        ensures
            final(out)@ == old(out)@ + cell_text(self),
    {
        push_dollar(self.col_abs, out);
        write_col(self.col, out);
        push_dollar(self.row_abs, out);
        write_row(self.row, out);
        assert(out@ =~= old(out)@ + cell_text(self));
    }
}

impl Line {
    #[must_use]
    pub fn new(idx: u32) -> (r: Self)
        ensures
            r == (Line { idx, abs: false }),
    {
        Line { idx, abs: false }
    }
}

fn push_dollar(abs: bool, out: &mut String)
    ensures
        final(out)@ == old(out)@ + dollar(abs),
{
    if abs {
        out.push('$');
    }
    assert(out@ =~= old(out)@ + dollar(abs));
}

fn write_row(idx: u32, out: &mut String)
    ensures
        final(out)@ == old(out)@ + row_text(idx as nat),
{
    text::push_decimal(out, idx.saturating_add(1) as u64);
}

/// Appends the name of a column: 0 is `A`, 26 is `AA`, 16383 is `XFD`. A name
/// of more than three letters is cut to its last three.
pub fn write_col(idx: u32, out: &mut String)
    ensures
        final(out)@ == old(out)@ + col_text(idx as nat),
{
    write_letters(idx, 3, out);
}

fn write_letters(idx: u32, n: u32, out: &mut String)
    ensures
        final(out)@ == old(out)@ + letters(idx as nat, n as nat),
    decreases n,
{
    if idx >= 26 && n > 1 {
        write_letters(idx / 26 - 1, n - 1, out);
    }
    let c: char = (65 + (idx % 26) as u8) as char;
    out.push(c);
    assert(out@ =~= old(out)@ + letters(idx as nat, n as nat));
}

/// The place of a letter in the alphabet, from 1; zero for anything else.
pub open spec fn letter_value(c: char) -> nat {
    if 'A' <= c <= 'Z' {
        (c as u32 - 64) as nat
    } else if 'a' <= c <= 'z' {
        (c as u32 - 96) as nat
    } else {
        0
    }
}

pub open spec fn all_letters(s: Seq<char>) -> bool {
    forall|i: int| 0 <= i < s.len() ==> letter_value(#[trigger] s[i]) > 0
}

/// The number that letters spell, from 1.
pub open spec fn col_value(s: Seq<char>) -> nat
    decreases s.len(),
{
    if s.len() == 0 {
        0
    } else {
        col_value(s.drop_last()) * 26 + letter_value(s.last())
    }
}

/// The column of a name: one to three letters of either case, `XFD` at most.
pub open spec fn col_of(s: Seq<char>) -> Option<u32> {
    if 1 <= s.len() <= 3 && all_letters(s) && col_value(s) <= MAX_COL + 1 {
        Some((col_value(s) - 1) as u32)
    } else {
        None
    }
}

/// The place of a letter in the alphabet, from 1; zero for anything else.
fn letter_place(c: char) -> (r: u32)
    ensures
        r == letter_value(c),
        r <= 26,
{
    if 'A' <= c && c <= 'Z' {
        c as u32 - 64
    } else if 'a' <= c && c <= 'z' {
        c as u32 - 96
    } else {
        0
    }
}

/// The column of a name; `None` when it is none, or beyond `XFD`.
#[must_use]
pub fn col_from_name(name: &str) -> (r: Option<u32>)
    ensures
        r == col_of(name@),
{
    let cs = text::chars_of(name);
    col_from_chars(cs.as_slice())
}

/// The column of a name; `None` when it is none, or beyond `XFD`.
pub fn col_from_chars(cs: &[char]) -> (r: Option<u32>)
    ensures
        r == col_of(cs@),
{
    if cs.len() == 0 || cs.len() > 3 {
        return None;
    }
    let mut v: u32 = 0;
    let mut i: usize = 0;
    assert(cs@.take(0) =~= Seq::<char>::empty());
    while i < cs.len()
        invariant
            i <= cs@.len() <= 3,
            v == col_value(cs@.take(i as int)),
            i == 0 ==> v == 0,
            i == 1 ==> v <= 26,
            i == 2 ==> v <= 702,
            i == 3 ==> v <= 18278,
            i > 0 ==> v > 0,
            all_letters(cs@.take(i as int)),
        decreases cs@.len() - i,
    {
        let d: u32 = letter_place(cs[i]);
        assert(cs@.take(i + 1).drop_last() =~= cs@.take(i as int));
        if d == 0 {
            assert(letter_value(cs@[i as int]) == 0);
            return None;
        }
        v = v * 26 + d;
        i = i + 1;
    }
    assert(cs@.take(i as int) =~= cs@);
    if v <= MAX_COL + 1 {
        Some(v - 1)
    } else {
        None
    }
}

impl SheetPrefix {
    /// A prefix of a sheet name alone.
    #[must_use]
    pub fn plain(name: &str) -> (r: Self)
        ensures
            r@ == (PrefixText { book: None, first: name@, last: None, quoted: false }),
    {
        SheetPrefix { book: None, first: name.to_owned(), last: None, quoted: false }
    }

    /// The number of the outside workbook in a prefix of the form `[N]`.
    #[must_use]
    pub fn book_index(&self) -> (r: Option<u32>)
        ensures
            r == match self@.book {
                None => None,
                Some(b) => bracketed_number(b),
            },
    {
        match &self.book {
            None => None,
            Some(b) => {
                let cs = text::chars_of(b.as_str());
                let n: usize = cs.len();
                if n < 2 || cs[0] != '[' || cs[n - 1] != ']' {
                    return None;
                }
                parse_unsigned(vstd::slice::slice_subrange(cs.as_slice(), 1, n - 1))
            },
        }
    }

    /// Whether the prefix names the sheet: as its only sheet, or as one of the
    /// two ends of a span of sheets.
    #[must_use]
    pub fn mentions(&self, sheet: &str) -> (r: bool)
        ensures
            r == (self@.first == sheet@ || self@.last == Some(sheet@)),
    {
        if text::same_text(self.first.as_str(), sheet) {
            return true;
        }
        match &self.last {
            Some(l) => text::same_text(l.as_str(), sheet),
            None => false,
        }
    }

    fn write(&self, out: &mut String)
        ensures
            final(out)@ == old(out)@ + prefix_text(self@),
    {
        push_quote(self.quoted, out);
        if let Some(b) = &self.book {
            push_sheet_name(b.as_str(), self.quoted, out);
        }
        push_sheet_name(self.first.as_str(), self.quoted, out);
        if let Some(l) = &self.last {
            out.push(':');
            push_sheet_name(l.as_str(), self.quoted, out);
        }
        push_quote(self.quoted, out);
        out.push('!');
        assert(out@ =~= old(out)@ + prefix_text(self@));
    }
}

pub open spec fn all_digits(s: Seq<char>) -> bool {
    forall|i: int| 0 <= i < s.len() ==> text::is_digit(#[trigger] s[i])
}

/// The number that decimal digits spell.
pub open spec fn digits_value(s: Seq<char>) -> nat
    decreases s.len(),
{
    if s.len() == 0 {
        0
    } else {
        digits_value(s.drop_last()) * 10 + (s.last() as u32 - 48) as nat
    }
}

/// Decimal digits with at least one among them, where the number fits into
/// 32 bits; one plus sign may stand before them.
pub open spec fn unsigned_number(s: Seq<char>) -> Option<u32> {
    let d = if s.len() > 0 && s[0] == '+' {
        s.skip(1)
    } else {
        s
    };
    if d.len() > 0 && all_digits(d) && digits_value(d) <= u32::MAX {
        Some(digits_value(d) as u32)
    } else {
        None
    }
}

/// The number in `[N]`.
pub open spec fn bracketed_number(s: Seq<char>) -> Option<u32> {
    if s.len() >= 2 && s[0] == '[' && s.last() == ']' {
        unsigned_number(s.subrange(1, s.len() - 1))
    } else {
        None
    }
}

/// A number is no smaller than the one that its first digits spell.
pub proof fn lemma_digits_prefix(s: Seq<char>, n: int)
    requires
        0 <= n <= s.len(),
    ensures
        all_digits(s) ==> digits_value(s.take(n)) <= digits_value(s),
    decreases s.len(),
{
    if n < s.len() {
        if all_digits(s) {
            assert forall|i: int| 0 <= i < s.len() - 1 implies text::is_digit(
                #[trigger] s.drop_last()[i],
            ) by {
                assert(text::is_digit(s[i]));
            }
            assert(text::is_digit(s[s.len() - 1]));
        }
        lemma_digits_prefix(s.drop_last(), n);
        assert(s.drop_last().take(n) =~= s.take(n));
    } else {
        assert(s.take(n) =~= s);
    }
}

/// The number that decimal digits spell.
fn parse_unsigned(cs: &[char]) -> (r: Option<u32>)
    ensures
        r == unsigned_number(cs@),
{
    let n: usize = cs.len();
    let from: usize = if n > 0 && cs[0] == '+' {
        1
    } else {
        0
    };
    let ghost digits = if from == 1 {
        cs@.skip(1)
    } else {
        cs@
    };
    if from == n {
        return None;
    }
    let mut v: u32 = 0;
    let mut i: usize = from;
    assert(digits.take(0) =~= Seq::<char>::empty());
    while i < n
        invariant
            from <= i <= n,
            from <= 1,
            n == cs@.len(),
            n > from,
            from == 1 <==> cs@[0] == '+',
            digits == (if from == 1 {
                cs@.skip(1)
            } else {
                cs@
            }),
            v == digits_value(digits.take(i - from)),
            all_digits(digits.take(i - from)),
        decreases n - i,
    {
        let c: char = cs[i];
        assert(digits[i - from] == c);
        assert(digits.take(i + 1 - from).drop_last() =~= digits.take(i - from));
        if !('0' <= c && c <= '9') {
            assert(!text::is_digit(digits[i - from]));
            return None;
        }
        let d: u32 = c as u32 - 48;
        proof {
            lemma_digits_prefix(digits, i + 1 - from);
        }
        if v > (u32::MAX - d) / 10 {
            return None;
        }
        v = v * 10 + d;
        i = i + 1;
    }
    assert(digits.take(i - from) =~= digits);
    Some(v)
}

fn push_quote(quoted: bool, out: &mut String)
    ensures
        final(out)@ == old(out)@ + quote_text(quoted),
{
    if quoted {
        out.push('\'');
    }
    assert(out@ =~= old(out)@ + quote_text(quoted));
}

/// Appends `s` with every `q` doubled.
pub(crate) fn push_doubled(s: &str, q: char, out: &mut String)
    ensures
        final(out)@ == old(out)@ + doubled(s@, q),
{
    let cs = text::chars_of(s);
    let mut i: usize = 0;
    assert(cs@.take(0) =~= Seq::<char>::empty());
    assert(old(out)@ + doubled(cs@.take(0), q) =~= old(out)@);
    while i < cs.len()
        invariant
            i <= cs@.len(),
            out@ == old(out)@ + doubled(cs@.take(i as int), q),
        decreases cs@.len() - i,
    {
        let c: char = cs[i];
        assert(cs@.take(i + 1).drop_last() =~= cs@.take(i as int));
        if c == q {
            out.push(q);
        }
        out.push(c);
        i = i + 1;
        assert(out@ =~= old(out)@ + doubled(cs@.take(i as int), q));
    }
    assert(cs@.take(i as int) =~= cs@);
}

fn push_sheet_name(name: &str, quoted: bool, out: &mut String)
    ensures
        final(out)@ == old(out)@ + name_text(name@, quoted),
{
    if quoted {
        push_doubled(name, '\'', out);
    } else {
        out.append(name);
    }
}

impl RefBody {
    #[verifier::spinoff_prover]
    fn write(&self, out: &mut String)
        ensures
            final(out)@ == old(out)@ + body_text(*self),
    {
        match *self {
            RefBody::Invalid => {
                proof {
                    reveal_strlit("#REF!");
                }
                out.append("#REF!");
                assert("#REF!"@ =~= seq!['#', 'R', 'E', 'F', '!']);
            },
            RefBody::Cell(c) => c.write(out),
            RefBody::Area { from, to } => {
                from.write(out);
                out.push(':');
                to.write(out);
                assert(out@ =~= old(out)@ + (cell_text(from) + seq![':'] + cell_text(to)));
            },
            RefBody::Cols { from, to } => write_cols(from, to, out),
            RefBody::Rows { from, to } => write_rows(from, to, out),
        }
    }
}

fn write_cols(from: Line, to: Line, out: &mut String)
    ensures
        final(out)@ == old(out)@ + body_text(RefBody::Cols { from, to }),
{
    push_dollar(from.abs, out);
    write_col(from.idx, out);
    out.push(':');
    push_dollar(to.abs, out);
    write_col(to.idx, out);
    assert(out@ =~= old(out)@ + body_text(RefBody::Cols { from, to }));
}

fn write_rows(from: Line, to: Line, out: &mut String)
    ensures
        final(out)@ == old(out)@ + body_text(RefBody::Rows { from, to }),
{
    push_dollar(from.abs, out);
    write_row(from.idx, out);
    out.push(':');
    push_dollar(to.abs, out);
    write_row(to.idx, out);
    assert(out@ =~= old(out)@ + body_text(RefBody::Rows { from, to }));
}

impl Reference {
    /// A reference to the sheet of the formula.
    #[must_use]
    pub fn local(body: RefBody) -> (r: Self)
        ensures
            r@ == (RefText { sheet: None, body }),
    {
        Reference { sheet: None, body }
    }

    /// A reference to a named sheet.
    #[must_use]
    pub fn on_sheet(sheet: SheetPrefix, body: RefBody) -> (r: Self)
        ensures
            r@ == (RefText { sheet: Some(sheet@), body }),
    {
        Reference { sheet: Some(Box::new(sheet)), body }
    }

    /// A reference to one cell of the sheet of the formula.
    #[must_use]
    pub fn cell(col: u32, row: u32) -> (r: Self)
        ensures
            r@ == (RefText {
                sheet: None,
                body: RefBody::Cell(CellRef { col, row, col_abs: false, row_abs: false }),
            }),
    {
        Reference::local(RefBody::Cell(CellRef::new(col, row)))
    }

    /// The reference is broken.
    #[must_use]
    pub fn is_invalid(&self) -> (r: bool)
        ensures
            r == (self@.body is Invalid),
    {
        match self.body {
            RefBody::Invalid => true,
            _ => false,
        }
    }

    /// Appends the reference as text.
    pub fn write(&self, out: &mut String)
        ensures
            final(out)@ == old(out)@ + ref_text(self@),
    {
        if let Some(s) = &self.sheet {
            s.write(out);
        }
        self.body.write(out);
        assert(out@ =~= old(out)@ + ref_text(self@));
    }

    /// The reference as text.
    #[must_use]
    pub fn to_string(&self) -> (r: String)
        ensures
            r@ == ref_text(self@),
    {
        let mut s: String = String::new();
        self.write(&mut s);
        assert(s@ =~= ref_text(self@));
        s
    }
}

/// Along which axis a sheet is edited.
#[derive(Debug, Clone, Copy, PartialEq, Eq, Structural)]
pub enum Axis {
    Rows,
    Cols,
}

/// Rows or columns inserted or deleted.
///
/// A reference without a sheet name points at the sheet of its formula, which
/// is not always the one that is edited: `local` tells.
#[derive(Debug, Clone, Copy, PartialEq, Eq)]
pub struct Shift<'a> {
    pub axis: Axis,
    /// The first row or column concerned.
    pub at: u32,
    /// How many are inserted or deleted.
    pub count: u32,
    /// Whether they are inserted.
    pub insert: bool,
    /// The name of the edited sheet: references to it by name move too. `None`
    /// leaves references with a sheet name alone.
    pub sheet: Option<&'a str>,
    /// The formula stands on the edited sheet.
    pub local: bool,
}

/// What a shift does, as numbers.
pub struct Edit {
    pub at: nat,
    pub count: nat,
    pub insert: bool,
    pub max: nat,
}

/// Where a single row or column goes; `None` when it is gone.
pub open spec fn moved_index(i: nat, e: Edit) -> Option<nat> {
    if e.at + e.count > u32::MAX {
        None
    } else if e.insert {
        if i < e.at {
            Some(i)
        } else if i + e.count <= e.max {
            Some(i + e.count)
        } else {
            None
        }
    } else if i < e.at {
        Some(i)
    } else if i < e.at + e.count {
        None
    } else {
        Some((i - e.count) as nat)
    }
}

/// Where the ends of a range go; `None` when nothing is left of it.
///
/// What is inserted at the first row moves the range, what is inserted further
/// inside makes it longer. An end inside of what is deleted moves to its edge.
pub open spec fn moved_span(from: nat, to: nat, e: Edit) -> Option<(nat, nat)> {
    if e.at + e.count > u32::MAX {
        None
    } else if e.insert {
        let f = if from < e.at {
            from
        } else {
            from + e.count
        };
        let t = if to < e.at {
            to
        } else {
            to + e.count
        };
        if (e.at <= from && f > e.max) || (e.at <= to && t > e.max) {
            None
        } else {
            Some((f, t))
        }
    } else {
        let f = if from < e.at {
            from
        } else if from < e.at + e.count {
            e.at
        } else {
            (from - e.count) as nat
        };
        // one past the last row that is left
        let t = if to < e.at {
            to + 1
        } else if to < e.at + e.count {
            e.at
        } else {
            (to - e.count + 1) as nat
        };
        if f < t {
            Some((f, (t - 1) as nat))
        } else {
            None
        }
    }
}

/// Where the ends of a range go that may be written backwards.
pub open spec fn moved_ends(a: nat, b: nat, e: Edit) -> Option<(nat, nat)> {
    if a <= b {
        moved_span(a, b, e)
    } else {
        match moved_span(b, a, e) {
            Some((lo, hi)) => Some((hi, lo)),
            None => None,
        }
    }
}

pub open spec fn with_row(c: CellRef, row: nat) -> CellRef {
    CellRef { row: row as u32, ..c }
}

pub open spec fn with_col(c: CellRef, col: nat) -> CellRef {
    CellRef { col: col as u32, ..c }
}

pub open spec fn with_idx(l: Line, idx: nat) -> Line {
    Line { idx: idx as u32, ..l }
}

/// What an edit makes of a reference. Dollars play no part. Whole columns do
/// not notice rows, nor whole rows columns.
pub open spec fn shifted(b: RefBody, axis: Axis, e: Edit) -> RefBody {
    match (b, axis) {
        (RefBody::Invalid, _) => RefBody::Invalid,
        (RefBody::Cell(c), Axis::Rows) => match moved_index(c.row as nat, e) {
            Some(v) => RefBody::Cell(with_row(c, v)),
            None => RefBody::Invalid,
        },
        (RefBody::Cell(c), Axis::Cols) => match moved_index(c.col as nat, e) {
            Some(v) => RefBody::Cell(with_col(c, v)),
            None => RefBody::Invalid,
        },
        (RefBody::Area { from, to }, Axis::Rows) => match moved_ends(
            from.row as nat,
            to.row as nat,
            e,
        ) {
            Some((a, b)) => RefBody::Area { from: with_row(from, a), to: with_row(to, b) },
            None => RefBody::Invalid,
        },
        (RefBody::Area { from, to }, Axis::Cols) => match moved_ends(
            from.col as nat,
            to.col as nat,
            e,
        ) {
            Some((a, b)) => RefBody::Area { from: with_col(from, a), to: with_col(to, b) },
            None => RefBody::Invalid,
        },
        (RefBody::Cols { from, to }, Axis::Cols) => match moved_ends(
            from.idx as nat,
            to.idx as nat,
            e,
        ) {
            Some((a, b)) => RefBody::Cols { from: with_idx(from, a), to: with_idx(to, b) },
            None => RefBody::Invalid,
        },
        (RefBody::Rows { from, to }, Axis::Rows) => match moved_ends(
            from.idx as nat,
            to.idx as nat,
            e,
        ) {
            Some((a, b)) => RefBody::Rows { from: with_idx(from, a), to: with_idx(to, b) },
            None => RefBody::Invalid,
        },
        (RefBody::Cols { .. }, Axis::Rows) => b,
        (RefBody::Rows { .. }, Axis::Cols) => b,
    }
}

impl<'a> Shift<'a> {
    pub open spec fn edit(&self) -> Edit {
        Edit {
            at: self.at as nat,
            count: self.count as nat,
            insert: self.insert,
            max: match self.axis {
                Axis::Rows => MAX_ROW as nat,
                Axis::Cols => MAX_COL as nat,
            },
        }
    }

    /// Whether the edit concerns a reference with this sheet name.
    pub open spec fn concerns(&self, sheet: Option<PrefixText>) -> bool {
        match (sheet, self.sheet) {
            (None, _) => self.local,
            (Some(p), Some(name)) => p.first == name@ || p.last == Some(name@),
            (Some(_), None) => false,
        }
    }

    #[must_use]
    pub fn insert_rows(at: u32, count: u32) -> (r: Self)
        ensures
            r == Shift::<'a>::plain(Axis::Rows, at, count, true),
    {
        Self::make(Axis::Rows, at, count, true)
    }

    #[must_use]
    pub fn delete_rows(at: u32, count: u32) -> (r: Self)
        ensures
            r == Shift::<'a>::plain(Axis::Rows, at, count, false),
    {
        Self::make(Axis::Rows, at, count, false)
    }

    #[must_use]
    pub fn insert_cols(at: u32, count: u32) -> (r: Self)
        ensures
            r == Shift::<'a>::plain(Axis::Cols, at, count, true),
    {
        Self::make(Axis::Cols, at, count, true)
    }

    #[must_use]
    pub fn delete_cols(at: u32, count: u32) -> (r: Self)
        ensures
            r == Shift::<'a>::plain(Axis::Cols, at, count, false),
    {
        Self::make(Axis::Cols, at, count, false)
    }

    /// An edit of the sheet of the formula, whose name is not known.
    pub open spec fn plain(axis: Axis, at: u32, count: u32, insert: bool) -> Self {
        Shift { axis, at, count, insert, sheet: None, local: true }
    }

    fn make(axis: Axis, at: u32, count: u32, insert: bool) -> (r: Self)
        ensures
            r == Shift::<'a>::plain(axis, at, count, insert),
    {
        Shift { axis, at, count, insert, sheet: None, local: true }
    }

    /// Names the edited sheet.
    #[must_use]
    pub fn on_sheet(self, name: &'a str) -> (r: Self)
        ensures
            r == (Shift { sheet: Some(name), ..self }),
    {
        Shift {
            axis: self.axis,
            at: self.at,
            count: self.count,
            insert: self.insert,
            sheet: Some(name),
            local: self.local,
        }
    }

    /// The formula stands on another sheet: its references without a sheet
    /// name are not concerned.
    #[must_use]
    pub fn from_other_sheet(self) -> (r: Self)
        ensures
            r == (Shift { local: false, ..self }),
    {
        Shift {
            axis: self.axis,
            at: self.at,
            count: self.count,
            insert: self.insert,
            sheet: self.sheet,
            local: false,
        }
    }

    fn applies_to(&self, r: &Reference) -> (b: bool)
        ensures
            b == self.concerns(r@.sheet),
    {
        match &r.sheet {
            None => self.local,
            Some(p) => match self.sheet {
                Some(name) => p.mentions(name),
                None => false,
            },
        }
    }

    fn max(&self) -> (r: u32)
        ensures
            r == self.edit().max,
    {
        match self.axis {
            Axis::Rows => MAX_ROW,
            Axis::Cols => MAX_COL,
        }
    }
}

fn move_index(i: u32, sh: &Shift<'_>) -> (r: Option<u32>)
    ensures
        match moved_index(i as nat, sh.edit()) {
            Some(v) => v <= u32::MAX && r == Some(v as u32),
            None => r is None,
        },
{
    if sh.count > u32::MAX - sh.at {
        return None;
    }
    if sh.insert {
        if i < sh.at {
            Some(i)
        } else if sh.count <= sh.max() && i <= sh.max() - sh.count {
            Some(i + sh.count)
        } else {
            None
        }
    } else if i < sh.at {
        Some(i)
    } else if i - sh.at < sh.count {
        None
    } else {
        Some(i - sh.count)
    }
}

fn move_span(from: u32, to: u32, sh: &Shift<'_>) -> (r: Option<(u32, u32)>)
    requires
        from <= to,
    ensures
        match moved_span(from as nat, to as nat, sh.edit()) {
            Some((a, b)) => a <= u32::MAX && b <= u32::MAX && r == Some((a as u32, b as u32)),
            None => r is None,
        },
{
    if sh.count > u32::MAX - sh.at {
        return None;
    }
    let max: u32 = sh.max();
    if sh.insert {
        if sh.at <= from {
            if sh.count > max || from > max - sh.count || to > max - sh.count {
                None
            } else {
                Some((from + sh.count, to + sh.count))
            }
        } else if sh.at <= to {
            if sh.count > max || to > max - sh.count {
                None
            } else {
                Some((from, to + sh.count))
            }
        } else {
            Some((from, to))
        }
    } else {
        let end: u32 = sh.at + sh.count;
        let f: u32 = if from >= end {
            from - sh.count
        } else if from >= sh.at {
            sh.at
        } else {
            from
        };
        let t: u32 = if to >= end {
            to - sh.count
        } else if to >= sh.at {
            if sh.at == 0 {
                return None;
            }
            sh.at - 1
        } else {
            to
        };
        if f > t {
            None
        } else {
            Some((f, t))
        }
    }
}

/// Where the ends of a range go that may be written backwards.
fn move_ends(a: u32, b: u32, sh: &Shift<'_>) -> (r: Option<(u32, u32)>)
    ensures
        match moved_ends(a as nat, b as nat, sh.edit()) {
            Some((x, y)) => x <= u32::MAX && y <= u32::MAX && r == Some((x as u32, y as u32)),
            None => r is None,
        },
{
    if a <= b {
        move_span(a, b, sh)
    } else {
        match move_span(b, a, sh) {
            Some((lo, hi)) => Some((hi, lo)),
            None => None,
        }
    }
}

fn move_line_span(from: Line, to: Line, sh: &Shift<'_>) -> (r: Option<(Line, Line)>)
    ensures
        r == match moved_ends(from.idx as nat, to.idx as nat, sh.edit()) {
            Some((a, b)) => Some((with_idx(from, a), with_idx(to, b))),
            None => None,
        },
{
    match move_ends(from.idx, to.idx, sh) {
        Some((a, b)) => Some((Line { idx: a, abs: from.abs }, Line { idx: b, abs: to.abs })),
        None => None,
    }
}

fn shift_body(body: RefBody, sh: &Shift<'_>) -> (r: RefBody)
    ensures
        r == shifted(body, sh.axis, sh.edit()),
{
    let rows: bool = match sh.axis {
        Axis::Rows => true,
        Axis::Cols => false,
    };
    match body {
        RefBody::Invalid => RefBody::Invalid,
        RefBody::Cell(c) => {
            let idx: u32 = if rows {
                c.row
            } else {
                c.col
            };
            match move_index(idx, sh) {
                None => RefBody::Invalid,
                Some(v) => {
                    if rows {
                        RefBody::Cell(
                            CellRef {
                                col: c.col,
                                row: v,
                                col_abs: c.col_abs,
                                row_abs: c.row_abs,
                            },
                        )
                    } else {
                        RefBody::Cell(
                            CellRef {
                                col: v,
                                row: c.row,
                                col_abs: c.col_abs,
                                row_abs: c.row_abs,
                            },
                        )
                    }
                },
            }
        },
        RefBody::Area { from, to } => {
            let a: u32 = if rows {
                from.row
            } else {
                from.col
            };
            let b: u32 = if rows {
                to.row
            } else {
                to.col
            };
            match move_ends(a, b, sh) {
                None => RefBody::Invalid,
                Some((x, y)) => {
                    if rows {
                        RefBody::Area {
                            from: CellRef {
                                col: from.col,
                                row: x,
                                col_abs: from.col_abs,
                                row_abs: from.row_abs,
                            },
                            to: CellRef {
                                col: to.col,
                                row: y,
                                col_abs: to.col_abs,
                                row_abs: to.row_abs,
                            },
                        }
                    } else {
                        RefBody::Area {
                            from: CellRef {
                                col: x,
                                row: from.row,
                                col_abs: from.col_abs,
                                row_abs: from.row_abs,
                            },
                            to: CellRef {
                                col: y,
                                row: to.row,
                                col_abs: to.col_abs,
                                row_abs: to.row_abs,
                            },
                        }
                    }
                },
            }
        },
        RefBody::Cols { from, to } => {
            if rows {
                body
            } else {
                match move_line_span(from, to, sh) {
                    Some((f, t)) => RefBody::Cols { from: f, to: t },
                    None => RefBody::Invalid,
                }
            }
        },
        RefBody::Rows { from, to } => {
            if rows {
                match move_line_span(from, to, sh) {
                    Some((f, t)) => RefBody::Rows { from: f, to: t },
                    None => RefBody::Invalid,
                }
            } else {
                body
            }
        },
    }
}

/// A coordinate moved by `d`, where it stays on the sheet.
pub open spec fn offset_of(i: u32, d: i64, max: u32) -> Option<u32> {
    if 0 <= i + d <= max {
        Some((i + d) as u32)
    } else {
        None
    }
}

pub open spec fn cell_moved(c: CellRef, d_col: i64, d_row: i64) -> Option<CellRef> {
    let col = if c.col_abs {
        Some(c.col)
    } else {
        offset_of(c.col, d_col, MAX_COL)
    };
    let row = if c.row_abs {
        Some(c.row)
    } else {
        offset_of(c.row, d_row, MAX_ROW)
    };
    match (col, row) {
        (Some(col), Some(row)) => Some(CellRef { col, row, ..c }),
        _ => None,
    }
}

pub open spec fn line_moved(l: Line, d: i64, max: u32) -> Option<Line> {
    if l.abs {
        Some(l)
    } else {
        match offset_of(l.idx, d, max) {
            Some(idx) => Some(Line { idx, ..l }),
            None => None,
        }
    }
}

/// What moving the formula makes of a reference: the parts without a dollar
/// move, those with one stay; what leaves the sheet breaks the reference.
pub open spec fn translated(b: RefBody, d_col: i64, d_row: i64) -> RefBody {
    match b {
        RefBody::Invalid => RefBody::Invalid,
        RefBody::Cell(c) => match cell_moved(c, d_col, d_row) {
            Some(c) => RefBody::Cell(c),
            None => RefBody::Invalid,
        },
        RefBody::Area { from, to } => match (
            cell_moved(from, d_col, d_row),
            cell_moved(to, d_col, d_row),
        ) {
            (Some(from), Some(to)) => RefBody::Area { from, to },
            _ => RefBody::Invalid,
        },
        RefBody::Cols { from, to } => match (
            line_moved(from, d_col, MAX_COL),
            line_moved(to, d_col, MAX_COL),
        ) {
            (Some(from), Some(to)) => RefBody::Cols { from, to },
            _ => RefBody::Invalid,
        },
        RefBody::Rows { from, to } => match (
            line_moved(from, d_row, MAX_ROW),
            line_moved(to, d_row, MAX_ROW),
        ) {
            (Some(from), Some(to)) => RefBody::Rows { from, to },
            _ => RefBody::Invalid,
        },
    }
}

fn offset(i: u32, d: i64, max: u32) -> (r: Option<u32>)
    ensures
        r == offset_of(i, d, max),
{
    match (i as i64).checked_add(d) {
        None => None,
        Some(v) => {
            if 0 <= v && v <= max as i64 {
                Some(v as u32)
            } else {
                None
            }
        },
    }
}

fn move_cell(c: CellRef, d_col: i64, d_row: i64) -> (r: Option<CellRef>)
    ensures
        r == cell_moved(c, d_col, d_row),
{
    let col: u32 = if c.col_abs {
        c.col
    } else {
        match offset(c.col, d_col, MAX_COL) {
            Some(v) => v,
            None => return None,
        }
    };
    let row: u32 = if c.row_abs {
        c.row
    } else {
        match offset(c.row, d_row, MAX_ROW) {
            Some(v) => v,
            None => return None,
        }
    };
    Some(CellRef { col, row, col_abs: c.col_abs, row_abs: c.row_abs })
}

fn move_line(l: Line, d: i64, max: u32) -> (r: Option<Line>)
    ensures
        r == line_moved(l, d, max),
{
    if l.abs {
        return Some(l);
    }
    match offset(l.idx, d, max) {
        Some(idx) => Some(Line { idx, abs: l.abs }),
        None => None,
    }
}

fn translate_body(body: RefBody, d_col: i64, d_row: i64) -> (r: RefBody)
    ensures
        r == translated(body, d_col, d_row),
{
    match body {
        RefBody::Invalid => RefBody::Invalid,
        RefBody::Cell(c) => match move_cell(c, d_col, d_row) {
            Some(c) => RefBody::Cell(c),
            None => RefBody::Invalid,
        },
        RefBody::Area { from, to } => match (
            move_cell(from, d_col, d_row),
            move_cell(to, d_col, d_row),
        ) {
            (Some(from), Some(to)) => RefBody::Area { from, to },
            _ => RefBody::Invalid,
        },
        RefBody::Cols { from, to } => match (
            move_line(from, d_col, MAX_COL),
            move_line(to, d_col, MAX_COL),
        ) {
            (Some(from), Some(to)) => RefBody::Cols { from, to },
            _ => RefBody::Invalid,
        },
        RefBody::Rows { from, to } => match (
            move_line(from, d_row, MAX_ROW),
            move_line(to, d_row, MAX_ROW),
        ) {
            (Some(from), Some(to)) => RefBody::Rows { from, to },
            _ => RefBody::Invalid,
        },
    }
}

impl Reference {
    /// Moves the reference after rows or columns were inserted or deleted.
    /// Returns whether it changed.
    pub fn shift(&mut self, sh: &Shift<'_>) -> (r: bool)
        ensures
            final(self)@.sheet == old(self)@.sheet,
            final(self)@.body == if sh.count > 0 && sh.concerns(old(self)@.sheet) {
                shifted(old(self)@.body, sh.axis, sh.edit())
            } else {
                old(self)@.body
            },
            r == (final(self)@.body != old(self)@.body),
    {
        if !sh.applies_to(self) || sh.count == 0 {
            return false;
        }
        let before: RefBody = self.body;
        self.body = shift_body(before, sh);
        self.body != before
    }

    /// Moves the formula to another cell. Returns whether the reference
    /// changed.
    pub fn translate(&mut self, d_col: i64, d_row: i64) -> (r: bool)
        ensures
            final(self)@.sheet == old(self)@.sheet,
            final(self)@.body == translated(old(self)@.body, d_col, d_row),
            r == (final(self)@.body != old(self)@.body),
    {
        let before: RefBody = self.body;
        self.body = translate_body(before, d_col, d_row);
        self.body != before
    }
}

/// A reference on the sheet.
pub open spec fn on_grid(b: RefBody) -> bool {
    match b {
        RefBody::Invalid => true,
        RefBody::Cell(c) => c.col <= MAX_COL && c.row <= MAX_ROW,
        RefBody::Area { from, to } => from.col <= MAX_COL && from.row <= MAX_ROW && to.col
            <= MAX_COL && to.row <= MAX_ROW,
        RefBody::Cols { from, to } => from.idx <= MAX_COL && to.idx <= MAX_COL,
        RefBody::Rows { from, to } => from.idx <= MAX_ROW && to.idx <= MAX_ROW,
    }
}

/// No edit and no move of the formula takes a reference off the sheet.
pub proof fn lemma_stays_on_grid(b: RefBody, sh: Shift<'_>, d_col: i64, d_row: i64)
    requires
        on_grid(b),
    ensures
        on_grid(shifted(b, sh.axis, sh.edit())),
        on_grid(translated(b, d_col, d_row)),
{
}

/// A reference with its dollars taken away.
pub open spec fn without_dollars(b: RefBody) -> RefBody {
    match b {
        RefBody::Invalid => RefBody::Invalid,
        RefBody::Cell(c) => RefBody::Cell(CellRef { col_abs: false, row_abs: false, ..c }),
        RefBody::Area { from, to } => RefBody::Area {
            from: CellRef { col_abs: false, row_abs: false, ..from },
            to: CellRef { col_abs: false, row_abs: false, ..to },
        },
        RefBody::Cols { from, to } => RefBody::Cols {
            from: Line { abs: false, ..from },
            to: Line { abs: false, ..to },
        },
        RefBody::Rows { from, to } => RefBody::Rows {
            from: Line { abs: false, ..from },
            to: Line { abs: false, ..to },
        },
    }
}

/// An edit of the sheet does not look at the dollars.
pub proof fn lemma_shift_ignores_dollars(b: RefBody, axis: Axis, e: Edit)
    ensures
        without_dollars(shifted(b, axis, e)) == shifted(without_dollars(b), axis, e),
{
}

/// A reference all of whose parts have dollars does not follow the formula.
pub proof fn lemma_dollars_hold(b: RefBody, d_col: i64, d_row: i64)
    requires
        match b {
            RefBody::Invalid => true,
            RefBody::Cell(c) => c.col_abs && c.row_abs,
            RefBody::Area { from, to } => from.col_abs && from.row_abs && to.col_abs && to.row_abs,
            RefBody::Cols { from, to } => from.abs && to.abs,
            RefBody::Rows { from, to } => from.abs && to.abs,
        },
    ensures
        translated(b, d_col, d_row) == b,
{
}

/// Deleting what was just inserted restores the ends of a range.
proof fn lemma_ends_restored(a: nat, b: nat, ins: Edit, del: Edit)
    requires
        a <= ins.max,
        b <= ins.max,
        ins.insert,
        ins.count > 0,
        del == (Edit { insert: false, ..ins }),
    ensures
        match moved_ends(a, b, ins) {
            Some((x, y)) => x <= ins.max && y <= ins.max && moved_ends(x, y, del) == Some((a, b)),
            None => true,
        },
{
}

/// Deleting what was just inserted restores an index.
proof fn lemma_index_restored(i: nat, ins: Edit, del: Edit)
    requires
        ins.insert,
        i <= ins.max,
        del == (Edit { insert: false, ..ins }),
    ensures
        match moved_index(i, ins) {
            Some(x) => x <= ins.max && moved_index(x, del) == Some(i),
            None => true,
        },
{
}

/// Deleting what was just inserted restores every reference that the insertion
/// did not break.
pub proof fn lemma_insert_then_delete(b: RefBody, axis: Axis, at: u32, count: u32)
    requires
        on_grid(b),
        count > 0,
        !(shifted(b, axis, Shift::plain(axis, at, count, true).edit()) is Invalid),
    ensures
        shifted(
            shifted(b, axis, Shift::plain(axis, at, count, true).edit()),
            axis,
            Shift::plain(axis, at, count, false).edit(),
        ) == b,
{
    let ins = Shift::plain(axis, at, count, true).edit();
    let del = Shift::plain(axis, at, count, false).edit();
    match b {
        RefBody::Invalid => {},
        RefBody::Cell(c) => {
            let i = if axis is Rows {
                c.row as nat
            } else {
                c.col as nat
            };
            lemma_index_restored(i, ins, del);
        },
        RefBody::Area { from, to } => {
            if axis is Rows {
                lemma_ends_restored(from.row as nat, to.row as nat, ins, del);
            } else {
                lemma_ends_restored(from.col as nat, to.col as nat, ins, del);
            }
        },
        RefBody::Cols { from, to } => {
            if axis is Cols {
                lemma_ends_restored(from.idx as nat, to.idx as nat, ins, del);
            }
        },
        RefBody::Rows { from, to } => {
            if axis is Rows {
                lemma_ends_restored(from.idx as nat, to.idx as nat, ins, del);
            }
        },
    }
}

/// Moving a formula there and back restores every reference that the first
/// move did not break.
pub proof fn lemma_move_back(b: RefBody, d_col: i64, d_row: i64)
    requires
        on_grid(b),
        d_col > i64::MIN,
        d_row > i64::MIN,
        !(translated(b, d_col, d_row) is Invalid),
    ensures
        translated(translated(b, d_col, d_row), (-d_col) as i64, (-d_row) as i64) == b,
{
}

/// The name of a column leads back to the column.
pub proof fn lemma_col_round_trip(i: nat)
    requires
        i <= MAX_COL,
    ensures
        col_of(col_text(i)) == Some(i as u32),
        1 <= col_text(i).len() <= 3,
        forall|k: int| 0 <= k < col_text(i).len() ==> 'A' <= #[trigger] col_text(i)[k] <= 'Z',
{
    reveal_with_fuel(letters, 3);
    reveal_with_fuel(col_value, 4);
    let s = col_text(i);
    if i < 26 {
        assert(s.drop_last() =~= Seq::<char>::empty());
    } else if i / 26 - 1 < 26 {
        assert(s.drop_last() =~= seq![letter((i / 26 - 1) as nat)]);
        assert(s.drop_last().drop_last() =~= Seq::<char>::empty());
    } else {
        let j = (i / 26 - 1) as nat;
        assert(s.drop_last() =~= seq![letter((j / 26 - 1) as nat), letter(j % 26)]);
        assert(s.drop_last().drop_last() =~= seq![letter((j / 26 - 1) as nat)]);
        assert(s.drop_last().drop_last().drop_last() =~= Seq::<char>::empty());
    }
}

} // verus!
