//! Reading A1 references.
//!
//! A place is counted in characters.
use vstd::prelude::*;

use crate::formula::refs;
use crate::formula::refs::{CellRef, Line, RefBody, Reference, SheetPrefix};
use crate::text;

verus! {

/// The character at a place.
pub open spec fn at(s: Seq<char>, i: int) -> Option<char> {
    if 0 <= i < s.len() {
        Some(s[i])
    } else {
        None
    }
}

/// A character that a name may begin with.
pub open spec fn name_start(c: char) -> bool {
    text::alphabetic(c) || c == '_' || c == '\\'
}

/// A character that may stand in a name. The dot is one of them: a sheet named
/// `p.1_4` is referred to without apostrophes.
pub open spec fn name_char(c: char) -> bool {
    text::alphanumeric(c) || c == '_' || c == '.' || c == '\\' || c == '?'
}

/// The end of the name characters that begin at `i`.
pub open spec fn name_end(s: Seq<char>, i: int) -> int
    decreases s.len() - i,
{
    if 0 <= i < s.len() && name_char(s[i]) {
        name_end(s, i + 1)
    } else {
        i
    }
}

/// The end of the digits that begin at `i`.
pub open spec fn digits_end(s: Seq<char>, i: int) -> int
    decreases s.len() - i,
{
    if 0 <= i < s.len() && text::is_digit(s[i]) {
        digits_end(s, i + 1)
    } else {
        i
    }
}

/// The end of at most `n` letters that begin at `i`.
pub open spec fn letters_end(s: Seq<char>, i: int, n: nat) -> int
    decreases n,
{
    if n > 0 && 0 <= i < s.len() && text::is_letter(s[i]) {
        letters_end(s, i + 1, (n - 1) as nat)
    } else {
        i
    }
}

/// The place of the last `c`.
pub open spec fn rfind(s: Seq<char>, c: char) -> Option<int>
    decreases s.len(),
{
    if s.len() == 0 {
        None
    } else if s.last() == c {
        Some(s.len() - 1)
    } else {
        rfind(s.drop_last(), c)
    }
}

/// A number with at least one digit, and its end.
pub open spec fn number_at(s: Seq<char>, i: int) -> Option<(u32, int)> {
    let e = digits_end(s, i);
    let v = refs::digits_value(s.subrange(i, e));
    if e > i && v <= u32::MAX {
        Some((v as u32, e))
    } else {
        None
    }
}

/// A row, which is written from 1, and the end of its number.
pub open spec fn row_at(s: Seq<char>, i: int) -> Option<(u32, int)> {
    match number_at(s, i) {
        Some((v, e)) => if 1 <= v <= refs::MAX_ROW + 1 {
            Some(((v - 1) as u32, e))
        } else {
            None
        },
        None => None,
    }
}

/// One half of a range: `$A$1`, `$A` or `$1`.
#[derive(Debug, Clone, Copy, PartialEq, Eq, Structural)]
pub enum Half {
    Cell(CellRef),
    Col(Line),
    Row(Line),
}

/// A half at `i`, and its end.
///
/// A fourth letter makes the letters a name. `$A$` without a number is nothing.
pub open spec fn half_at(s: Seq<char>, i: int) -> Option<(Half, int)> {
    let abs1 = at(s, i) == Some('$');
    let from = if abs1 {
        i + 1
    } else {
        i
    };
    let p = letters_end(s, from, 3);
    if p == from {
        match row_at(s, p) {
            Some((idx, e)) => Some((Half::Row(Line { idx, abs: abs1 }), e)),
            None => None,
        }
    } else if p < s.len() && text::is_letter(s[p]) {
        None
    } else {
        match refs::col_of(s.subrange(from, p)) {
            None => None,
            Some(col) => {
                let abs2 = at(s, p) == Some('$');
                let q = if abs2 {
                    p + 1
                } else {
                    p
                };
                if number_at(s, q) is Some {
                    match row_at(s, q) {
                        Some((row, e)) => Some(
                            (Half::Cell(CellRef { col, row, col_abs: abs1, row_abs: abs2 }), e),
                        ),
                        None => None,
                    }
                } else if abs2 {
                    None
                } else {
                    Some((Half::Col(Line { idx: col, abs: abs1 }), p))
                }
            },
        }
    }
}

/// The word that stands for a lost reference.
pub open spec fn lost() -> Seq<char> {
    seq!['#', 'R', 'E', 'F', '!']
}

/// Whether `t` stands at `i`.
pub open spec fn stands(s: Seq<char>, i: int, t: Seq<char>) -> bool {
    0 <= i && i + t.len() <= s.len() && s.subrange(i, i + t.len()) == t
}

/// Two halves of one kind make a range.
pub open spec fn paired(a: Half, b: Half) -> Option<RefBody> {
    match (a, b) {
        (Half::Cell(from), Half::Cell(to)) => Some(RefBody::Area { from, to }),
        (Half::Col(from), Half::Col(to)) => Some(RefBody::Cols { from, to }),
        (Half::Row(from), Half::Row(to)) => Some(RefBody::Rows { from, to }),
        _ => None,
    }
}

/// The range that the half `a` begins, where `:` and a half of its kind follow.
pub open spec fn range_at(s: Seq<char>, a: Half, p: int) -> Option<(RefBody, int)> {
    if at(s, p) == Some(':') {
        match half_at(s, p + 1) {
            Some((b, e)) => match paired(a, b) {
                Some(body) => Some((body, e)),
                None => None,
            },
            None => None,
        }
    } else {
        None
    }
}

/// What stands behind the sheet name, and its end. `A` and `1` alone are no
/// references: the one is a name, the other a number.
pub open spec fn body_at(s: Seq<char>, i: int) -> Option<(RefBody, int)> {
    if stands(s, i, lost()) {
        Some((RefBody::Invalid, i + 5))
    } else {
        match half_at(s, i) {
            None => None,
            Some((a, p)) => match range_at(s, a, p) {
                Some(r) => Some(r),
                None => match a {
                    Half::Cell(c) => Some((RefBody::Cell(c), p)),
                    _ => None,
                },
            },
        }
    }
}

/// `t` before the text of `r`.
pub open spec fn prepended(t: Seq<char>, r: Option<(Seq<char>, int)>) -> Option<(Seq<char>, int)> {
    match r {
        Some((u, e)) => Some((t + u, e)),
        None => None,
    }
}

/// The text up to the closing quote `q`, from `p` on, and the place behind that
/// quote. A doubled quote stands for one.
pub open spec fn unquoted(s: Seq<char>, p: int, q: char) -> Option<(Seq<char>, int)>
    decreases s.len() - p,
{
    if !(0 <= p < s.len()) {
        None
    } else if s[p] != q {
        prepended(seq![s[p]], unquoted(s, p + 1, q))
    } else if at(s, p + 1) == Some(q) {
        prepended(seq![q], unquoted(s, p + 2, q))
    } else {
        Some((Seq::empty(), p + 1))
    }
}

/// A quoted prefix in its parts. The book goes up to the last `]`, since a path
/// may hold a colon; what follows is one sheet, or two with a colon between.
pub open spec fn prefix_parts(t: Seq<char>) -> Option<refs::PrefixText> {
    let end = match rfind(t, ']') {
        Some(k) => k + 1,
        None => 0,
    };
    let rest = t.skip(end);
    let book = if end > 0 {
        Some(t.take(end))
    } else {
        None
    };
    if rest.len() == 0 {
        None
    } else {
        match text::find(rest, 0, ':') {
            None => Some(refs::PrefixText { book, first: rest, last: None, quoted: true }),
            Some(k) => if k > 0 && k + 1 < rest.len() {
                Some(
                    refs::PrefixText {
                        book,
                        first: rest.take(k),
                        last: Some(rest.skip(k + 1)),
                        quoted: true,
                    },
                )
            } else {
                None
            },
        }
    }
}

/// Where the book of an unquoted prefix ends; `None` when its bracket is not
/// closed.
pub open spec fn book_end(s: Seq<char>, i: int) -> Option<int> {
    if at(s, i) == Some('[') {
        match text::find(s, i, ']') {
            Some(k) => Some(k + 1),
            None => None,
        }
    } else {
        Some(i)
    }
}

/// Where the sheet name of an unquoted prefix ends. The name of a deleted sheet
/// is `#REF!`.
pub open spec fn sheet_end(s: Seq<char>, p: int) -> int {
    if stands(s, p, lost()) {
        p + 5
    } else {
        name_end(s, p)
    }
}

/// Whether a second sheet and its `!` stand behind the first one.
pub open spec fn has_second(s: Seq<char>, q: int) -> bool {
    at(s, q) == Some(':') && name_end(s, q + 1) > q + 1 && at(s, name_end(s, q + 1)) == Some('!')
}

/// A prefix with its `!`, and its end.
pub open spec fn prefix_at(s: Seq<char>, i: int) -> Option<(refs::PrefixText, int)> {
    if at(s, i) == Some('\'') {
        match unquoted(s, i + 1, '\'') {
            None => None,
            Some((t, p)) => if at(s, p) == Some('!') {
                match prefix_parts(t) {
                    Some(x) => Some((x, p + 1)),
                    None => None,
                }
            } else {
                None
            },
        }
    } else {
        match book_end(s, i) {
            None => None,
            Some(p) => {
                let q = sheet_end(s, p);
                let second = has_second(s, q);
                let e = if second {
                    name_end(s, q + 1)
                } else {
                    q
                };
                if q > p && at(s, e) == Some('!') {
                    Some(
                        (
                            refs::PrefixText {
                                book: if at(s, i) == Some('[') {
                                    Some(s.subrange(i, p))
                                } else {
                                    None
                                },
                                first: s.subrange(p, q),
                                last: if second {
                                    Some(s.subrange(q + 1, e))
                                } else {
                                    None
                                },
                                quoted: false,
                            },
                            e + 1,
                        ),
                    )
                } else {
                    None
                }
            },
        }
    }
}

/// A reference at `i`, and its end. It does not go on with a character of a
/// name: `A1B`, `A1_x` and `A1.5` are no `A1`.
pub open spec fn ref_at(s: Seq<char>, i: int) -> Option<(refs::RefText, int)> {
    let (sheet, p) = match prefix_at(s, i) {
        Some((x, p)) => (Some(x), p),
        None => (None, i),
    };
    match body_at(s, p) {
        None => None,
        Some((body, e)) => {
            let goes_on = e < s.len() && (name_char(s[e]) || s[e] == '$');
            if goes_on {
                None
            } else {
                Some((refs::RefText { sheet, body }, e))
            }
        },
    }
}

/// A reference that takes the whole text.
pub open spec fn parsed(s: Seq<char>) -> Option<refs::RefText> {
    match ref_at(s, 0) {
        Some((r, e)) => if e == s.len() {
            Some(r)
        } else {
            None
        },
        None => None,
    }
}

pub proof fn lemma_name_end(s: Seq<char>, i: int)
    requires
        0 <= i <= s.len(),
    ensures
        i <= name_end(s, i) <= s.len(),
        forall|k: int| i <= k < name_end(s, i) ==> name_char(#[trigger] s[k]),
        name_end(s, i) < s.len() ==> !name_char(s[name_end(s, i)]),
    decreases s.len() - i,
{
    if i < s.len() && name_char(s[i]) {
        lemma_name_end(s, i + 1);
    }
}

pub proof fn lemma_digits_end(s: Seq<char>, i: int)
    requires
        0 <= i <= s.len(),
    ensures
        i <= digits_end(s, i) <= s.len(),
        forall|k: int| i <= k < digits_end(s, i) ==> text::is_digit(#[trigger] s[k]),
        digits_end(s, i) < s.len() ==> !text::is_digit(s[digits_end(s, i)]),
    decreases s.len() - i,
{
    if i < s.len() && text::is_digit(s[i]) {
        lemma_digits_end(s, i + 1);
    }
}

pub proof fn lemma_letters_end(s: Seq<char>, i: int, n: nat)
    requires
        0 <= i <= s.len(),
    ensures
        i <= letters_end(s, i, n) <= i + n,
        letters_end(s, i, n) <= s.len(),
        forall|k: int| i <= k < letters_end(s, i, n) ==> text::is_letter(#[trigger] s[k]),
    decreases n,
{
    if n > 0 && i < s.len() && text::is_letter(s[i]) {
        lemma_letters_end(s, i + 1, (n - 1) as nat);
    }
}

pub proof fn lemma_rfind(s: Seq<char>, c: char)
    ensures
        match rfind(s, c) {
            Some(k) => 0 <= k < s.len() && s[k] == c && forall|j: int|
                k < j < s.len() ==> #[trigger] s[j] != c,
            None => forall|j: int| 0 <= j < s.len() ==> #[trigger] s[j] != c,
        },
    decreases s.len(),
{
    if s.len() > 0 && s.last() != c {
        let t = s.drop_last();
        lemma_rfind(t, c);
        let from = match rfind(t, c) {
            Some(k) => k + 1,
            None => 0,
        };
        assert forall|j: int| from <= j < s.len() implies #[trigger] s[j] != c by {
            if j < t.len() {
                assert(t[j] == s[j]);
            }
        }
    }
}

/// The end of a half is within the text, behind its beginning.
pub proof fn lemma_half_at(s: Seq<char>, i: int)
    requires
        0 <= i <= s.len(),
    ensures
        match half_at(s, i) {
            Some((h, e)) => i < e <= s.len(),
            None => true,
        },
{
    let from = if at(s, i) == Some('$') {
        i + 1
    } else {
        i
    };
    lemma_letters_end(s, from, 3);
    let p = letters_end(s, from, 3);
    lemma_digits_end(s, p);
    if at(s, p) == Some('$') {
        lemma_digits_end(s, p + 1);
    }
}

pub proof fn lemma_body_at(s: Seq<char>, i: int)
    requires
        0 <= i <= s.len(),
    ensures
        match body_at(s, i) {
            Some((b, e)) => i < e <= s.len(),
            None => true,
        },
{
    lemma_half_at(s, i);
    if let Some((h, p)) = half_at(s, i) {
        if at(s, p) == Some(':') {
            lemma_half_at(s, p + 1);
        }
    }
}

pub proof fn lemma_unquoted(s: Seq<char>, p: int, q: char)
    requires
        0 <= p <= s.len(),
    ensures
        match unquoted(s, p, q) {
            Some((t, e)) => p < e <= s.len() && s[e - 1] == q && at(s, e) != Some(q),
            None => true,
        },
    decreases s.len() - p,
{
    if p < s.len() {
        if s[p] != q {
            lemma_unquoted(s, p + 1, q);
        } else if at(s, p + 1) == Some(q) {
            lemma_unquoted(s, p + 2, q);
        }
    }
}

pub proof fn lemma_prefix_at(s: Seq<char>, i: int)
    requires
        0 <= i <= s.len(),
    ensures
        match prefix_at(s, i) {
            Some((x, e)) => i < e <= s.len(),
            None => true,
        },
{
    if at(s, i) == Some('\'') {
        lemma_unquoted(s, i + 1, '\'');
    } else {
        text::lemma_find(s, i, ']');
        if let Some(p) = book_end(s, i) {
            lemma_name_end(s, p);
            let q = sheet_end(s, p);
            if at(s, q) == Some(':') {
                lemma_name_end(s, q + 1);
            }
        }
    }
}

/// The end of a reference is within the text, behind its beginning.
pub proof fn lemma_ref_at(s: Seq<char>, i: int)
    requires
        0 <= i <= s.len(),
    ensures
        match ref_at(s, i) {
            Some((r, e)) => i < e <= s.len(),
            None => true,
        },
{
    lemma_prefix_at(s, i);
    let p = match prefix_at(s, i) {
        Some((x, p)) => p,
        None => i,
    };
    lemma_body_at(s, p);
}

/// Whether a name may begin with the character.
pub fn is_name_start(c: char) -> (r: bool)
    ensures
        r == name_start(c),
{
    text::is_alphabetic(c) || c == '_' || c == '\\'
}

/// Whether the character may stand in a name.
pub fn is_name_char(c: char) -> (r: bool)
    ensures
        r == name_char(c),
{
    text::is_alphanumeric(c) || c == '_' || c == '.' || c == '\\' || c == '?'
}

/// The character at a place.
pub fn peek(s: &[char], i: usize) -> (r: Option<char>)
    ensures
        r == at(s@, i as int),
{
    if i < s.len() {
        Some(s[i])
    } else {
        None
    }
}

/// Whether the character at a place is `c`.
pub fn is_at(s: &[char], i: usize, c: char) -> (r: bool)
    ensures
        r == (at(s@, i as int) == Some(c)),
        s@.len() <= usize::MAX,
{
    let n: usize = s.len();
    i < n && s[i] == c
}

/// Whether `#REF!` stands at `i`.
pub fn lost_at(s: &[char], i: usize) -> (r: bool)
    ensures
        r == stands(s@, i as int, lost()),
        s@.len() <= usize::MAX,
{
    let n: usize = s.len();
    if i > n || n - i < 5 {
        return false;
    }
    let r: bool = s[i] == '#' && s[i + 1] == 'R' && s[i + 2] == 'E' && s[i + 3] == 'F' && s[i + 4]
        == '!';
    let ghost t = s@.subrange(i as int, i + 5);
    if r {
        assert(t =~= lost());
    } else {
        assert(t[0] == s@[i as int] && t[1] == s@[i + 1] && t[2] == s@[i + 2] && t[3] == s@[i + 3]
            && t[4] == s@[i + 4]);
        assert(lost()[0] == '#' && lost()[1] == 'R' && lost()[2] == 'E' && lost()[3] == 'F'
            && lost()[4] == '!');
    }
    r
}

fn scan_digits(s: &[char], i: usize) -> (r: Option<(u32, usize)>)
    requires
        i <= s@.len(),
    ensures
        match r {
            Some((v, e)) => number_at(s@, i as int) == Some((v, e as int)) && i < e <= s@.len(),
            None => number_at(s@, i as int) is None,
        },
{
    proof {
        lemma_digits_end(s@, i as int);
    }
    let ghost e = digits_end(s@, i as int);
    let ghost digits = s@.subrange(i as int, e);
    let mut p: usize = i;
    let mut v: u32 = 0;
    assert(digits.take(0) =~= Seq::<char>::empty());
    while p < s.len() && text::digit_of_ascii(s[p])
        invariant
            i <= p <= e <= s@.len(),
            e == digits_end(s@, i as int),
            e == digits_end(s@, p as int),
            digits == s@.subrange(i as int, e),
            refs::all_digits(digits),
            v == refs::digits_value(digits.take(p - i)),
        decreases s@.len() - p,
    {
        let d: u32 = s[p] as u32 - 48;
        proof {
            lemma_digits_end(s@, p + 1);
            assert(digits.take(p + 1 - i).drop_last() =~= digits.take(p - i));
            assert(digits[p - i] == s@[p as int]);
            refs::lemma_digits_prefix(digits, p + 1 - i);
        }
        if v > (u32::MAX - d) / 10 {
            return None;
        }
        v = v * 10 + d;
        p = p + 1;
    }
    assert(digits.take(p - i) =~= digits);
    if p == i {
        None
    } else {
        Some((v, p))
    }
}

fn scan_row(s: &[char], i: usize) -> (r: Option<(u32, usize)>)
    requires
        i <= s@.len(),
    ensures
        match r {
            Some((v, e)) => row_at(s@, i as int) == Some((v, e as int)) && i < e <= s@.len(),
            None => row_at(s@, i as int) is None,
        },
{
    match scan_digits(s, i) {
        Some((v, e)) => {
            if v >= 1 && v - 1 <= refs::MAX_ROW {
                Some((v - 1, e))
            } else {
                None
            }
        },
        None => None,
    }
}

/// The end of the name characters that begin at `i`.
pub fn scan_name_run(s: &[char], i: usize) -> (r: usize)
    requires
        i <= s@.len(),
    ensures
        r == name_end(s@, i as int),
        i <= r <= s@.len(),
{
    let mut p: usize = i;
    while p < s.len() && is_name_char(s[p])
        invariant
            i <= p <= s@.len(),
            name_end(s@, p as int) == name_end(s@, i as int),
        decreases s@.len() - p,
    {
        p = p + 1;
    }
    p
}

fn scan_letters(s: &[char], i: usize) -> (r: usize)
    requires
        i <= s@.len(),
    ensures
        r == letters_end(s@, i as int, 3),
        i <= r <= s@.len(),
        r <= i + 3,
{
    let mut p: usize = i;
    let mut n: u32 = 3;
    while n > 0 && p < s.len() && text::letter_of_ascii(s[p])
        invariant
            i <= p <= s@.len(),
            p + n == i + 3,
            letters_end(s@, p as int, n as nat) == letters_end(s@, i as int, 3),
        decreases n,
    {
        p = p + 1;
        n = n - 1;
    }
    p
}

fn scan_half(s: &[char], i: usize) -> (r: Option<(Half, usize)>)
    requires
        i <= s@.len(),
    ensures
        match r {
            Some((h, e)) => half_at(s@, i as int) == Some((h, e as int)) && i < e <= s@.len(),
            None => half_at(s@, i as int) is None,
        },
{
    let abs1: bool = is_at(s, i, '$');
    let from: usize = if abs1 {
        i + 1
    } else {
        i
    };
    let p: usize = scan_letters(s, from);
    if p == from {
        return match scan_row(s, p) {
            Some((idx, e)) => Some((Half::Row(Line { idx, abs: abs1 }), e)),
            None => None,
        };
    }
    if p < s.len() && text::letter_of_ascii(s[p]) {
        return None;
    }
    let col: u32 = match refs::col_from_chars(vstd::slice::slice_subrange(s, from, p)) {
        Some(c) => c,
        None => return None,
    };
    let abs2: bool = is_at(s, p, '$');
    let q: usize = if abs2 {
        p + 1
    } else {
        p
    };
    match scan_digits(s, q) {
        Some((v, e)) => {
            if v >= 1 && v - 1 <= refs::MAX_ROW {
                Some((Half::Cell(CellRef { col, row: v - 1, col_abs: abs1, row_abs: abs2 }), e))
            } else {
                None
            }
        },
        None => {
            if abs2 {
                None
            } else {
                Some((Half::Col(Line { idx: col, abs: abs1 }), p))
            }
        },
    }
}

fn pair(a: Half, b: Half) -> (r: Option<RefBody>)
    ensures
        r == paired(a, b),
{
    match (a, b) {
        (Half::Cell(from), Half::Cell(to)) => Some(RefBody::Area { from, to }),
        (Half::Col(from), Half::Col(to)) => Some(RefBody::Cols { from, to }),
        (Half::Row(from), Half::Row(to)) => Some(RefBody::Rows { from, to }),
        _ => None,
    }
}

fn scan_body(s: &[char], i: usize) -> (r: Option<(RefBody, usize)>)
    requires
        i <= s@.len(),
    ensures
        match r {
            Some((b, e)) => body_at(s@, i as int) == Some((b, e as int)) && i < e <= s@.len(),
            None => body_at(s@, i as int) is None,
        },
{
    if lost_at(s, i) {
        return Some((RefBody::Invalid, i + 5));
    }
    let (a, p): (Half, usize) = match scan_half(s, i) {
        Some(x) => x,
        None => return None,
    };
    if is_at(s, p, ':') {
        if let Some((b, e)) = scan_half(s, p + 1) {
            if let Some(body) = pair(a, b) {
                return Some((body, e));
            }
        }
    }
    match a {
        Half::Cell(c) => Some((RefBody::Cell(c), p)),
        _ => None,
    }
}

/// The text between the quote at `i` and its closing one.
pub fn scan_quoted(s: &[char], i: usize, q: char) -> (r: Option<(Vec<char>, usize)>)
    requires
        i < s@.len(),
    ensures
        match r {
            Some((t, e)) => unquoted(s@, i + 1, q) == Some((t@, e as int)) && i < e <= s@.len(),
            None => unquoted(s@, i + 1, q) is None,
        },
{
    let n: usize = s.len();
    let mut p: usize = i + 1;
    let mut out: Vec<char> = Vec::new();
    assert(prepended(out@, unquoted(s@, p as int, q)) == unquoted(s@, i + 1, q)) by {
        if let Some((u, e)) = unquoted(s@, i + 1, q) {
            assert(out@ + u =~= u);
        }
    }
    while p < n
        invariant
            n == s@.len(),
            i < p <= n,
            prepended(out@, unquoted(s@, p as int, q)) == unquoted(s@, i + 1, q),
        decreases s@.len() - p,
    {
        let c: char = s[p];
        let ghost before = out@;
        if c == q {
            if is_at(s, p + 1, q) {
                out.push(q);
                proof {
                    if let Some((u, e)) = unquoted(s@, p + 2, q) {
                        assert(before + (seq![q] + u) =~= out@ + u);
                    }
                }
                p = p + 2;
            } else {
                assert(before + Seq::<char>::empty() =~= out@);
                return Some((out, p + 1));
            }
        } else {
            out.push(c);
            proof {
                if let Some((u, e)) = unquoted(s@, p + 1, q) {
                    assert(before + (seq![c] + u) =~= out@ + u);
                }
            }
            p = p + 1;
        }
    }
    None
}

/// The place of the last `c`.
fn last_position(s: &[char], c: char) -> (r: Option<usize>)
    ensures
        match r {
            Some(k) => rfind(s@, c) == Some(k as int) && k < s@.len(),
            None => rfind(s@, c) is None,
        },
{
    let mut n: usize = s.len();
    assert(s@.take(n as int) =~= s@);
    while n > 0
        invariant
            n <= s@.len(),
            rfind(s@.take(n as int), c) == rfind(s@, c),
        decreases n,
    {
        if s[n - 1] == c {
            return Some(n - 1);
        }
        assert(s@.take(n as int).drop_last() =~= s@.take(n - 1));
        n = n - 1;
    }
    None
}

fn substring(s: &[char], from: usize, to: usize) -> (r: String)
    requires
        from <= to <= s@.len(),
    ensures
        r@ == s@.subrange(from as int, to as int),
{
    text::string_of(vstd::slice::slice_subrange(s, from, to))
}

/// A quoted prefix in its parts.
fn split_prefix(t: &[char]) -> (r: Option<SheetPrefix>)
    ensures
        match r {
            Some(x) => prefix_parts(t@) == Some(x@),
            None => prefix_parts(t@) is None,
        },
{
    let n: usize = t.len();
    let end: usize = match last_position(t, ']') {
        Some(k) => k + 1,
        None => 0,
    };
    if end == n {
        return None;
    }
    let book: Option<String> = if end > 0 {
        Some(substring(t, 0, end))
    } else {
        None
    };
    let rest = vstd::slice::slice_subrange(t, end, n);
    assert(rest@ =~= t@.skip(end as int));
    assert(end > 0 ==> t@.take(end as int) =~= t@.subrange(0, end as int));
    match text::position(rest, 0, ':') {
        None => {
            Some(SheetPrefix { book, first: text::string_of(rest), last: None, quoted: true })
        },
        Some(k) => {
            let m: usize = rest.len();
            if k > 0 && k + 1 < m {
                let first: String = substring(rest, 0, k);
                let last: String = substring(rest, k + 1, m);
                assert(rest@.take(k as int) =~= rest@.subrange(0, k as int));
                assert(rest@.skip(k + 1) =~= rest@.subrange(k + 1, m as int));
                Some(SheetPrefix { book, first, last: Some(last), quoted: true })
            } else {
                None
            }
        },
    }
}

/// A prefix with its `!`; `None` when there is none at `i`.
fn scan_prefix(s: &[char], i: usize) -> (r: Option<(SheetPrefix, usize)>)
    requires
        i <= s@.len(),
    ensures
        match r {
            Some((x, e)) => prefix_at(s@, i as int) == Some((x@, e as int)) && i < e <= s@.len(),
            None => prefix_at(s@, i as int) is None,
        },
{
    if is_at(s, i, '\'') {
        return match scan_quoted(s, i, '\'') {
            None => None,
            Some((t, p)) => {
                if !is_at(s, p, '!') {
                    return None;
                }
                match split_prefix(t.as_slice()) {
                    Some(x) => Some((x, p + 1)),
                    None => None,
                }
            },
        };
    }
    let bracket: bool = is_at(s, i, '[');
    let p: usize = if bracket {
        match text::position(s, i, ']') {
            Some(k) => k + 1,
            None => return None,
        }
    } else {
        i
    };
    let q: usize = if lost_at(s, p) {
        p + 5
    } else {
        scan_name_run(s, p)
    };
    if q == p {
        return None;
    }
    let mut e: usize = q;
    let mut last: Option<String> = None;
    if is_at(s, q, ':') {
        let end: usize = scan_name_run(s, q + 1);
        if end > q + 1 && is_at(s, end, '!') {
            last = Some(substring(s, q + 1, end));
            e = end;
        }
    }
    if !is_at(s, e, '!') {
        return None;
    }
    let book: Option<String> = if bracket {
        Some(substring(s, i, p))
    } else {
        None
    };
    let first: String = substring(s, p, q);
    Some((SheetPrefix { book, first, last, quoted: false }, e + 1))
}

/// Reads the reference at `i`. Returns it with the place behind it; `None` when
/// there is no reference.
pub fn scan(s: &[char], i: usize) -> (r: Option<(Reference, usize)>)
    requires
        i <= s@.len(),
    ensures
        match r {
            Some((x, e)) => ref_at(s@, i as int) == Some((x@, e as int)) && i < e <= s@.len(),
            None => ref_at(s@, i as int) is None,
        },
{
    let (sheet, p): (Option<Box<SheetPrefix>>, usize) = match scan_prefix(s, i) {
        Some((x, p)) => (Some(Box::new(x)), p),
        None => (None, i),
    };
    let (body, e): (RefBody, usize) = match scan_body(s, p) {
        Some(x) => x,
        None => return None,
    };
    if e < s.len() && (is_name_char(s[e]) || s[e] == '$') {
        return None;
    }
    Some((Reference { sheet, body }, e))
}

/// Reads a reference that takes the whole text.
#[must_use]
pub fn parse_ref(s: &str) -> (r: Option<Reference>)
    ensures
        match r {
            Some(x) => parsed(s@) == Some(x@),
            None => parsed(s@) is None,
        },
{
    let cs = text::chars_of(s);
    match scan(cs.as_slice(), 0) {
        Some((r, e)) => {
            if e == cs.len() {
                Some(r)
            } else {
                None
            }
        },
        None => None,
    }
}

} // verus!
