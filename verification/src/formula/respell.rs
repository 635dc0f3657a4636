//! A formula in another spelling of its references and truth values.
//!
//! Printing writes columns, `TRUE` and `FALSE` in capitals and rows without
//! leading zeros, so the printed text may differ from the one that was read.
//! Its tokens are still the same. What a token is may depend on the characters
//! behind it, so two texts are compared by all that a token before a place can
//! see from there.
use vstd::prelude::*;

use crate::formula::ast::ErrKind;
use crate::formula::laws;
use crate::formula::lexer;
use crate::formula::parser;
use crate::formula::print;
use crate::formula::ref_laws;
use crate::formula::refs;
use crate::formula::refs::{CellRef, RefBody};
use crate::formula::reparse;
use crate::formula::scan;
use crate::text;

verus! {

/// Whether `!` follows the name that begins at `i`.
pub open spec fn banged(s: Seq<char>, i: int) -> bool {
    scan::at(s, scan::name_end(s, i)) == Some('!')
}

/// Whether the name that begins at `i` is that of a sheet, or the first of two
/// sheets.
pub open spec fn sheeted(s: Seq<char>, i: int) -> bool {
    banged(s, i) || scan::has_second(s, scan::name_end(s, i))
}

/// What kind of half it is.
pub enum Sort {
    Cell,
    Col,
    Row,
}

pub open spec fn sort(h: scan::Half) -> Sort {
    match h {
        scan::Half::Cell(_) => Sort::Cell,
        scan::Half::Col(_) => Sort::Col,
        scan::Half::Row(_) => Sort::Row,
    }
}

/// Whether no reference without a sheet may end at `e`.
pub open spec fn blocked(s: Seq<char>, e: int) -> bool {
    e < s.len() && (scan::name_char(s[e]) || s[e] == '$' || s[e] == '(')
}

/// The kind of the half at `i`, and whether no reference may end behind it.
pub open spec fn half_seen(s: Seq<char>, i: int) -> Option<(Sort, bool)> {
    match scan::half_at(s, i) {
        Some((h, e)) => Some((sort(h), blocked(s, e))),
        None => None,
    }
}

/// A sign before a digit.
pub open spec fn signed(s: Seq<char>, i: int) -> bool {
    (scan::at(s, i) == Some('+') || scan::at(s, i) == Some('-')) && lexer::digit_at(s, i + 1)
}

/// The exponent of a number.
pub open spec fn exponent(s: Seq<char>, i: int) -> bool {
    (scan::at(s, i) == Some('e') || scan::at(s, i) == Some('E')) && (lexer::digit_at(s, i + 1)
        || signed(s, i + 1))
}

/// A dollar before a digit.
pub open spec fn row_dollar(s: Seq<char>, i: int) -> bool {
    scan::at(s, i) == Some('$') && lexer::digit_at(s, i + 1)
}

/// The same character, or two letters, or two digits.
pub open spec fn akin(a: Option<char>, b: Option<char>) -> bool {
    ||| a == b
    ||| a is Some && b is Some && text::is_letter(a->0) && text::is_letter(b->0)
    ||| a is Some && b is Some && text::is_digit(a->0) && text::is_digit(b->0)
}

/// From `i` in `s` and from `k` in `z` a token that ends there sees the same.
pub open spec fn alike(s: Seq<char>, i: int, z: Seq<char>, k: int) -> bool {
    &&& 0 <= i <= s.len()
    &&& 0 <= k <= z.len()
    &&& akin(scan::at(s, i), scan::at(z, k))
    &&& banged(s, i) == banged(z, k)
    &&& sheeted(s, i) == sheeted(z, k)
    &&& half_seen(s, i) == half_seen(z, k)
    &&& scan::at(s, i) == Some(':') ==> half_seen(s, i + 1) == half_seen(z, k + 1)
    &&& signed(s, i) == signed(z, k)
    &&& exponent(s, i) == exponent(z, k)
    &&& row_dollar(s, i) == row_dollar(z, k)
}

/// The same character that belongs to no word and begins none.
proof fn lemma_dull(s: Seq<char>, i: int, z: Seq<char>, k: int)
    requires
        0 <= i <= s.len(),
        0 <= k <= z.len(),
        scan::at(s, i) == scan::at(z, k),
        i < s.len() ==> !scan::name_char(s[i]) && s[i] != ':' && s[i] != '$' && s[i] != '+' && s[i]
            != '-',
    ensures
        alike(s, i, z, k),
{
    assert(scan::letters_end(s, i, 3) == i);
    assert(scan::letters_end(z, k, 3) == k);
    assert(scan::digits_end(s, i) == i);
    assert(scan::digits_end(z, k) == k);
}

proof fn lemma_name_over(s: Seq<char>, i: int, e: int)
    requires
        0 <= i <= e <= s.len(),
        forall|k: int| i <= k < e ==> scan::name_char(#[trigger] s[k]),
    ensures
        scan::name_end(s, i) == scan::name_end(s, e),
    decreases e - i,
{
    if i < e {
        assert(scan::name_char(s[i]));
        lemma_name_over(s, i + 1, e);
    }
}

proof fn lemma_space_run(s: Seq<char>, i: int)
    requires
        0 <= i <= s.len(),
    ensures
        i <= lexer::space_end(s, i) <= s.len(),
        forall|k: int| i <= k < lexer::space_end(s, i) ==> text::whitespace(#[trigger] s[k]),
        lexer::space_end(s, i) < s.len() ==> !text::whitespace(s[lexer::space_end(s, i)]),
    decreases s.len() - i,
{
    if i < s.len() && text::whitespace(s[i]) {
        lemma_space_run(s, i + 1);
    }
}

/// Where the name characters of a number end: behind it, or at the sign of its
/// exponent.
proof fn lemma_number_run(s: Seq<char>, i: int)
    requires
        0 <= i < s.len(),
        text::is_digit(s[i]) || s[i] == '.',
    ensures
        scan::digits_end(s, i) <= lexer::number_end(s, i),
        s[i] == '.' && lexer::digit_at(s, i + 1) ==> i + 2 <= lexer::number_end(s, i),
        scan::digits_end(s, i) < lexer::number_end(s, i) ==> scan::name_char(
            s[scan::digits_end(s, i)],
        ),
        ({
            let e = lexer::number_end(s, i);
            let q = scan::name_end(s, i);
            ||| forall|k: int| i <= k < e ==> scan::name_char(#[trigger] s[k])
            ||| i < q < e && (s[q] == '+' || s[q] == '-') && forall|k: int|
                i <= k < q ==> scan::name_char(#[trigger] s[k])
        }),
{
    scan::lemma_digits_end(s, i);
    let whole = scan::digits_end(s, i);
    if scan::at(s, whole) == Some('.') {
        scan::lemma_digits_end(s, whole + 1);
    }
    let frac = if scan::at(s, whole) == Some('.') {
        scan::digits_end(s, whole + 1)
    } else {
        whole
    };
    assert(forall|k: int| i <= k < frac ==> scan::name_char(#[trigger] s[k]));
    if scan::at(s, frac) == Some('e') || scan::at(s, frac) == Some('E') {
        let signed = scan::at(s, frac + 1) == Some('+') || scan::at(s, frac + 1) == Some('-');
        if signed && lexer::digit_at(s, frac + 2) {
            scan::lemma_digits_end(s, frac + 2);
            ref_laws::lemma_name_run(s, i, frac + 1);
        } else if !signed && lexer::digit_at(s, frac + 1) {
            scan::lemma_digits_end(s, frac + 1);
            assert(forall|k: int|
                frac + 1 <= k < lexer::number_end(s, i) ==> text::is_digit(#[trigger] s[k]));
        }
    }
}

/// Where the sheet name that begins at `i` ends, with its `!`.
pub open spec fn sheet_part_end(s: Seq<char>, i: int) -> int {
    let q = scan::name_end(s, i);
    if banged(s, i) {
        q + 1
    } else {
        scan::name_end(s, q + 1) + 1
    }
}

/// Whether no cell or range stands at `p`.
pub open spec fn bodiless(s: Seq<char>, p: int) -> bool {
    match scan::body_at(s, p) {
        Some((b, e)) => !ref_laws::ends(s, e),
        None => true,
    }
}

/// The prefix at a character of a name.
proof fn lemma_prefix_seen(s: Seq<char>, i: int)
    requires
        0 <= i < s.len(),
        scan::name_char(s[i]),
    ensures
        sheeted(s, i) == scan::prefix_at(s, i) is Some,
        sheeted(s, i) ==> (scan::prefix_at(s, i)->0).1 == sheet_part_end(s, i),
        sheeted(s, i) ==> (banged(s, i) == (scan::prefix_at(s, i)->0).0.last is None),
{
    ref_laws::lemma_not_lost(s, i);
    scan::lemma_name_end(s, i);
}

/// A sheet name needs a cell or a range behind it.
#[verifier::spinoff_prover]
#[verifier::rlimit(60)]
proof fn lemma_sheet_needs_body(s: Seq<char>, i: int)
    requires
        0 <= i < s.len(),
        scan::name_char(s[i]),
        sheeted(s, i),
        bodiless(s, sheet_part_end(s, i)),
    ensures
        lexer::tokens(s, i) is Err,
    decreases s.len() - i,
{
    let q = scan::name_end(s, i);
    scan::lemma_name_end(s, i);
    lemma_space_run(s, i);
    let j = lexer::space_end(s, i);
    assert(s[q] == '!' || s[q] == ':');
    assert(j <= q);
    lemma_name_over(s, i, j);
    if !banged(s, i) {
        lemma_sheet_needs_body(s, q + 1);
    }
    assert(lexer::tokens(s, q) is Err) by {
        assert(lexer::space_end(s, q) == q);
    }
    if j < q {
        assert(scan::name_char(s[j]));
        lemma_prefix_seen(s, j);
        let n = text::is_digit(s[j]) || (s[j] == '.' && lexer::digit_at(s, j + 1));
        if n {
            lexer::lemma_number_end(s, j);
            lemma_number_run(s, j);
            let e = lexer::number_end(s, j);
            assert(e <= q);
            if e < q {
                assert(scan::name_char(s[e]));
                lemma_name_over(s, j, e);
                lemma_sheet_needs_body(s, e);
            }
        }
        if lexer::word_start(s[j]) {
            assert(scan::ref_at(s, j) is None);
        }
    }
}

/// A word that is no reference is no sheet name.
proof fn lemma_word_sheetless(s: Seq<char>, i: int)
    requires
        0 <= i < s.len(),
        scan::name_char(s[i]),
        !text::whitespace(s[i]),
        lexer::word_start(s[i]),
        lexer::tokens(s, i) is Ok,
        lexer::mark_at(s, i) is Ok,
        !((lexer::mark_at(s, i)->Ok_0).0 is Ref),
    ensures
        !sheeted(s, i),
{
    if sheeted(s, i) {
        lemma_prefix_seen(s, i);
        if bodiless(s, sheet_part_end(s, i)) {
            lemma_sheet_needs_body(s, i);
        } else {
            assert(scan::ref_at(s, i) is Some);
        }
    }
}

/// `n` characters at `i` of `s` stand at `k` of `z` too.
pub open spec fn copied(s: Seq<char>, i: int, z: Seq<char>, k: int, n: int) -> bool {
    &&& 0 <= i && 0 <= n && i + n <= s.len()
    &&& 0 <= k && k + n <= z.len()
    &&& forall|y: int| k <= y < k + n ==> #[trigger] z[y] == s[y - k + i]
}

proof fn lemma_letters_same(s: Seq<char>, i: int, z: Seq<char>, k: int, n: int, m: nat)
    requires
        copied(s, i, z, k, n),
        i + n < s.len() ==> !text::is_letter(s[i + n]),
        k + n < z.len() ==> !text::is_letter(z[k + n]),
    ensures
        scan::letters_end(z, k, m) - k == scan::letters_end(s, i, m) - i,
        scan::letters_end(s, i, m) - i <= n,
    decreases m,
{
    if m > 0 && n > 0 {
        assert(s[i] == z[k]);
        if text::is_letter(s[i]) {
            lemma_letters_same(s, i + 1, z, k + 1, n - 1, (m - 1) as nat);
        }
    }
}

proof fn lemma_digits_same(s: Seq<char>, i: int, z: Seq<char>, k: int, n: int)
    requires
        copied(s, i, z, k, n),
        i + n < s.len() ==> !text::is_digit(s[i + n]),
        k + n < z.len() ==> !text::is_digit(z[k + n]),
    ensures
        scan::digits_end(z, k) - k == scan::digits_end(s, i) - i,
        0 <= scan::digits_end(s, i) - i <= n,
    decreases n,
{
    if n > 0 {
        assert(s[i] == z[k]);
        if text::is_digit(s[i]) {
            lemma_digits_same(s, i + 1, z, k + 1, n - 1);
        }
    }
}

proof fn lemma_row_same(s: Seq<char>, i: int, z: Seq<char>, k: int, n: int)
    requires
        copied(s, i, z, k, n),
        i + n < s.len() ==> !text::is_digit(s[i + n]),
        k + n < z.len() ==> !text::is_digit(z[k + n]),
    ensures
        scan::number_at(s, i) is Some == scan::number_at(z, k) is Some,
        match scan::row_at(s, i) {
            Some((v, e)) => i < e <= i + n && scan::row_at(z, k) == Some((v, e - i + k)),
            None => scan::row_at(z, k) is None,
        },
{
    lemma_digits_same(s, i, z, k, n);
    let e = scan::digits_end(s, i);
    assert(s.subrange(i, e) =~= z.subrange(k, e - i + k));
}

/// The halves at `i` and `k` are the same, and end within `n` characters.
pub open spec fn halves_agree(s: Seq<char>, i: int, z: Seq<char>, k: int, n: int) -> bool {
    match scan::half_at(s, i) {
        Some((h, e)) => i < e <= i + n && scan::half_at(z, k) == Some((h, e - i + k)),
        None => scan::half_at(z, k) is None,
    }
}

/// A half within characters that are the same.
proof fn lemma_half_same(s: Seq<char>, i: int, z: Seq<char>, k: int, n: int)
    requires
        copied(s, i, z, k, n),
        n > 0,
        s[i] != '$',
        i + n < s.len() ==> !text::is_letter(s[i + n]) && !text::is_digit(s[i + n]),
        k + n < z.len() ==> !text::is_letter(z[k + n]) && !text::is_digit(z[k + n]),
        scan::letters_end(s, i, 3) == i + n ==> scan::at(s, i + n) != Some('$') && scan::at(
            z,
            k + n,
        ) != Some('$'),
    ensures
        halves_agree(s, i, z, k, n),
{
    lemma_letters_same(s, i, z, k, n, 3);
    scan::lemma_letters_end(s, i, 3);
    let p = scan::letters_end(s, i, 3);
    let y = p - i + k;
    assert(s[i] == z[k]);
    assert(s.subrange(i, p) =~= z.subrange(k, y));
    if p < i + n {
        assert(s[p] == z[y]);
        lemma_row_same(s, p, z, y, n - (p - i));
        lemma_row_same(s, p + 1, z, y + 1, n - (p - i) - 1);
    } else {
        lemma_row_same(s, p, z, y, 0);
    }
}

/// Whether a reference without a sheet begins at `i`, by what its halves are.
pub open spec fn taken(s: Seq<char>, i: int) -> bool {
    match scan::half_at(s, i) {
        Some((h, e)) => {
            let second = half_seen(s, e + 1);
            if scan::at(s, e) == Some(':') && second is Some && (second->0).0 == sort(h) {
                !(second->0).1
            } else {
                h is Cell && !blocked(s, e)
            }
        },
        None => false,
    }
}

/// A word is a reference or not by what its halves are.
proof fn lemma_taken(s: Seq<char>, i: int)
    requires
        0 <= i < s.len(),
        lexer::word_start(s[i]),
        s[i] != '#',
        scan::prefix_at(s, i) is None,
    ensures
        !taken(s, i) ==> lexer::mark_at(s, i) == lexer::word_at(s, i),
        taken(s, i) ==> lexer::mark_at(s, i) is Ok && (lexer::mark_at(s, i)->Ok_0).0 is Ref,
{
    ref_laws::lemma_not_lost(s, i);
    scan::lemma_half_at(s, i);
    if let Some((h, e)) = scan::half_at(s, i) {
        if e < s.len() {
            scan::lemma_half_at(s, e + 1);
        }
        if let Some((g, f)) = scan::half_at(s, e + 1) {
            assert(scan::paired(h, g) is Some == (sort(h) == sort(g)));
        }
        if scan::at(s, e) == Some(':') {
            assert(half_seen(s, e + 1) is Some == scan::half_at(s, e + 1) is Some);
        }
    }
}

/// The halves of a word that is the same, before places that are alike.
proof fn lemma_halves_kept(s: Seq<char>, i: int, z: Seq<char>, k: int, n: int)
    requires
        copied(s, i, z, k, n),
        halves_agree(s, i, z, k, n),
        alike(s, i + n, z, k + n),
        scan::half_at(s, i) matches Some((h, e)) ==> e < i + n ==> scan::name_char(s[e]),
    ensures
        half_seen(s, i) == half_seen(z, k),
        taken(s, i) == taken(z, k),
{
    if let Some((h, e)) = scan::half_at(s, i) {
        if e < i + n {
            assert(s[e] == z[e - i + k]);
        }
    }
}

/// A number ends where it did.
#[verifier::spinoff_prover]
#[verifier::rlimit(60)]
proof fn lemma_number_again(s: Seq<char>, i: int, z: Seq<char>, k: int)
    requires
        0 <= i < s.len(),
        text::is_digit(s[i]) || s[i] == '.',
        copied(s, i, z, k, lexer::number_end(s, i) - i),
        alike(s, lexer::number_end(s, i), z, lexer::number_end(s, i) - i + k),
    ensures
        lexer::number_end(z, k) == lexer::number_end(s, i) - i + k,
{
    let e = lexer::number_end(s, i);
    lexer::lemma_number_end(s, i);
    scan::lemma_digits_end(s, i);
    let whole = scan::digits_end(s, i);
    let dot = scan::at(s, whole) == Some('.');
    if dot {
        scan::lemma_digits_end(s, whole + 1);
    }
    let frac = if dot {
        scan::digits_end(s, whole + 1)
    } else {
        whole
    };
    let sign = scan::at(s, frac + 1) == Some('+') || scan::at(s, frac + 1) == Some('-');
    let q = if sign {
        frac + 2
    } else {
        frac + 1
    };
    if lexer::digit_at(s, q) {
        scan::lemma_digits_end(s, q);
    }
    assert(i <= whole <= frac <= e);
    if whole < e {
        assert(s[whole] == z[whole - i + k]);
    }
    ref_laws::lemma_digits_run(z, k, whole - i + k);
    if dot {
        assert(whole < e);
        if frac < e {
            assert(s[frac] == z[frac - i + k]);
        }
        ref_laws::lemma_digits_run(z, whole + 1 - i + k, frac - i + k);
    }
    if exponent(s, frac) {
        assert(e == scan::digits_end(s, q));
        assert(frac < q < e);
        assert(s[frac] == z[frac - i + k]);
        assert(s[frac + 1] == z[frac + 1 - i + k]);
        assert(s[q] == z[q - i + k]);
        ref_laws::lemma_digits_run(z, q - i + k, e - i + k);
    } else {
        assert(e == frac);
    }
}

/// A number reads as it did.
#[verifier::spinoff_prover]
#[verifier::rlimit(60)]
proof fn lemma_number_kept(s: Seq<char>, i: int, z: Seq<char>, k: int, e: int)
    requires
        0 <= i < s.len(),
        lexer::tokens(s, i) is Ok,
        !text::whitespace(s[i]),
        lexer::mark_at(s, i) is Ok,
        (lexer::mark_at(s, i)->Ok_0).0 is Num,
        (lexer::mark_at(s, i)->Ok_0).1 == e,
        copied(s, i, z, k, e - i),
        alike(s, e, z, e - i + k),
    ensures
        lexer::mark_at(z, k) == Ok::<(lexer::Mark, int), crate::error::Error>(
            ((lexer::mark_at(s, i)->Ok_0).0, e - i + k),
        ),
        alike(s, i, z, k),
{
    let n = e - i;
    assert(text::is_digit(s[i]) || s[i] == '.');
    assert(e == lexer::number_end(s, i));
    lexer::lemma_number_end(s, i);
    lemma_number_again(s, i, z, k);
    assert(s[i] == z[k]);
    assert(s.subrange(i, e) =~= z.subrange(k, e - i + k));
    lemma_number_run(s, i);
    let q = scan::name_end(s, i);
    if forall|x: int| i <= x < e ==> scan::name_char(#[trigger] s[x]) {
        lemma_name_over(s, i, e);
        lemma_name_over(z, k, e - i + k);
    } else {
        assert(s[q] == z[q - i + k]);
        ref_laws::lemma_name_run(z, k, q - i + k);
    }
    assert(banged(s, i) == banged(z, k) && sheeted(s, i) == sheeted(z, k));
    if text::is_digit(s[i]) {
        lemma_word_sheetless(s, i);
        lemma_prefix_seen(s, i);
        lemma_prefix_seen(z, k);
        scan::lemma_digits_end(s, i);
        let whole = scan::digits_end(s, i);
        assert(whole <= e);
        if whole < e {
            assert(s[whole] == z[whole - i + k]);
            assert(scan::name_char(s[whole]));
        }
        lemma_row_same(s, i, z, k, whole - i);
        assert(scan::letters_end(s, i, 3) == i);
        assert(scan::letters_end(z, k, 3) == k);
        assert(halves_agree(s, i, z, k, whole - i));
        lemma_halves_kept(s, i, z, k, n);
        lemma_taken(s, i);
        lemma_taken(z, k);
    } else {
        assert(s[i + 1] == z[k + 1]);
        assert(scan::letters_end(s, i, 3) == i);
        assert(scan::letters_end(z, k, 3) == k);
        assert(scan::digits_end(s, i) == i);
        assert(scan::digits_end(z, k) == k);
    }
}

/// The token `m` stands from `i` to `e`, and tokens stand behind it.
pub open spec fn reads(s: Seq<char>, i: int, m: lexer::Mark, e: int) -> bool {
    &&& 0 <= i < e <= s.len()
    &&& !text::whitespace(s[i])
    &&& lexer::mark_at(s, i) == Ok::<(lexer::Mark, int), crate::error::Error>((m, e))
    &&& lexer::tokens(s, e) is Ok
}

/// The token `m` stands from `k` to `e` of `z`, and a token before it sees the
/// same there as at `i` of `s`.
pub open spec fn reads_again(
    s: Seq<char>,
    i: int,
    z: Seq<char>,
    k: int,
    m: lexer::Mark,
    e: int,
) -> bool {
    &&& lexer::mark_at(z, k) == Ok::<(lexer::Mark, int), crate::error::Error>((m, e))
    &&& alike(s, i, z, k)
}

proof fn lemma_copied(s: Seq<char>, i: int, z: Seq<char>, k: int, e: int)
    requires
        0 <= i <= e <= s.len(),
        scan::stands(z, k, s.subrange(i, e)),
    ensures
        copied(s, i, z, k, e - i),
{
    assert forall|y: int| k <= y < k + (e - i) implies #[trigger] z[y] == s[y - k + i] by {
        ref_laws::lemma_stands(z, k, s.subrange(i, e), y - k);
    }
}

/// What is known of a name or a truth value that was read: it takes all its name
/// characters, and neither a sheet name nor a reference begins with it.
proof fn lemma_word_end(s: Seq<char>, i: int, m: lexer::Mark, e: int)
    requires
        reads(s, i, m, e),
        m is Name || m is Bool,
    ensures
        e == scan::name_end(s, i),
        e < s.len() ==> !scan::name_char(s[e]) && s[e] != '!',
        forall|x: int| i <= x < e ==> scan::name_char(#[trigger] s[x]),
        s[i] != '#',
        lexer::word_start(s[i]),
        !text::is_digit(s[i]),
        !banged(s, i),
        !sheeted(s, i),
        sheeted(s, e) == sheeted(s, i),
        scan::prefix_at(s, i) is None,
        !taken(s, i),
        lexer::mark_at(s, i) == lexer::word_at(s, i),
{
    assert(lexer::space_end(s, i) == i);
    assert(lexer::space_end(s, e) == e || scan::at(s, e) != Some('!'));
    scan::lemma_name_end(s, i);
    assert(e == scan::name_end(s, i));
    assert(scan::name_char(s[i]));
    lemma_word_sheetless(s, i);
    lemma_prefix_seen(s, i);
    lemma_taken(s, i);
}

/// Letters before a dollar that are a name and no part of a cell.
#[verifier::spinoff_prover]
proof fn lemma_dollar_halfless(s: Seq<char>, i: int, m: lexer::Mark, e: int)
    requires
        reads(s, i, m, e),
        m is Name,
        scan::letters_end(s, i, 3) == e,
        scan::at(s, e) == Some('$'),
    ensures
        refs::col_of(s.subrange(i, e)) is None || !lexer::digit_at(s, e + 1),
        scan::half_at(s, i) is None,
{
    lemma_word_end(s, i, m, e);
    assert(lexer::space_end(s, e) == e);
    assert(lexer::mark_at(s, e) is Ok);
    assert(scan::prefix_at(s, e) is None) by {
        ref_laws::lemma_not_lost(s, e);
    }
    ref_laws::lemma_not_lost(s, e);
    assert(scan::ref_at(s, e) is Some);
    if lexer::digit_at(s, e + 1) {
        assert(scan::letters_end(s, e + 1, 3) == e + 1);
        assert(scan::body_at(s, e) is Some);
        let (row, p) = scan::row_at(s, e + 1)->0;
        assert(scan::at(s, p) == Some(':'));
        assert(scan::half_at(s, p + 1) is Some);
        assert((scan::half_at(s, p + 1)->0).0 is Row);
        if refs::col_of(s.subrange(i, e)) is Some {
            assert(taken(s, i));
        }
    } else {
        assert(scan::digits_end(s, e + 1) == e + 1);
    }
}

/// A name reads as it did.
#[verifier::spinoff_prover]
#[verifier::rlimit(60)]
proof fn lemma_name_kept(s: Seq<char>, i: int, z: Seq<char>, k: int, m: lexer::Mark, e: int)
    requires
        reads(s, i, m, e),
        m is Name,
        copied(s, i, z, k, e - i),
        alike(s, e, z, e - i + k),
    ensures
        reads_again(s, i, z, k, m, e - i + k),
{
    let n = e - i;
    let y = e - i + k;
    lemma_word_end(s, i, m, e);
    ref_laws::lemma_name_run(z, k, y);
    assert(s[i] == z[k]);
    assert(s.subrange(i, e) =~= z.subrange(k, y));
    assert(scan::name_end(z, y) == y);
    assert(!banged(z, k));
    assert(sheeted(z, k) == sheeted(z, y));
    lemma_prefix_seen(z, k);
    if scan::letters_end(s, i, 3) == e && scan::at(s, e) == Some('$') {
        lemma_dollar_halfless(s, i, m, e);
        lemma_letters_same(s, i, z, k, n, 3);
        assert(row_dollar(s, e) == row_dollar(z, y));
        if !lexer::digit_at(z, y + 1) {
            assert(scan::digits_end(z, y + 1) == y + 1);
        }
        assert(scan::half_at(z, k) is None);
    } else {
        lemma_half_same(s, i, z, k, n);
    }
    lemma_halves_kept(s, i, z, k, n);
    lemma_taken(z, k);
    assert(exponent(s, i) == exponent(z, k)) by {
        if n >= 2 {
            assert(s[i + 1] == z[k + 1]);
            assert(scan::name_char(s[i + 1]));
        }
    }
}

/// A truth value in capitals is the same truth value.
#[verifier::spinoff_prover]
#[verifier::rlimit(60)]
proof fn lemma_bool_kept(s: Seq<char>, i: int, z: Seq<char>, k: int, b: bool, e: int)
    requires
        reads(s, i, lexer::Mark::Bool(b), e),
        scan::stands(z, k, print::bool_text(b)),
        alike(s, e, z, k + print::bool_text(b).len()),
    ensures
        reads_again(
            s,
            i,
            z,
            k,
            lexer::Mark::Bool(b),
            k + print::bool_text(b).len() as int,
        ),
{
    let t = print::bool_text(b);
    let y = k + t.len();
    lemma_word_end(s, i, lexer::Mark::Bool(b), e);
    let name = s.subrange(i, e);
    assert(text::lowered(name) == text::lowered(t));
    assert(name.len() == text::lowered(name).len());
    assert forall|x: int| 0 <= x < t.len() implies text::is_letter(#[trigger] s[i + x])
        && text::is_letter(z[k + x]) by {
        assert(text::lowered(name)[x] == text::lower(name[x]));
        assert(text::lowered(t)[x] == text::lower(t[x]));
        ref_laws::lemma_stands(z, k, t, x);
    }
    assert(text::lower(s[i]) == text::lower(t[0])) by {
        assert(text::lowered(name)[0] == text::lower(name[0]));
        assert(text::lowered(t)[0] == text::lower(t[0]));
    }
    ref_laws::lemma_stands(z, k, t, 0);
    assert(z.subrange(k, y) == t);
    assert forall|x: int| k <= x < y implies scan::name_char(#[trigger] z[x]) by {
        assert(text::is_letter(z[k + (x - k)]));
        assert(text::is_letter(s[i + (x - k)]));
    }
    ref_laws::lemma_name_run(z, k, y);
    assert(text::is_letter(s[i + 0]) && text::is_letter(s[i + 1]) && text::is_letter(s[i + 2])
        && text::is_letter(s[i + 3]));
    assert(scan::letters_end(s, i, 3) == i + 3) by {
        reveal_with_fuel(scan::letters_end, 4);
    }
    assert(scan::letters_end(z, k, 3) == k + 3) by {
        reveal_with_fuel(scan::letters_end, 4);
    }
    assert(scan::half_at(s, i) is None);
    assert(scan::half_at(z, k) is None);
    assert(scan::name_end(z, y) == y);
    assert(!banged(z, k));
    assert(sheeted(z, k) == sheeted(z, y));
    lemma_prefix_seen(z, k);
    lemma_taken(z, k);
    if !b {
        assert(text::lowered(t).len() != text::lowered(print::bool_text(true)).len());
    }
}

/// A string reads as it did.
proof fn lemma_string_kept(s: Seq<char>, i: int, z: Seq<char>, k: int, t: Seq<char>, e: int)
    requires
        reads(s, i, lexer::Mark::Str(t), e),
        scan::stands(z, k, print::string_text(t)),
        alike(s, e, z, k + print::string_text(t).len()),
    ensures
        reads_again(
            s,
            i,
            z,
            k,
            lexer::Mark::Str(t),
            k + print::string_text(t).len() as int,
        ),
{
    let w = refs::doubled(t, '"') + seq!['"'];
    assert(s[i] == '"');
    scan::lemma_unquoted(s, i + 1, '"');
    assert(print::string_text(t) =~= seq!['"'] + w);
    ref_laws::lemma_stands_split(z, k, seq!['"'], w);
    ref_laws::lemma_stands(z, k, seq!['"'], 0);
    ref_laws::lemma_quoted_read(z, k + 1, t, '"');
    lemma_dull(s, i, z, k);
}

/// An operator or a bracket reads as it did.
proof fn lemma_sign_kept(s: Seq<char>, i: int, z: Seq<char>, k: int, m: lexer::Mark, e: int)
    requires
        reads(s, i, m, e),
        s[i] != '"',
        !lexer::word_start(s[i]),
        !(m is Num),
        copied(s, i, z, k, e - i),
        alike(s, e, z, e - i + k),
    ensures
        reads_again(s, i, z, k, m, e - i + k),
{
    assert(s[i] == z[k]);
    assert(!(s[i] == '.' && lexer::digit_at(s, i + 1)));
    assert(lexer::punct(s[i], scan::at(s, i + 1)) == Some((m, e - i)));
    if e == i + 2 {
        assert(s[i + 1] == z[k + 1]);
    }
    assert(!scan::name_char(s[i]));
    assert(scan::name_end(s, i) == i);
    assert(scan::name_end(z, k) == k);
    assert(lexer::punct(z[k], scan::at(z, k + 1)) == Some((m, e - i)));
    if s[i] == ':' || s[i] == '+' || s[i] == '-' {
        scan::lemma_name_end(s, e);
        scan::lemma_name_end(z, e - i + k);
        assert(scan::letters_end(s, i, 3) == i);
        assert(scan::letters_end(z, k, 3) == k);
        assert(scan::digits_end(s, i) == i);
        assert(scan::digits_end(z, k) == k);
    } else {
        lemma_dull(s, i, z, k);
    }
}

/// No error is written as the beginning of another, nor of `#REF!`.
#[verifier::spinoff_prover]
#[verifier::rlimit(60)]
proof fn lemma_errors_apart(a: ErrKind, b: ErrKind)
    ensures
        a.spelling().len() >= 4,
        b.spelling().len() >= 4,
        a.spelling()[0] == '#',
        a.spelling()[1] != 'R',
        a != b ==> a.spelling()[1] != b.spelling()[1] || a.spelling()[2] != b.spelling()[2]
            || a.spelling()[3] != b.spelling()[3],
{
    reveal_strlit("#DIV/0!");
    reveal_strlit("#N/A");
    reveal_strlit("#VALUE!");
    reveal_strlit("#NAME?");
    reveal_strlit("#NULL!");
    reveal_strlit("#NUM!");
    reveal_strlit("#GETTING_DATA");
    reveal_strlit("#SPILL!");
    reveal_strlit("#CALC!");
    reveal_strlit("#FIELD!");
    reveal_strlit("#BLOCKED!");
    reveal_strlit("#CONNECT!");
    reveal_strlit("#UNKNOWN!");
    reveal_strlit("#BUSY!");
    reveal_strlit("#EXTERNAL!");
}

proof fn lemma_error_again(s: Seq<char>, i: int, z: Seq<char>, k: int, x: ErrKind, j: int)
    requires
        0 <= j,
        lexer::error_from(s, i, j) == Some(x),
        copied(s, i, z, k, x.spelling().len() as int),
    ensures
        lexer::error_from(z, k, j) == Some(x),
    decreases 15 - j,
{
    let a = lexer::nth_error(j);
    let t = x.spelling();
    laws::lemma_error_stands(s, i, j);
    lemma_errors_apart(a, x);
    assert(z.subrange(k, k + t.len()) =~= t) by {
        assert forall|d: int| 0 <= d < t.len() implies z.subrange(k, k + t.len())[d] == t[d] by {
            ref_laws::lemma_stands(s, i, t, d);
            assert(z[k + d] == s[k + d - k + i]);
        }
    }
    if a != x {
        assert(!scan::stands(s, i, a.spelling()));
        if scan::stands(z, k, a.spelling()) {
            ref_laws::lemma_stands(z, k, a.spelling(), 1);
            ref_laws::lemma_stands(z, k, a.spelling(), 2);
            ref_laws::lemma_stands(z, k, a.spelling(), 3);
            ref_laws::lemma_stands(z, k, t, 1);
            ref_laws::lemma_stands(z, k, t, 2);
            ref_laws::lemma_stands(z, k, t, 3);
        }
        lemma_error_again(s, i, z, k, x, j + 1);
    }
}

/// An error reads as it did.
proof fn lemma_error_kept(s: Seq<char>, i: int, z: Seq<char>, k: int, x: ErrKind, e: int)
    requires
        reads(s, i, lexer::Mark::Error(x), e),
        copied(s, i, z, k, e - i),
    ensures
        reads_again(s, i, z, k, lexer::Mark::Error(x), e - i + k),
{
    assert(s[i] == '#');
    assert(s[i] == z[k]);
    laws::lemma_error_stands(s, i, 0);
    lemma_error_again(s, i, z, k, x, 0);
    lemma_errors_apart(x, x);
    ref_laws::lemma_stands(s, i, x.spelling(), 1);
    assert(s[i + 1] == z[k + 1]);
    if scan::stands(z, k, scan::lost()) {
        ref_laws::lemma_stands(z, k, scan::lost(), 1);
    }
    assert(scan::name_end(z, k) == k);
    assert(scan::letters_end(z, k, 3) == k);
    assert(scan::digits_end(z, k) == k);
    assert(scan::ref_at(z, k) is None);
    lemma_dull(s, i, z, k);
}

/// What stands behind the sheet name reads as it did.
proof fn lemma_body_kept(s: Seq<char>, p: int, z: Seq<char>, k: int, b: RefBody, e: int)
    requires
        0 <= p <= s.len(),
        scan::body_at(s, p) == Some((b, e)),
        ref_laws::ends(s, e),
        refs::on_grid(b),
        scan::stands(z, k, refs::body_text(b)),
        alike(s, e, z, k + refs::body_text(b).len()),
    ensures
        ref_laws::ends(z, k + refs::body_text(b).len()),
        scan::body_at(z, k) == Some((b, k + refs::body_text(b).len() as int)),
{
    let y = k + refs::body_text(b).len();
    if let RefBody::Cell(c) = b {
        let h = scan::Half::Cell(c);
        assert(scan::half_at(s, p) == Some((h, e)));
        assert(scan::range_at(s, h, e) is None);
        assert(half_seen(s, e + 1) == half_seen(z, y + 1) || scan::at(s, e) != Some(':'));
        assert(scan::range_at(z, h, y) is None);
    }
    ref_laws::lemma_body_read(z, k, b);
}

/// Letters that spell the same column are the same letters.
proof fn lemma_column_letters(a: Seq<char>, b: Seq<char>)
    requires
        refs::all_letters(a),
        refs::all_letters(b),
        refs::col_value(a) == refs::col_value(b),
    ensures
        a.len() == b.len(),
        forall|d: int|
            0 <= d < a.len() ==> refs::letter_value(#[trigger] a[d]) == refs::letter_value(b[d]),
    decreases a.len(),
{
    if a.len() > 0 {
        assert(refs::letter_value(a[a.len() - 1]) > 0);
    }
    if b.len() > 0 {
        assert(refs::letter_value(b[b.len() - 1]) > 0);
    }
    if a.len() > 0 && b.len() > 0 {
        let x = a.drop_last();
        let y = b.drop_last();
        assert forall|d: int| 0 <= d < x.len() implies refs::letter_value(#[trigger] x[d]) > 0 by {
            assert(x[d] == a[d]);
        }
        assert forall|d: int| 0 <= d < y.len() implies refs::letter_value(#[trigger] y[d]) > 0 by {
            assert(y[d] == b[d]);
        }
        lemma_column_letters(x, y);
        assert forall|d: int| 0 <= d < a.len() implies refs::letter_value(#[trigger] a[d])
            == refs::letter_value(b[d]) by {
            if d < x.len() {
                assert(x[d] == a[d]);
                assert(y[d] == b[d]);
            }
        }
    }
}

/// The text of a half.
pub open spec fn half_text(h: scan::Half) -> Seq<char> {
    match h {
        scan::Half::Cell(c) => refs::cell_text(c),
        scan::Half::Col(l) => refs::dollar(l.abs) + refs::col_text(l.idx as nat),
        scan::Half::Row(l) => refs::dollar(l.abs) + refs::row_text(l.idx as nat),
    }
}

/// A half on the sheet.
pub open spec fn half_on_grid(h: scan::Half) -> bool {
    match h {
        scan::Half::Cell(c) => c.col <= refs::MAX_COL && c.row <= refs::MAX_ROW,
        scan::Half::Col(l) => l.idx <= refs::MAX_COL,
        scan::Half::Row(l) => l.idx <= refs::MAX_ROW,
    }
}

/// A half may end at `e`.
pub open spec fn half_ends(s: Seq<char>, e: int) -> bool {
    e < s.len() ==> !text::is_letter(s[e]) && !text::is_digit(s[e]) && s[e] != '$'
}

/// A half reads as it is written.
proof fn lemma_half_read(z: Seq<char>, k: int, h: scan::Half)
    requires
        half_on_grid(h),
        scan::stands(z, k, half_text(h)),
        half_ends(z, k + half_text(h).len()),
    ensures
        half_text(h).len() > 0,
        scan::half_at(z, k) == Some((h, k + half_text(h).len() as int)),
{
    match h {
        scan::Half::Cell(c) => ref_laws::lemma_cell_read(z, k, c),
        scan::Half::Col(l) => {
            refs::lemma_col_round_trip(l.idx as nat);
            ref_laws::lemma_col_line_read(z, k, l)
        },
        scan::Half::Row(l) => {
            ref_laws::lemma_decimal(l.idx as nat + 1);
            ref_laws::lemma_row_line_read(z, k, l)
        },
    }
}

/// The column letters at `f` begin as those of column `col` do.
pub open spec fn column_begins(s: Seq<char>, f: int, col: nat) -> bool {
    &&& text::is_letter(s[f])
    &&& refs::letter_value(s[f]) == refs::letter_value(refs::col_text(col)[0])
    &&& refs::col_text(col).len() > 1 ==> f + 1 < s.len() && text::is_letter(s[f + 1])
}

/// How the half `h` begins at `i`, up to the spelling of its letters and digits;
/// its end is `e`.
pub open spec fn half_begins(s: Seq<char>, i: int, h: scan::Half, e: int) -> bool {
    let abs = match h {
        scan::Half::Cell(c) => c.col_abs,
        scan::Half::Col(l) => l.abs,
        scan::Half::Row(l) => l.abs,
    };
    let f = if abs {
        i + 1
    } else {
        i
    };
    &&& 0 <= i <= f < s.len()
    &&& (s[i] == '$') == abs
    &&& match h {
        scan::Half::Cell(c) => {
            &&& column_begins(s, f, c.col as nat)
            &&& f + 1 < s.len()
            &&& refs::col_text(c.col as nat).len() == 1 ==> if c.row_abs {
                s[f + 1] == '$'
            } else {
                text::is_digit(s[f + 1])
            }
        },
        scan::Half::Col(l) => {
            &&& column_begins(s, f, l.idx as nat)
            &&& refs::col_text(l.idx as nat).len() == 1 ==> e == f + 1
        },
        scan::Half::Row(_) => text::is_digit(s[f]),
    }
}

/// How the letters begin that were read as a column.
proof fn lemma_column_begins(s: Seq<char>, f: int, p: int, col: u32)
    requires
        0 <= f < p <= s.len(),
        refs::col_of(s.subrange(f, p)) == Some(col),
    ensures
        column_begins(s, f, col as nat),
        refs::col_text(col as nat).len() == p - f,
{
    let a = s.subrange(f, p);
    refs::lemma_col_round_trip(col as nat);
    assert(refs::letter_value(a[a.len() - 1]) > 0);
    lemma_column_letters(a, refs::col_text(col as nat));
    assert(refs::letter_value(a[0]) > 0);
    assert(a[0] == s[f]);
    if a.len() > 1 {
        assert(refs::letter_value(a[1]) > 0);
        assert(a[1] == s[f + 1]);
    }
}

/// How a half begins that was read.
proof fn lemma_half_begins(s: Seq<char>, i: int)
    requires
        0 <= i <= s.len(),
    ensures
        scan::half_at(s, i) matches Some((h, e)) ==> half_begins(s, i, h, e) && half_on_grid(h),
{
    if let Some((h, e)) = scan::half_at(s, i) {
        let f = if scan::at(s, i) == Some('$') {
            i + 1
        } else {
            i
        };
        let p = scan::letters_end(s, f, 3);
        scan::lemma_letters_end(s, f, 3);
        scan::lemma_digits_end(s, f);
        if p > f {
            assert(text::is_letter(s[f]));
            lemma_column_begins(s, f, p, refs::col_of(s.subrange(f, p))->0);
            if let scan::Half::Cell(c) = h {
                if c.row_abs {
                    scan::lemma_digits_end(s, p + 1);
                    assert(s[p] == '$');
                } else {
                    scan::lemma_digits_end(s, p);
                    assert(text::is_digit(s[p]));
                }
            }
        } else {
            assert(text::is_digit(s[f]));
        }
    }
}

/// How a half begins that is written as it is printed.
proof fn lemma_half_text_begins(z: Seq<char>, k: int, h: scan::Half)
    requires
        half_on_grid(h),
        scan::stands(z, k, half_text(h)),
    ensures
        half_begins(z, k, h, k + half_text(h).len() as int),
{
    let t = half_text(h);
    match h {
        scan::Half::Cell(c) => {
            let col = refs::col_text(c.col as nat);
            let row = refs::row_text(c.row as nat);
            refs::lemma_col_round_trip(c.col as nat);
            ref_laws::lemma_decimal(c.row as nat + 1);
            assert(text::is_digit(row[0]));
            let d = refs::dollar(c.col_abs).len() as int;
            assert(t[0] == (if c.col_abs {
                '$'
            } else {
                col[0]
            }));
            assert(t[d] == col[0]);
            assert(t[d + 1] == (if col.len() > 1 {
                col[1]
            } else if c.row_abs {
                '$'
            } else {
                row[0]
            }));
            ref_laws::lemma_stands(z, k, t, 0);
            ref_laws::lemma_stands(z, k, t, d);
            ref_laws::lemma_stands(z, k, t, d + 1);
        },
        scan::Half::Col(l) => {
            let col = refs::col_text(l.idx as nat);
            refs::lemma_col_round_trip(l.idx as nat);
            let d = refs::dollar(l.abs).len() as int;
            ref_laws::lemma_stands(z, k, t, 0);
            ref_laws::lemma_stands(z, k, t, d);
            if col.len() > 1 {
                ref_laws::lemma_stands(z, k, t, d + 1);
            }
        },
        scan::Half::Row(l) => {
            let row = refs::row_text(l.idx as nat);
            ref_laws::lemma_decimal(l.idx as nat + 1);
            assert(text::is_digit(row[0]));
            let d = refs::dollar(l.abs).len() as int;
            ref_laws::lemma_stands(z, k, t, 0);
            ref_laws::lemma_stands(z, k, t, d);
        },
    }
}

/// The beginnings of the same half see the same, but for the sheet before it.
proof fn lemma_half_alike(
    s: Seq<char>,
    i: int,
    z: Seq<char>,
    k: int,
    h: scan::Half,
    e: int,
    y: int,
)
    requires
        0 <= i < s.len(),
        0 <= k < z.len(),
        scan::half_at(s, i) == Some((h, e)),
        scan::half_at(z, k) == Some((h, y)),
        half_begins(s, i, h, e),
        half_begins(z, k, h, y),
        blocked(s, e) == blocked(z, y),
        h is Cell || (scan::at(s, e) == Some(':') && scan::at(z, y) == Some(':')),
        scan::prefix_at(s, i) is None,
        scan::prefix_at(z, k) is None,
    ensures
        alike(s, i, z, k),
        lexer::word_start(z[k]),
        z[k] != '#',
{
    if s[i] == '$' {
        assert(scan::name_end(s, i) == i);
        assert(scan::name_end(z, k) == k);
    } else {
        lemma_prefix_seen(s, i);
        lemma_prefix_seen(z, k);
    }
}

/// The name characters at a half that begins with no dollar go through it, or up
/// to the dollar of its row.
proof fn lemma_half_run(z: Seq<char>, k: int, h: scan::Half)
    requires
        half_on_grid(h),
        scan::stands(z, k, half_text(h)),
        z[k] != '$',
    ensures
        ({
            let y = k + half_text(h).len();
            if h is Cell && h->Cell_0.row_abs {
                scan::at(z, scan::name_end(z, k)) == Some('$')
            } else {
                scan::name_end(z, k) == scan::name_end(z, y)
            }
        }),
{
    let t = half_text(h);
    let y = k + t.len();
    lemma_half_text_begins(z, k, h);
    match h {
        scan::Half::Cell(c) => {
            let col = refs::col_text(c.col as nat);
            let row = refs::row_text(c.row as nat);
            refs::lemma_col_round_trip(c.col as nat);
            ref_laws::lemma_decimal(c.row as nat + 1);
            assert(t =~= col + (refs::dollar(c.row_abs) + row));
            assert forall|x: int| k <= x < k + col.len() implies scan::name_char(#[trigger] z[x]) by {
                ref_laws::lemma_stands(z, k, t, x - k);
                assert(t[x - k] == col[x - k]);
            }
            if c.row_abs {
                ref_laws::lemma_stands(z, k, t, col.len() as int);
                ref_laws::lemma_name_run(z, k, k + col.len());
            } else {
                assert forall|x: int| k <= x < y implies scan::name_char(#[trigger] z[x]) by {
                    ref_laws::lemma_stands(z, k, t, x - k);
                    if x >= k + col.len() {
                        assert(t[x - k] == row[x - k - col.len()]);
                        assert(text::is_digit(row[x - k - col.len()]));
                    }
                }
                lemma_name_over(z, k, y);
            }
        },
        scan::Half::Col(l) => {
            let col = refs::col_text(l.idx as nat);
            refs::lemma_col_round_trip(l.idx as nat);
            assert(t =~= col);
            assert forall|x: int| k <= x < y implies scan::name_char(#[trigger] z[x]) by {
                ref_laws::lemma_stands(z, k, t, x - k);
                assert(t[x - k] == col[x - k]);
            }
            lemma_name_over(z, k, y);
        },
        scan::Half::Row(l) => {
            let row = refs::row_text(l.idx as nat);
            ref_laws::lemma_decimal(l.idx as nat + 1);
            assert(t =~= row);
            assert forall|x: int| k <= x < y implies scan::name_char(#[trigger] z[x]) by {
                ref_laws::lemma_stands(z, k, t, x - k);
                assert(text::is_digit(row[x - k]));
            }
            lemma_name_over(z, k, y);
        },
    }
}

/// What is known of a reference without a sheet that was read.
proof fn lemma_bare_read(s: Seq<char>, i: int, r: refs::RefText, e: int)
    requires
        reads(s, i, lexer::Mark::Ref(r), e),
        r.sheet is None,
    ensures
        scan::prefix_at(s, i) is None,
        scan::body_at(s, i) == Some((r.body, e)),
        ref_laws::ends(s, e),
        scan::at(s, e) != Some('('),
        scan::at(s, e) != Some('!'),
        refs::on_grid(r.body),
{
    ref_laws::lemma_read_is_ok(s, i);
    assert(scan::ref_at(s, i) == Some((r, e)));
    if scan::at(s, e) == Some('!') {
        assert(lexer::space_end(s, e) == e);
    }
}

/// A cell without a sheet reads as it did.
#[verifier::spinoff_prover]
#[verifier::rlimit(60)]
proof fn lemma_cell_kept(
    s: Seq<char>,
    i: int,
    z: Seq<char>,
    k: int,
    r: refs::RefText,
    c: CellRef,
    e: int,
)
    requires
        reads(s, i, lexer::Mark::Ref(r), e),
        r.sheet is None,
        r.body == RefBody::Cell(c),
        scan::stands(z, k, refs::cell_text(c)),
        alike(s, e, z, k + refs::cell_text(c).len()),
    ensures
        reads_again(s, i, z, k, lexer::Mark::Ref(r), k + refs::cell_text(c).len() as int),
{
    let h = scan::Half::Cell(c);
    let y = k + refs::cell_text(c).len();
    lemma_bare_read(s, i, r, e);
    lemma_body_kept(s, i, z, k, r.body, e);
    assert(scan::half_at(s, i) == Some((h, e)));
    scan::lemma_half_at(s, i);
    lemma_half_begins(s, i);
    lemma_half_text_begins(z, k, h);
    lemma_half_read(z, k, h);
    assert(scan::name_end(z, y) == y);
    assert(scan::name_end(s, e) == e);
    ref_laws::lemma_not_lost(z, k);
    assert(scan::prefix_at(z, k) is None) by {
        if c.col_abs {
            assert(scan::name_end(z, k) == k);
        } else {
            lemma_half_run(z, k, h);
            lemma_prefix_seen(z, k);
            if !c.row_abs {
                let p = scan::letters_end(s, i, 3);
                scan::lemma_letters_end(s, i, 3);
                scan::lemma_digits_end(s, p);
                assert forall|x: int| i <= x < e implies scan::name_char(#[trigger] s[x]) by {
                    if x < p {
                        assert(text::is_letter(s[x]));
                    } else {
                        assert(text::is_digit(s[x]));
                    }
                }
                lemma_name_over(s, i, e);
                lemma_prefix_seen(s, i);
                assert(sheeted(s, i) == sheeted(s, e));
                assert(sheeted(z, k) == sheeted(z, y));
            }
        }
    }
    lemma_half_alike(s, i, z, k, h, e, y as int);
    assert(scan::ref_at(z, k) == Some((r, y as int)));
}

/// The halves of a range.
pub open spec fn range_halves(b: RefBody) -> (scan::Half, scan::Half) {
    match b {
        RefBody::Area { from, to } => (scan::Half::Cell(from), scan::Half::Cell(to)),
        RefBody::Cols { from, to } => (scan::Half::Col(from), scan::Half::Col(to)),
        RefBody::Rows { from, to } => (scan::Half::Row(from), scan::Half::Row(to)),
        _ => arbitrary(),
    }
}

/// A range without a sheet reads as it did.
#[verifier::spinoff_prover]
#[verifier::rlimit(60)]
proof fn lemma_range_kept(
    s: Seq<char>,
    i: int,
    z: Seq<char>,
    k: int,
    r: refs::RefText,
    e: int,
)
    requires
        reads(s, i, lexer::Mark::Ref(r), e),
        r.sheet is None,
        r.body is Area || r.body is Cols || r.body is Rows,
        scan::stands(z, k, refs::body_text(r.body)),
        alike(s, e, z, k + refs::body_text(r.body).len()),
    ensures
        reads_again(s, i, z, k, lexer::Mark::Ref(r), k + refs::body_text(r.body).len() as int),
{
    let (h, g) = range_halves(r.body);
    let a = half_text(h);
    let b = half_text(g);
    let y = k + refs::body_text(r.body).len();
    let x = k + a.len();
    lemma_bare_read(s, i, r, e);
    lemma_body_kept(s, i, z, k, r.body, e);
    assert(refs::body_text(r.body) =~= a + seq![':'] + b);
    ref_laws::lemma_pair_split(z, k, a, b);
    let p = (scan::half_at(s, i)->0).1;
    ref_laws::lemma_not_lost(s, i);
    scan::lemma_half_at(s, i);
    assert(scan::half_at(s, i) == Some((h, p)));
    assert(scan::at(s, p) == Some(':'));
    lemma_half_begins(s, i);
    lemma_half_text_begins(z, k, h);
    lemma_half_read(z, k, h);
    lemma_half_text_begins(z, x + 1, g);
    assert(scan::name_end(z, y) == y);
    assert(scan::name_end(z, x) == x);
    ref_laws::lemma_not_lost(z, k);
    assert(scan::prefix_at(z, k) is None) by {
        if z[k] == '$' {
            assert(scan::name_end(z, k) == k);
        } else {
            lemma_half_run(z, k, h);
            lemma_prefix_seen(z, k);
            if z[x + 1] == '$' {
                assert(scan::name_end(z, x + 1) == x + 1);
            } else {
                lemma_half_run(z, x + 1, g);
            }
            assert(!scan::has_second(z, x as int));
        }
    }
    lemma_half_alike(s, i, z, k, h, p, x as int);
    assert(scan::ref_at(z, k) == Some((r, y as int)));
}

/// A lost reference without a sheet reads as it did.
proof fn lemma_lost_kept(s: Seq<char>, i: int, z: Seq<char>, k: int, r: refs::RefText, e: int)
    requires
        reads(s, i, lexer::Mark::Ref(r), e),
        r.sheet is None,
        r.body is Invalid,
        scan::stands(z, k, refs::body_text(r.body)),
        alike(s, e, z, k + refs::body_text(r.body).len()),
    ensures
        reads_again(s, i, z, k, lexer::Mark::Ref(r), k + refs::body_text(r.body).len() as int),
{
    let t = refs::body_text(r.body);
    let y = k + t.len();
    lemma_bare_read(s, i, r, e);
    lemma_body_kept(s, i, z, k, r.body, e);
    assert(t =~= scan::lost());
    assert(e == i + 5);
    assert(scan::stands(s, i, scan::lost()));
    ref_laws::lemma_stands(s, i, scan::lost(), 0);
    ref_laws::lemma_stands(z, k, scan::lost(), 0);
    assert(scan::name_end(s, e) == e);
    assert(scan::name_end(z, y) == y);
    assert(sheeted(s, e) == scan::has_second(s, e));
    assert(sheeted(z, y as int) == scan::has_second(z, y as int));
    assert(scan::prefix_at(z, k) is None);
    lemma_dull(s, i, z, k);
}

/// A reference with a sheet reads as it did.
#[verifier::spinoff_prover]
#[verifier::rlimit(60)]
proof fn lemma_sheet_ref_kept(
    s: Seq<char>,
    i: int,
    z: Seq<char>,
    k: int,
    r: refs::RefText,
    x: refs::PrefixText,
    e: int,
)
    requires
        reads(s, i, lexer::Mark::Ref(r), e),
        r.sheet == Some(x),
        scan::stands(z, k, refs::ref_text(r)),
        alike(s, e, z, k + refs::ref_text(r).len()),
    ensures
        reads_again(s, i, z, k, lexer::Mark::Ref(r), k + refs::ref_text(r).len() as int),
{
    let t = refs::prefix_text(x);
    let b = refs::body_text(r.body);
    let y = k + refs::ref_text(r).len();
    ref_laws::lemma_read_is_ok(s, i);
    assert(scan::ref_at(s, i) == Some((r, e)));
    scan::lemma_prefix_at(s, i);
    let p = (scan::prefix_at(s, i)->0).1;
    assert(scan::prefix_at(s, i) == Some((x, p)));
    assert(refs::ref_text(r) =~= t + b);
    ref_laws::lemma_stands_split(z, k, t, b);
    lemma_body_kept(s, p, z, k + t.len(), r.body, e);
    if x.quoted {
        ref_laws::lemma_quoted_prefix_read(z, k, x);
    } else {
        ref_laws::lemma_plain_prefix_read(z, k, x);
    }
    assert(scan::ref_at(z, k) == Some((r, y as int)));
    lemma_prefix_alike(s, i, z, k, x);
}

/// The beginnings of the same sheet name see the same.
#[verifier::spinoff_prover]
#[verifier::rlimit(60)]
proof fn lemma_prefix_alike(s: Seq<char>, i: int, z: Seq<char>, k: int, x: refs::PrefixText)
    requires
        0 <= i < s.len(),
        0 <= k < z.len(),
        lexer::word_start(s[i]),
        scan::prefix_at(s, i) is Some,
        (scan::prefix_at(s, i)->0).0 == x,
        scan::prefix_at(z, k) is Some,
        (scan::prefix_at(z, k)->0).0 == x,
        scan::stands(z, k, refs::prefix_text(x)),
    ensures
        alike(s, i, z, k),
        lexer::word_start(z[k]),
        z[k] != '"',
{
    let t = refs::prefix_text(x);
    ref_laws::lemma_stands(z, k, t, 0);
    if x.quoted {
        assert(t[0] == '\'');
        assert(s[i] == '\'');
        lemma_dull(s, i, z, k);
    } else if x.book is Some {
        assert(s[i] == '[');
        text::lemma_find(s, i, ']');
        assert(x.book->0[0] == '[');
        assert(t[0] == x.book->0[0]);
        lemma_dull(s, i, z, k);
    } else {
        let q = scan::sheet_end(s, i);
        let n = q - i;
        scan::lemma_name_end(s, i);
        assert(x.first =~= s.subrange(i, q));
        assert(t =~= x.first + ((match x.last {
            Some(l) => seq![':'] + l,
            None => Seq::empty(),
        }) + seq!['!']));
        assert forall|v: int| k <= v < k + n implies #[trigger] z[v] == s[v - k + i] by {
            ref_laws::lemma_stands(z, k, t, v - k);
            assert(t[v - k] == x.first[v - k]);
        }
        assert(copied(s, i, z, k, n));
        assert(z[k] == s[i]);
        if s[i] == '#' {
            lemma_dull(s, i, z, k);
        } else {
            ref_laws::lemma_not_lost(s, i);
            assert(scan::name_char(s[i]));
            ref_laws::lemma_stands(z, k, t, n);
            assert(s[q] == '!' || s[q] == ':');
            assert(z[k + n] == s[q]);
            lemma_prefix_seen(s, i);
            lemma_prefix_seen(z, k);
            lemma_half_same(s, i, z, k, n);
            if let Some((h, a)) = scan::half_at(s, i) {
                if a < q {
                    assert(z[a - i + k] == s[a]);
                }
            }
            if n > 1 {
                assert(z[k + 1] == s[i + 1]);
                assert(scan::name_char(s[i + 1]));
            }
        }
    }
}

/// A token reads as it did when it is written as it would be printed.
#[verifier::spinoff_prover]
#[verifier::rlimit(60)]
proof fn lemma_token_kept(s: Seq<char>, i: int, z: Seq<char>, k: int, m: lexer::Mark, e: int)
    requires
        reads(s, i, m, e),
        scan::stands(z, k, lexer::mark_text(m)),
        alike(s, e, z, k + lexer::mark_text(m).len()),
    ensures
        reads_again(s, i, z, k, m, k + lexer::mark_text(m).len() as int),
{
    laws::lemma_mark_text(s, i);
    match m {
        lexer::Mark::Str(t) => lemma_string_kept(s, i, z, k, t, e),
        lexer::Mark::Bool(b) => lemma_bool_kept(s, i, z, k, b, e),
        lexer::Mark::Ref(r) => {
            match r.sheet {
                Some(x) => lemma_sheet_ref_kept(s, i, z, k, r, x, e),
                None => {
                    assert(refs::ref_text(r) =~= refs::body_text(r.body));
                    match r.body {
                        RefBody::Cell(c) => lemma_cell_kept(s, i, z, k, r, c, e),
                        RefBody::Invalid => lemma_lost_kept(s, i, z, k, r, e),
                        _ => lemma_range_kept(s, i, z, k, r, e),
                    }
                },
            }
        },
        _ => {
            lemma_copied(s, i, z, k, e);
            match m {
                lexer::Mark::Num(_) => {
                    assert(lexer::space_end(s, i) == i);
                    lemma_number_kept(s, i, z, k, e);
                },
                lexer::Mark::Error(x) => lemma_error_kept(s, i, z, k, x, e),
                lexer::Mark::Name(_, _) => lemma_name_kept(s, i, z, k, m, e),
                _ => lemma_sign_kept(s, i, z, k, m, e),
            }
        },
    }
}

/// White space that is the same, before places that are alike.
proof fn lemma_space_alike(s: Seq<char>, i: int, z: Seq<char>, k: int, n: int)
    requires
        copied(s, i, z, k, n),
        forall|x: int| i <= x < i + n ==> text::whitespace(#[trigger] s[x]),
        alike(s, i + n, z, k + n),
        i + n < s.len() ==> !text::whitespace(s[i + n]),
    ensures
        alike(s, i, z, k),
        lexer::space_end(s, i) == i + n,
        lexer::space_end(z, k) == k + n,
    decreases n,
{
    if n > 0 {
        lemma_space_alike(s, i + 1, z, k + 1, n - 1);
        assert(z[k] == s[i]);
        assert(text::whitespace(s[i]));
        if scan::name_char(s[i]) {
            assert(scan::name_end(s, i) == scan::name_end(s, i + 1));
            assert(scan::name_end(z, k) == scan::name_end(z, k + 1));
            assert(scan::letters_end(s, i, 3) == i);
            assert(scan::letters_end(z, k, 3) == k);
            assert(scan::digits_end(s, i) == i);
            assert(scan::digits_end(z, k) == k);
        } else {
            lemma_dull(s, i, z, k);
        }
    }
}

/// The tokens of a text that is written as its tokens would be printed.
#[verifier::spinoff_prover]
#[verifier::rlimit(60)]
proof fn lemma_tokens_kept(s: Seq<char>, i: int, z: Seq<char>, k: int)
    requires
        0 <= i <= s.len(),
        0 <= k <= z.len(),
        lexer::tokens(s, i) is Ok,
        z.skip(k) == laws::flat(lexer::tokens(s, i)->Ok_0, 0, lexer::tokens(s, i)->Ok_0.len() as int),
    ensures
        alike(s, i, z, k),
        lexer::tokens(z, k) is Ok,
        reparse::same(lexer::tokens(s, i)->Ok_0, lexer::tokens(z, k)->Ok_0),
    decreases s.len() - i,
{
    let t = lexer::tokens(s, i)->Ok_0;
    let j = lexer::space_end(s, i);
    let ws = s.subrange(i, j);
    let n = j - i;
    lemma_space_run(s, i);
    if j >= s.len() {
        assert(laws::flat(t, 0, 0) =~= Seq::<char>::empty());
        assert(laws::flat(t, 0, 1) =~= ws);
        assert forall|y: int| k <= y < k + n implies #[trigger] z[y] == s[y - k + i] by {
            assert(z.skip(k)[y - k] == ws[y - k]);
        }
        assert(z.skip(k).len() == n);
        lemma_dull(s, j, z, k + n);
        lemma_space_alike(s, i, z, k, n);
        assert(z.subrange(k, k + n) =~= ws);
    } else {
        let (m, e) = lexer::mark_at(s, j)->Ok_0;
        laws::lemma_mark_text(s, j);
        let rest = lexer::tokens(s, e)->Ok_0;
        let head = lexer::Tok { mark: m, ws, pos: text::place(s, j) };
        let w = lexer::mark_text(m);
        let more = laws::flat(rest, 0, rest.len() as int);
        assert(t == seq![head] + rest);
        laws::lemma_flat_shift(head, rest, rest.len() as int);
        assert(z.skip(k) == ws + w + more);
        let x = k + n;
        let y = x + w.len();
        assert(z.skip(k).len() == ws.len() + w.len() + more.len());
        assert(z.skip(y) =~= more) by {
            assert forall|d: int| 0 <= d < more.len() implies z.skip(y)[d] == more[d] by {
                assert(z.skip(k)[n + w.len() + d] == more[d]);
            }
        }
        lemma_tokens_kept(s, e, z, y);
        assert(z.subrange(x, y) =~= w) by {
            assert forall|d: int| 0 <= d < w.len() implies z.subrange(x, y)[d] == w[d] by {
                assert(z.skip(k)[n + d] == w[d]);
            }
        }
        lemma_token_kept(s, j, z, x, m, e);
        laws::lemma_mark_text(z, x);
        assert forall|v: int| k <= v < k + n implies #[trigger] z[v] == s[v - k + i] by {
            assert(z.skip(k)[v - k] == ws[v - k]);
        }
        lemma_space_alike(s, i, z, k, n);
        assert(z.subrange(k, x) =~= ws);
        let again = lexer::tokens(z, y)->Ok_0;
        let first = lexer::Tok { mark: m, ws, pos: text::place(z, x) };
        assert(lexer::tokens(z, k) == Ok::<Seq<lexer::Tok>, crate::error::Error>(
            seq![first] + again,
        ));
        let u = seq![first] + again;
        assert forall|v: int| 0 <= v < t.len() implies (#[trigger] t[v]).mark == u[v].mark && t[v].ws
            == u[v].ws by {
            if v > 0 {
                assert(t[v] == rest[v - 1]);
                assert(u[v] == again[v - 1]);
            }
        }
    }
}

/// A formula that was printed reads as the tree that was printed, however the
/// formula was spelled from which that tree was read.
pub proof fn lemma_printed_reads_back(s: Seq<char>)
    ensures
        match parser::parsed(s) {
            Ok(e) => parser::parsed(print::shown(e)) == parser::parsed(s),
            Err(_) => true,
        },
{
    if let Ok(e) = parser::parsed(s) {
        let t = lexer::tokens(s, 0)->Ok_0;
        let z = print::shown(e);
        laws::lemma_tokens_tile(s, 0);
        laws::lemma_tree_prints_tokens(t);
        assert(z.skip(0) =~= z);
        lemma_tokens_kept(s, 0, z, 0);
        reparse::lemma_same_tree(t, lexer::tokens(z, 0)->Ok_0);
    }
}

} // verus!
