//! What the tokens of a formula are.
use vstd::prelude::*;
use vstd::string::*;

use crate::formula::ast::{BinOp, ErrKind};
use crate::formula::lexer;
use crate::formula::lexer::Mark;
use crate::formula::ref_laws;
use crate::formula::scan;
use crate::text;

verus! {

/// A text of digits alone.
pub open spec fn digits(t: Seq<char>) -> bool {
    forall|k: int| 0 <= k < t.len() ==> '0' <= #[trigger] t[k] <= '9'
}

/// The part of a number behind its point, with the point, or nothing.
pub open spec fn is_fraction(t: Seq<char>) -> bool {
    t.len() == 0 || (t[0] == '.' && digits(t.skip(1)))
}

/// The exponent of a number: `e`, a sign that may be left out, and at least one
/// digit; or nothing.
pub open spec fn is_exponent(t: Seq<char>) -> bool {
    ||| t.len() == 0
    ||| (t[0] == 'e' || t[0] == 'E') && {
        ||| t.len() > 1 && digits(t.skip(1))
        ||| t.len() > 2 && (t[1] == '+' || t[1] == '-') && digits(t.skip(2))
    }
}

/// Nothing at the beginning of the text would belong to the number before it.
pub open spec fn ends_number(frac: Seq<char>, exp: Seq<char>, rest: Seq<char>) -> bool {
    &&& rest.len() > 0 ==> !('0' <= rest[0] <= '9')
    &&& frac.len() == 0 && exp.len() == 0 && rest.len() > 0 ==> rest[0] != '.'
    &&& exp.len() == 0 ==> forall|k: int| 1 <= k <= rest.len() ==> !is_exponent(
        #[trigger] rest.take(k),
    )
}

proof fn lemma_run(s: Seq<char>, i: int, t: Seq<char>)
    requires
        0 <= i,
        i + t.len() <= s.len(),
        forall|k: int| 0 <= k < t.len() ==> #[trigger] s[i + k] == t[k],
        digits(t),
        i + t.len() < s.len() ==> !('0' <= s[i + t.len()] <= '9'),
    ensures
        scan::digits_end(s, i) == i + t.len(),
{
    assert forall|k: int| i <= k < i + t.len() implies text::is_digit(#[trigger] s[k]) by {
        assert(s[i + (k - i)] == t[k - i]);
    }
    ref_laws::lemma_digits_run(s, i, i + t.len());
}

/// A number reaches as far as it can: its digits, a point and digits behind it,
/// and an exponent with at least one digit.
pub proof fn lemma_number_is_read_whole(
    before: Seq<char>,
    whole: Seq<char>,
    frac: Seq<char>,
    exp: Seq<char>,
    rest: Seq<char>,
)
    requires
        digits(whole),
        is_fraction(frac),
        is_exponent(exp),
        whole.len() > 0 || frac.len() > 1,
        ends_number(frac, exp, rest),
    ensures
        lexer::number_end(before + whole + frac + exp + rest, before.len() as int) == before.len()
            + whole.len() + frac.len() + exp.len(),
{
    let s = before + whole + frac + exp + rest;
    let i = before.len() as int;
    let a = i + whole.len();
    let b = a + frac.len();
    let e = b + exp.len();
    assert(forall|k: int| 0 <= k < whole.len() ==> #[trigger] s[i + k] == whole[k]);
    assert(forall|k: int| 0 <= k < frac.len() ==> #[trigger] s[a + k] == frac[k]);
    assert(forall|k: int| 0 <= k < exp.len() ==> #[trigger] s[b + k] == exp[k]);
    assert(forall|k: int| 0 <= k < rest.len() ==> #[trigger] s[e + k] == rest[k]);
    assert(s.len() == e + rest.len());
    assert(frac.len() > 0 ==> s[a + 0] == frac[0]);
    assert(exp.len() > 0 ==> s[b + 0] == exp[0]);
    assert(rest.len() > 0 ==> s[e + 0] == rest[0]);
    lemma_run(s, i, whole);
    if frac.len() > 0 {
        let f = frac.skip(1);
        assert forall|k: int| 0 <= k < f.len() implies #[trigger] s[a + 1 + k] == f[k] by {
            assert(s[a + (k + 1)] == frac[k + 1]);
        }
        lemma_run(s, a + 1, f);
    }
    let frac_end = if scan::at(s, a) == Some('.') {
        scan::digits_end(s, a + 1)
    } else {
        a
    };
    assert(frac_end == b);
    if exp.len() > 0 {
        assert(s[b + 1] == exp[1]);
        if exp[1] == '+' || exp[1] == '-' {
            let f = exp.skip(2);
            assert(exp.skip(1)[0] == exp[1]);
            assert(s[b + 2] == exp[2]);
            assert(f[0] == exp[2]);
            assert forall|k: int| 0 <= k < f.len() implies #[trigger] s[b + 2 + k] == f[k] by {
                assert(s[b + (k + 2)] == exp[k + 2]);
            }
            lemma_run(s, b + 2, f);
        } else {
            let f = exp.skip(1);
            assert(f[0] == exp[1]);
            assert forall|k: int| 0 <= k < f.len() implies #[trigger] s[b + 1 + k] == f[k] by {
                assert(s[b + (k + 1)] == exp[k + 1]);
            }
            lemma_run(s, b + 1, f);
        }
    } else if rest.len() > 0 && (rest[0] == 'e' || rest[0] == 'E') {
        if rest.len() > 1 {
            assert(s[e + 1] == rest[1]);
            if rest[1] == '+' || rest[1] == '-' {
                if rest.len() > 2 {
                    assert(s[e + 2] == rest[2]);
                    let t = rest.take(3);
                    assert(t.skip(2)[0] == rest[2]);
                    assert(!is_exponent(t));
                }
            } else {
                let t = rest.take(2);
                assert(t.skip(1)[0] == rest[1]);
                assert(!is_exponent(t));
            }
        }
    }
}

/// The texts of two errors differ in one of the characters behind `#`.
proof fn lemma_errors_differ(a: ErrKind, b: ErrKind)
    ensures
        a.spelling().len() >= 4,
        a != b ==> a.spelling()[1] != b.spelling()[1] || a.spelling()[2] != b.spelling()[2]
            || a.spelling()[3] != b.spelling()[3],
{
    reveal_strlit("#DIV/0!");
    reveal_strlit("#N/A");
    reveal_strlit("#VALUE!");
    reveal_strlit("#NAME?");
    reveal_strlit("#NULL!");
    reveal_strlit("#NUM!");
    reveal_strlit("#GETTING_DATA");
    reveal_strlit("#SPILL!");
    reveal_strlit("#CALC!");
    reveal_strlit("#FIELD!");
    reveal_strlit("#BLOCKED!");
    reveal_strlit("#CONNECT!");
    reveal_strlit("#UNKNOWN!");
    reveal_strlit("#BUSY!");
    reveal_strlit("#EXTERNAL!");
}

proof fn lemma_error_from(s: Seq<char>, i: int, k: int, e: ErrKind)
    requires
        0 <= k <= 15,
        scan::stands(s, i, e.spelling()),
        exists|m: int| k <= m < 15 && #[trigger] lexer::nth_error(m) == e,
    ensures
        lexer::error_from(s, i, k) == Some(e),
    decreases 15 - k,
{
    let f = lexer::nth_error(k);
    lemma_errors_differ(e, f);
    lemma_errors_differ(f, e);
    if f != e {
        if scan::stands(s, i, f.spelling()) {
            let x = s.subrange(i, i + e.spelling().len());
            let y = s.subrange(i, i + f.spelling().len());
            assert(x[1] == y[1] && x[2] == y[2] && x[3] == y[3]);
        }
        lemma_error_from(s, i, k + 1, e);
    }
}

/// Every error is read where its text stands.
pub proof fn lemma_error_is_read(s: Seq<char>, i: int, e: ErrKind)
    requires
        scan::stands(s, i, e.spelling()),
    ensures
        lexer::error_from(s, i, 0) == Some(e),
        scan::ref_at(s, i) is None ==> lexer::mark_at(s, i) == Ok::<(Mark, int), crate::error::Error>(
            (Mark::Error(e), i + e.spelling().len()),
        ),
{
    let m: int = match e {
        ErrKind::GettingData => 0,
        ErrKind::Blocked => 1,
        ErrKind::Connect => 2,
        ErrKind::Unknown => 3,
        ErrKind::External => 4,
        ErrKind::Value => 5,
        ErrKind::Div0 => 6,
        ErrKind::Spill => 7,
        ErrKind::Field => 8,
        ErrKind::Busy => 9,
        ErrKind::Calc => 10,
        ErrKind::Name => 11,
        ErrKind::Null => 12,
        ErrKind::Num => 13,
        ErrKind::Na => 14,
    };
    assert(lexer::nth_error(m) == e);
    lemma_error_from(s, i, 0, e);
    lemma_hash(e);
    assert(s.subrange(i, i + e.spelling().len())[0] == s[i]);
}

proof fn lemma_hash(e: ErrKind)
    ensures
        e.spelling().len() > 0,
        e.spelling()[0] == '#',
{
    reveal_strlit("#DIV/0!");
    reveal_strlit("#N/A");
    reveal_strlit("#VALUE!");
    reveal_strlit("#NAME?");
    reveal_strlit("#NULL!");
    reveal_strlit("#NUM!");
    reveal_strlit("#GETTING_DATA");
    reveal_strlit("#SPILL!");
    reveal_strlit("#CALC!");
    reveal_strlit("#FIELD!");
    reveal_strlit("#BLOCKED!");
    reveal_strlit("#CONNECT!");
    reveal_strlit("#UNKNOWN!");
    reveal_strlit("#BUSY!");
    reveal_strlit("#EXTERNAL!");
}

/// Every operator that is written is read where its text stands, the longest one
/// where one is the beginning of another.
pub proof fn lemma_operator_is_read(s: Seq<char>, i: int, op: BinOp)
    requires
        !(op is Intersect),
        scan::stands(s, i, op.spelling()),
        forall|other: BinOp|
            #![trigger other.spelling()]
            scan::stands(s, i, other.spelling()) ==> other.spelling().len() <= op.spelling().len(),
    ensures
        lexer::punct(s[i], scan::at(s, i + 1)) == Some(
            (Mark::Op(op), op.spelling().len() as int),
        ),
{
    let w = op.spelling();
    let x = s.subrange(i, i + w.len());
    assert(x[0] == s[i]);
    if w.len() == 2 {
        assert(x[1] == s[i + 1]);
    } else if i + 1 < s.len() {
        let y = s.subrange(i, i + 2);
        if s[i] == '<' && s[i + 1] == '=' {
            assert(y =~= BinOp::Le.spelling());
        }
        if s[i] == '<' && s[i + 1] == '>' {
            assert(y =~= BinOp::Ne.spelling());
        }
        if s[i] == '>' && s[i + 1] == '=' {
            assert(y =~= BinOp::Ge.spelling());
        }
    }
}

/// A character of a word: a letter or a digit of any script, or one of four
/// others.
pub open spec fn of_word(c: char) -> bool {
    text::alphanumeric(c) || seq!['_', '.', '\\', '?'].contains(c)
}

proof fn lemma_of_word(c: char)
    ensures
        of_word(c) == scan::name_char(c),
{
    let q = seq!['_', '.', '\\', '?'];
    assert(q[0] == '_' && q[1] == '.' && q[2] == '\\' && q[3] == '?');
}

proof fn lemma_name_run(s: Seq<char>, i: int, e: int)
    requires
        0 <= i <= e <= s.len(),
        forall|k: int| i <= k < e ==> of_word(#[trigger] s[k]),
        e < s.len() ==> !of_word(s[e]),
    ensures
        scan::name_end(s, i) == e,
    decreases e - i,
{
    if i < s.len() {
        lemma_of_word(s[i]);
        if i < e {
            assert(of_word(s[i]));
            lemma_name_run(s, i + 1, e);
        }
    }
}

/// A word that is no reference is read whole. It is a truth value when it is
/// `TRUE` or `FALSE` in whatever case of its letters, and a name otherwise: that
/// of a call where a parenthesis follows at once.
pub proof fn lemma_word_is_read_whole(s: Seq<char>, i: int, e: int)
    requires
        0 <= i < e <= s.len(),
        text::alphabetic(s[i]) || s[i] == '_' || s[i] == '\\',
        !('0' <= s[i] <= '9'),
        forall|k: int| i <= k < e ==> of_word(#[trigger] s[k]),
        e < s.len() ==> !of_word(s[e]),
        scan::ref_at(s, i) is None,
        s[i] != '#' && s[i] != '\'' && s[i] != '[' && s[i] != '$' && s[i] != '"',
    ensures
        ({
            let t = s.subrange(i, e);
            lexer::mark_at(s, i) == Ok::<(Mark, int), crate::error::Error>(
                (
                    if text::lowered(t) == seq!['t', 'r', 'u', 'e'] {
                        Mark::Bool(true)
                    } else if text::lowered(t) == seq!['f', 'a', 'l', 's', 'e'] {
                        Mark::Bool(false)
                    } else {
                        Mark::Name(t, e < s.len() && s[e] == '(')
                    },
                    e,
                ),
            )
        }),
{
    lemma_name_run(s, i, e);
    assert(text::lowered(seq!['T', 'R', 'U', 'E']) =~= seq!['t', 'r', 'u', 'e']);
    assert(text::lowered(seq!['F', 'A', 'L', 'S', 'E']) =~= seq!['f', 'a', 'l', 's', 'e']);
}

} // verus!
