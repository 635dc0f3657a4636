//! The tokens of a formula.
//!
//! White space may be an operator or mere formatting, which only the parser can
//! tell, so it is kept with the token that follows it. A reference is one
//! token, with its sheet name and both halves of a range. `LOG10(` is a call,
//! and no cell.
use vstd::prelude::*;
use vstd::string::*;

use crate::error::{Error, FormulaError};
use crate::formula::ast::{BinOp, ErrKind};
use crate::formula::print;
use crate::formula::refs;
use crate::formula::refs::Reference;
use crate::formula::scan;
use crate::text;

verus! {

/// What a token is.
#[derive(Debug)]
pub enum TokKind {
    Num { raw: String },
    Str(String),
    Bool(bool),
    Error(ErrKind),
    Ref(Reference),
    /// A name. `call`: a parenthesis opens right behind it.
    Name { text: String, call: bool },
    LParen,
    RParen,
    LBrace,
    RBrace,
    Comma,
    Semi,
    Percent,
    /// An infix operator, or a sign.
    Op(BinOp),
    Eof,
}

/// A token, and the white space before it.
#[derive(Debug)]
pub struct Token {
    pub kind: TokKind,
    pub ws: String,
    /// The byte at which the token begins, or the greatest number that fits.
    pub pos: u32,
}

/// A token as text.
pub enum Mark {
    Num(Seq<char>),
    Str(Seq<char>),
    Bool(bool),
    Error(ErrKind),
    Ref(refs::RefText),
    Name(Seq<char>, bool),
    LParen,
    RParen,
    LBrace,
    RBrace,
    Comma,
    Semi,
    Percent,
    Op(BinOp),
    Eof,
}

/// A token as text, with the white space before it.
pub struct Tok {
    pub mark: Mark,
    pub ws: Seq<char>,
    pub pos: u32,
}

impl TokKind {
    pub open spec fn view(&self) -> Mark {
        match self {
            TokKind::Num { raw } => Mark::Num(raw@),
            TokKind::Str(s) => Mark::Str(s@),
            TokKind::Bool(b) => Mark::Bool(*b),
            TokKind::Error(e) => Mark::Error(*e),
            TokKind::Ref(r) => Mark::Ref(r@),
            TokKind::Name { text, call } => Mark::Name(text@, *call),
            TokKind::LParen => Mark::LParen,
            TokKind::RParen => Mark::RParen,
            TokKind::LBrace => Mark::LBrace,
            TokKind::RBrace => Mark::RBrace,
            TokKind::Comma => Mark::Comma,
            TokKind::Semi => Mark::Semi,
            TokKind::Percent => Mark::Percent,
            TokKind::Op(o) => Mark::Op(*o),
            TokKind::Eof => Mark::Eof,
        }
    }

    /// Whether an operand may begin with the token. A sign is none of these:
    /// `A1 -B1` is a difference.
    pub fn starts_operand(&self) -> (r: bool)
        ensures
            r == opens(self@),
    {
        match self {
            TokKind::Num { .. } => true,
            TokKind::Str(_) => true,
            TokKind::Bool(_) => true,
            TokKind::Error(_) => true,
            TokKind::Ref(_) => true,
            TokKind::Name { .. } => true,
            TokKind::LParen => true,
            TokKind::LBrace => true,
            _ => false,
        }
    }
}

impl Token {
    pub open spec fn view(&self) -> Tok {
        Tok { mark: self.kind@, ws: self.ws@, pos: self.pos }
    }
}

/// Whether an operand may begin with the token.
pub open spec fn opens(m: Mark) -> bool {
    match m {
        Mark::Num(_) => true,
        Mark::Str(_) => true,
        Mark::Bool(_) => true,
        Mark::Error(_) => true,
        Mark::Ref(_) => true,
        Mark::Name(_, _) => true,
        Mark::LParen => true,
        Mark::LBrace => true,
        _ => false,
    }
}

/// The text of a token.
pub open spec fn mark_text(m: Mark) -> Seq<char> {
    match m {
        Mark::Num(raw) => raw,
        Mark::Str(s) => print::string_text(s),
        Mark::Bool(b) => print::bool_text(b),
        Mark::Error(e) => e.spelling(),
        Mark::Ref(r) => refs::ref_text(r),
        Mark::Name(n, _) => n,
        Mark::LParen => seq!['('],
        Mark::RParen => seq![')'],
        Mark::LBrace => seq!['{'],
        Mark::RBrace => seq!['}'],
        Mark::Comma => seq![','],
        Mark::Semi => seq![';'],
        Mark::Percent => seq!['%'],
        Mark::Op(o) => o.spelling(),
        Mark::Eof => Seq::empty(),
    }
}

/// The texts of tokens.
pub open spec fn toks(s: Seq<Token>) -> Seq<Tok> {
    s.map_values(|t: Token| t@)
}

pub open spec fn failure(kind: FormulaError, pos: u32) -> Error {
    Error::Formula { kind, pos }
}

/// Whether a reference, a name or a number may begin with the character.
pub open spec fn word_start(c: char) -> bool {
    scan::name_start(c) || text::is_digit(c) || c == '$' || c == '\'' || c == '[' || c == '#'
}

/// The end of the white space that begins at `i`.
pub open spec fn space_end(s: Seq<char>, i: int) -> int
    decreases s.len() - i,
{
    if 0 <= i < s.len() && text::whitespace(s[i]) {
        space_end(s, i + 1)
    } else {
        i
    }
}

pub open spec fn digit_at(s: Seq<char>, i: int) -> bool {
    0 <= i < s.len() && text::is_digit(s[i])
}

/// The end of a number. An exponent belongs to it with at least one digit only:
/// in `1E+A1` the sign is an addition.
pub open spec fn number_end(s: Seq<char>, i: int) -> int {
    let whole = scan::digits_end(s, i);
    let frac = if scan::at(s, whole) == Some('.') {
        scan::digits_end(s, whole + 1)
    } else {
        whole
    };
    if scan::at(s, frac) == Some('e') || scan::at(s, frac) == Some('E') {
        let q = if scan::at(s, frac + 1) == Some('+') || scan::at(s, frac + 1) == Some('-') {
            frac + 2
        } else {
            frac + 1
        };
        if digit_at(s, q) {
            scan::digits_end(s, q)
        } else {
            frac
        }
    } else {
        frac
    }
}

/// The errors by which a text is tried.
pub open spec fn nth_error(k: int) -> ErrKind {
    if k == 0 {
        ErrKind::GettingData
    } else if k == 1 {
        ErrKind::Blocked
    } else if k == 2 {
        ErrKind::Connect
    } else if k == 3 {
        ErrKind::Unknown
    } else if k == 4 {
        ErrKind::External
    } else if k == 5 {
        ErrKind::Value
    } else if k == 6 {
        ErrKind::Div0
    } else if k == 7 {
        ErrKind::Spill
    } else if k == 8 {
        ErrKind::Field
    } else if k == 9 {
        ErrKind::Busy
    } else if k == 10 {
        ErrKind::Calc
    } else if k == 11 {
        ErrKind::Name
    } else if k == 12 {
        ErrKind::Null
    } else if k == 13 {
        ErrKind::Num
    } else {
        ErrKind::Na
    }
}

/// The error at `i`, of those from `k` on.
pub open spec fn error_from(s: Seq<char>, i: int, k: int) -> Option<ErrKind>
    decreases 15 - k,
{
    if k >= 15 {
        None
    } else if scan::stands(s, i, nth_error(k).spelling()) {
        Some(nth_error(k))
    } else {
        error_from(s, i, k + 1)
    }
}

/// A sign or an operator, and its length.
pub open spec fn punct(c: char, next: Option<char>) -> Option<(Mark, int)> {
    if c == '<' && next == Some('=') {
        Some((Mark::Op(BinOp::Le), 2))
    } else if c == '>' && next == Some('=') {
        Some((Mark::Op(BinOp::Ge), 2))
    } else if c == '<' && next == Some('>') {
        Some((Mark::Op(BinOp::Ne), 2))
    } else {
        match c {
            '(' => Some((Mark::LParen, 1)),
            ')' => Some((Mark::RParen, 1)),
            '{' => Some((Mark::LBrace, 1)),
            '}' => Some((Mark::RBrace, 1)),
            ',' => Some((Mark::Comma, 1)),
            ';' => Some((Mark::Semi, 1)),
            '%' => Some((Mark::Percent, 1)),
            ':' => Some((Mark::Op(BinOp::Range), 1)),
            '^' => Some((Mark::Op(BinOp::Pow), 1)),
            '*' => Some((Mark::Op(BinOp::Mul), 1)),
            '/' => Some((Mark::Op(BinOp::Div), 1)),
            '+' => Some((Mark::Op(BinOp::Add), 1)),
            '-' => Some((Mark::Op(BinOp::Sub), 1)),
            '&' => Some((Mark::Op(BinOp::Concat), 1)),
            '=' => Some((Mark::Op(BinOp::Eq), 1)),
            '<' => Some((Mark::Op(BinOp::Lt), 1)),
            '>' => Some((Mark::Op(BinOp::Gt), 1)),
            _ => None,
        }
    }
}

/// The token at `i`, where no reference stands, and its end.
pub open spec fn word_at(s: Seq<char>, i: int) -> Result<(Mark, int), Error> {
    let c = s[i];
    if c == '#' {
        match error_from(s, i, 0) {
            Some(e) => Ok((Mark::Error(e), i + e.spelling().len())),
            None => Err(failure(FormulaError::BadReference, text::place(s, i))),
        }
    } else if c == '\'' {
        Err(failure(FormulaError::UnterminatedString, text::place(s, i)))
    } else if c == '[' || c == '$' {
        Err(failure(FormulaError::BadReference, text::place(s, i)))
    } else if text::is_digit(c) {
        Ok((Mark::Num(s.subrange(i, number_end(s, i))), number_end(s, i)))
    } else {
        let e = scan::name_end(s, i);
        let name = s.subrange(i, e);
        if e == i {
            Err(failure(FormulaError::UnexpectedChar(c), text::place(s, i)))
        } else if text::lowered(name) == text::lowered(print::bool_text(true)) {
            Ok((Mark::Bool(true), e))
        } else if text::lowered(name) == text::lowered(print::bool_text(false)) {
            Ok((Mark::Bool(false), e))
        } else {
            Ok((Mark::Name(name, scan::at(s, e) == Some('(')), e))
        }
    }
}

/// The token at `i`, which is no white space, and its end.
pub open spec fn mark_at(s: Seq<char>, i: int) -> Result<(Mark, int), Error> {
    let c = s[i];
    if c == '"' {
        match scan::unquoted(s, i + 1, '"') {
            Some((t, e)) => Ok((Mark::Str(t), e)),
            None => Err(failure(FormulaError::UnterminatedString, text::place(s, i))),
        }
    } else if word_start(c) {
        match scan::ref_at(s, i) {
            Some((r, e)) => if scan::at(s, e) == Some('(') && r.sheet is None {
                word_at(s, i)
            } else {
                Ok((Mark::Ref(r), e))
            },
            None => word_at(s, i),
        }
    } else if c == '.' && digit_at(s, i + 1) {
        Ok((Mark::Num(s.subrange(i, number_end(s, i))), number_end(s, i)))
    } else {
        match punct(c, scan::at(s, i + 1)) {
            Some((m, n)) => Ok((m, i + n)),
            None => Err(failure(FormulaError::UnexpectedChar(c), text::place(s, i))),
        }
    }
}

/// `t` before tokens.
pub open spec fn preceded(t: Seq<Tok>, r: Result<Seq<Tok>, Error>) -> Result<Seq<Tok>, Error> {
    match r {
        Ok(u) => Ok(t + u),
        Err(e) => Err(e),
    }
}

/// The tokens from `i` on. The last one is the end.
pub open spec fn tokens(s: Seq<char>, i: int) -> Result<Seq<Tok>, Error>
    decreases s.len() - i,
{
    let j = space_end(s, i);
    let ws = s.subrange(i, j);
    if j >= s.len() {
        Ok(seq![Tok { mark: Mark::Eof, ws, pos: text::place(s, j) }])
    } else {
        match mark_at(s, j) {
            Err(e) => Err(e),
            // a token takes at least one character
            Ok((mark, e)) => if i <= j < e <= s.len() {
                preceded(seq![Tok { mark, ws, pos: text::place(s, j) }], tokens(s, e))
            } else {
                arbitrary()
            },
        }
    }
}

pub proof fn lemma_space_end(s: Seq<char>, i: int)
    requires
        0 <= i <= s.len(),
    ensures
        i <= space_end(s, i) <= s.len(),
        space_end(s, i) < s.len() ==> !text::whitespace(s[space_end(s, i)]),
    decreases s.len() - i,
{
    if i < s.len() && text::whitespace(s[i]) {
        lemma_space_end(s, i + 1);
    }
}

pub proof fn lemma_number_end(s: Seq<char>, i: int)
    requires
        0 <= i < s.len(),
        text::is_digit(s[i]) || s[i] == '.',
    ensures
        i < number_end(s, i) <= s.len(),
{
    scan::lemma_digits_end(s, i);
    let whole = scan::digits_end(s, i);
    if scan::at(s, whole) == Some('.') {
        scan::lemma_digits_end(s, whole + 1);
    }
    let frac = if scan::at(s, whole) == Some('.') {
        scan::digits_end(s, whole + 1)
    } else {
        whole
    };
    if digit_at(s, frac + 1) {
        scan::lemma_digits_end(s, frac + 1);
    }
    if digit_at(s, frac + 2) {
        scan::lemma_digits_end(s, frac + 2);
    }
}

fn fail(kind: FormulaError, pos: u32) -> (r: Error)
    ensures
        r == failure(kind, pos),
{
    Error::Formula { kind, pos }
}

/// The place of the character `to`, given that of `from`.
fn advance(s: &[char], from: usize, to: usize, pos: u32) -> (r: u32)
    requires
        from <= to <= s@.len(),
        pos == text::place(s@, from as int),
    ensures
        r == text::place(s@, to as int),
{
    let mut i: usize = from;
    let mut b: u32 = pos;
    while i < to
        invariant
            from <= i <= to <= s@.len(),
            b == text::place(s@, i as int),
        decreases to - i,
    {
        b = text::place_after(s, i, b);
        i = i + 1;
    }
    b
}

fn starts_word(c: char) -> (r: bool)
    ensures
        r == word_start(c),
{
    scan::is_name_start(c) || text::digit_of_ascii(c) || c == '$' || c == '\'' || c == '[' || c
        == '#'
}

fn skip_space(s: &[char], i: usize) -> (r: usize)
    requires
        i <= s@.len(),
    ensures
        r == space_end(s@, i as int),
        i <= r <= s@.len(),
{
    let mut p: usize = i;
    while p < s.len() && text::is_whitespace(s[p])
        invariant
            i <= p <= s@.len(),
            space_end(s@, p as int) == space_end(s@, i as int),
        decreases s@.len() - p,
    {
        p = p + 1;
    }
    p
}

fn skip_digits(s: &[char], i: usize) -> (r: usize)
    requires
        i <= s@.len(),
    ensures
        r == scan::digits_end(s@, i as int),
        i <= r <= s@.len(),
{
    let mut p: usize = i;
    while p < s.len() && text::digit_of_ascii(s[p])
        invariant
            i <= p <= s@.len(),
            scan::digits_end(s@, p as int) == scan::digits_end(s@, i as int),
        decreases s@.len() - p,
    {
        p = p + 1;
    }
    p
}

fn is_digit_at(s: &[char], i: usize) -> (r: bool)
    ensures
        r == digit_at(s@, i as int),
{
    i < s.len() && text::digit_of_ascii(s[i])
}

/// The end of the number that begins at `i`.
fn scan_number(s: &[char], i: usize) -> (r: usize)
    requires
        i < s@.len(),
        text::is_digit(s@[i as int]) || s@[i as int] == '.',
    ensures
        r == number_end(s@, i as int),
        i < r <= s@.len(),
{
    proof {
        lemma_number_end(s@, i as int);
    }
    let mut p: usize = skip_digits(s, i);
    if scan::is_at(s, p, '.') {
        p = skip_digits(s, p + 1);
    }
    if scan::is_at(s, p, 'e') || scan::is_at(s, p, 'E') {
        let mut q: usize = p + 1;
        if scan::is_at(s, q, '+') || scan::is_at(s, q, '-') {
            q = q + 1;
        }
        if is_digit_at(s, q) {
            p = skip_digits(s, q);
        }
    }
    p
}

/// Whether `t` stands at `i`.
fn text_at(s: &[char], i: usize, t: &[char]) -> (r: bool)
    ensures
        r == scan::stands(s@, i as int, t@),
        r ==> i + t@.len() <= usize::MAX,
{
    let n: usize = s.len();
    if i > n || n - i < t.len() {
        return false;
    }
    text::same_chars(vstd::slice::slice_subrange(s, i, i + t.len()), t)
}

fn error_number(k: u8) -> (r: ErrKind)
    ensures
        r == nth_error(k as int),
{
    match k {
        0 => ErrKind::GettingData,
        1 => ErrKind::Blocked,
        2 => ErrKind::Connect,
        3 => ErrKind::Unknown,
        4 => ErrKind::External,
        5 => ErrKind::Value,
        6 => ErrKind::Div0,
        7 => ErrKind::Spill,
        8 => ErrKind::Field,
        9 => ErrKind::Busy,
        10 => ErrKind::Calc,
        11 => ErrKind::Name,
        12 => ErrKind::Null,
        13 => ErrKind::Num,
        _ => ErrKind::Na,
    }
}

/// The error that stands at `i`, and its end.
fn scan_error(s: &[char], i: usize) -> (r: Option<(ErrKind, usize)>)
    ensures
        match r {
            Some((e, end)) => error_from(s@, i as int, 0) == Some(e) && end == i
                + e.spelling().len() && end <= s@.len(),
            None => error_from(s@, i as int, 0) is None,
        },
{
    let mut k: u8 = 0;
    while k < 15
        invariant
            k <= 15,
            error_from(s@, i as int, k as int) == error_from(s@, i as int, 0),
        decreases 15 - k,
    {
        let e: ErrKind = error_number(k);
        let t = text::chars_of(e.text());
        if text_at(s, i, t.as_slice()) {
            return Some((e, i + t.len()));
        }
        k = k + 1;
    }
    None
}

/// A sign or an operator, and its length.
fn scan_punct(c: char, next: Option<char>) -> (r: Option<(TokKind, usize)>)
    ensures
        match r {
            Some((k, n)) => punct(c, next) == Some((k@, n as int)) && 1 <= n <= 2,
            None => punct(c, next) is None,
        },
        r matches Some((k, n)) ==> n == 2 ==> next is Some,
{
    if let Some(d) = next {
        if c == '<' && d == '=' {
            return Some((TokKind::Op(BinOp::Le), 2));
        }
        if c == '>' && d == '=' {
            return Some((TokKind::Op(BinOp::Ge), 2));
        }
        if c == '<' && d == '>' {
            return Some((TokKind::Op(BinOp::Ne), 2));
        }
    }
    let kind: TokKind = match c {
        '(' => TokKind::LParen,
        ')' => TokKind::RParen,
        '{' => TokKind::LBrace,
        '}' => TokKind::RBrace,
        ',' => TokKind::Comma,
        ';' => TokKind::Semi,
        '%' => TokKind::Percent,
        ':' => TokKind::Op(BinOp::Range),
        '^' => TokKind::Op(BinOp::Pow),
        '*' => TokKind::Op(BinOp::Mul),
        '/' => TokKind::Op(BinOp::Div),
        '+' => TokKind::Op(BinOp::Add),
        '-' => TokKind::Op(BinOp::Sub),
        '&' => TokKind::Op(BinOp::Concat),
        '=' => TokKind::Op(BinOp::Eq),
        '<' => TokKind::Op(BinOp::Lt),
        '>' => TokKind::Op(BinOp::Gt),
        _ => return None,
    };
    Some((kind, 1))
}

/// Whether `cs` is `t` but for case.
fn spells(cs: &[char], t: &str) -> (r: bool)
    ensures
        r == (text::lowered(cs@) == text::lowered(t@)),
{
    let u = text::chars_of(t);
    text::same_ignoring_case(cs, u.as_slice())
}

fn substring(s: &[char], from: usize, to: usize) -> (r: String)
    requires
        from <= to <= s@.len(),
    ensures
        r@ == s@.subrange(from as int, to as int),
{
    text::string_of(vstd::slice::slice_subrange(s, from, to))
}

/// What begins with a letter, a digit, `$`, `'`, `[` or `#`. The order in which
/// it is tried settles what it is.
fn scan_ref_name_or_number(s: &[char], i: usize, pos: u32) -> (r: Result<(TokKind, usize), Error>)
    requires
        i < s@.len(),
        pos == text::place(s@, i as int),
        word_start(s@[i as int]),
        s@[i as int] != '"',
    ensures
        match r {
            Ok((k, e)) => mark_at(s@, i as int) == Ok::<(Mark, int), Error>((k@, e as int)) && i < e
                <= s@.len(),
            Err(e) => mark_at(s@, i as int) == Err::<(Mark, int), Error>(e),
        },
{
    if let Some((r, e)) = scan::scan(s, i) {
        let local: bool = match &r.sheet {
            None => true,
            Some(_) => false,
        };
        if !(scan::is_at(s, e, '(') && local) {
            return Ok((TokKind::Ref(r), e));
        }
    }
    let c: char = s[i];
    if c == '#' {
        return match scan_error(s, i) {
            Some((e, end)) => {
                proof {
                    lemma_error_text(e);
                }
                Ok((TokKind::Error(e), end))
            },
            None => Err(fail(FormulaError::BadReference, pos)),
        };
    }
    if c == '\'' {
        return Err(fail(FormulaError::UnterminatedString, pos));
    }
    if c == '[' || c == '$' {
        return Err(fail(FormulaError::BadReference, pos));
    }
    if text::digit_of_ascii(c) {
        let e: usize = scan_number(s, i);
        return Ok((TokKind::Num { raw: substring(s, i, e) }, e));
    }
    let e: usize = scan::scan_name_run(s, i);
    if e == i {
        return Err(fail(FormulaError::UnexpectedChar(c), pos));
    }
    let name = vstd::slice::slice_subrange(s, i, e);
    proof {
        reveal_strlit("TRUE");
        reveal_strlit("FALSE");
        assert("TRUE"@ =~= print::bool_text(true));
        assert("FALSE"@ =~= print::bool_text(false));
    }
    if spells(name, "TRUE") {
        return Ok((TokKind::Bool(true), e));
    }
    if spells(name, "FALSE") {
        return Ok((TokKind::Bool(false), e));
    }
    let call: bool = scan::is_at(s, e, '(');
    Ok((TokKind::Name { text: text::string_of(name), call }, e))
}

/// Every error is written with at least one character.
pub proof fn lemma_error_text(e: ErrKind)
    ensures
        e.spelling().len() > 0,
{
    reveal_strlit("#DIV/0!");
    reveal_strlit("#N/A");
    reveal_strlit("#VALUE!");
    reveal_strlit("#NAME?");
    reveal_strlit("#NULL!");
    reveal_strlit("#NUM!");
    reveal_strlit("#GETTING_DATA");
    reveal_strlit("#SPILL!");
    reveal_strlit("#CALC!");
    reveal_strlit("#FIELD!");
    reveal_strlit("#BLOCKED!");
    reveal_strlit("#CONNECT!");
    reveal_strlit("#UNKNOWN!");
    reveal_strlit("#BUSY!");
    reveal_strlit("#EXTERNAL!");
}

/// The token at `i`, and its end.
fn scan_token(s: &[char], i: usize, pos: u32) -> (r: Result<(TokKind, usize), Error>)
    requires
        i < s@.len(),
        pos == text::place(s@, i as int),
    ensures
        match r {
            Ok((k, e)) => mark_at(s@, i as int) == Ok::<(Mark, int), Error>((k@, e as int)) && i < e
                <= s@.len(),
            Err(e) => mark_at(s@, i as int) == Err::<(Mark, int), Error>(e),
        },
{
    let c: char = s[i];
    let n: usize = s.len();
    if c == '"' {
        match scan::scan_quoted(s, i, '"') {
            Some((t, e)) => {
                proof {
                    scan::lemma_unquoted(s@, i + 1, '"');
                }
                Ok((TokKind::Str(text::string_of(t.as_slice())), e))
            },
            None => Err(fail(FormulaError::UnterminatedString, pos)),
        }
    } else if starts_word(c) {
        scan_ref_name_or_number(s, i, pos)
    } else if c == '.' && is_digit_at(s, i + 1) {
        let e: usize = scan_number(s, i);
        Ok((TokKind::Num { raw: substring(s, i, e) }, e))
    } else {
        match scan_punct(c, scan::peek(s, i + 1)) {
            Some((k, len)) => Ok((k, i + len)),
            None => Err(fail(FormulaError::UnexpectedChar(c), pos)),
        }
    }
}

/// The tokens of a formula. The last one is the end.
pub fn tokenize(src: &[char]) -> (r: Result<Vec<Token>, Error>)
    ensures
        match r {
            Ok(v) => tokens(src@, 0) == Ok::<Seq<Tok>, Error>(toks(v@)),
            Err(e) => tokens(src@, 0) == Err::<Seq<Tok>, Error>(e),
        },
{
    let mut out: Vec<Token> = Vec::new();
    let mut i: usize = 0;
    let mut at: u32 = 0;
    proof {
        if let Ok(u) = tokens(src@, 0) {
            assert(toks(out@) + u =~= u);
        }
    }
    loop
        invariant
            i <= src@.len(),
            at == text::place(src@, i as int),
            preceded(toks(out@), tokens(src@, i as int)) == tokens(src@, 0),
        decreases src@.len() - i,
    {
        let j: usize = skip_space(src, i);
        let ws: String = substring(src, i, j);
        let pos: u32 = advance(src, i, j, at);
        let ghost before = out@;
        if j >= src.len() {
            out.push(Token { kind: TokKind::Eof, ws, pos });
            proof {
                assert(toks(out@) =~= toks(before) + seq![out@.last()@]);
            }
            return Ok(out);
        }
        match scan_token(src, j, pos) {
            Err(e) => return Err(e),
            Ok((kind, e)) => {
                out.push(Token { kind, ws, pos });
                proof {
                    let t = out@.last()@;
                    if let Ok(u) = tokens(src@, e as int) {
                        assert(toks(before) + (seq![t] + u) =~= toks(out@) + u);
                    }
                }
                at = advance(src, j, e, pos);
                i = e;
            },
        }
    }
}

} // verus!
