//! From tokens to a tree, by precedence.
//!
//! A sign binds tighter than a power, and `:` and an intersection bind tighter
//! than a sign: `-2^2` is `(-2)^2`, and `-A1:B2` is `-(A1:B2)`. All infix
//! operators associate to the left.
//!
//! A comma has no precedence: between parentheses it joins ranges, between
//! those of a call it separates arguments.
//!
//! White space between two operands is an intersection, and formatting
//! elsewhere. Every piece of it goes into one node.
use vstd::prelude::*;

use crate::error::{Error, FormulaError};
use crate::formula::ast;
use crate::formula::ast::{BinOp, Expr, ExprKind, UnaryOp};
use crate::formula::lexer;
use crate::formula::lexer::{TokKind, Token};
use crate::text;

verus! {

/// How deep an expression may be nested.
pub const MAX_DEPTH: u32 = 64;

/// The precedence of a sign.
pub const UNARY_PREC: u8 = 6;

/// The precedence of an infix operator.
pub open spec fn prec_of(op: BinOp) -> u8 {
    match op {
        BinOp::Range => 8,
        BinOp::Intersect => 7,
        BinOp::Pow => 5,
        BinOp::Mul => 4,
        BinOp::Div => 4,
        BinOp::Add => 3,
        BinOp::Sub => 3,
        BinOp::Concat => 2,
        _ => 1,
    }
}

/// The token at `i`.
pub open spec fn mark_of(t: Seq<lexer::Tok>, i: int) -> lexer::Mark {
    if 0 <= i < t.len() {
        t[i].mark
    } else {
        lexer::Mark::Eof
    }
}

/// Where the token at `i` begins.
pub open spec fn pos_of(t: Seq<lexer::Tok>, i: int) -> u32 {
    if 0 <= i < t.len() {
        t[i].pos
    } else {
        0
    }
}

/// The white space before the token at `i`; none when it is `dry`, that is,
/// when that white space has been an operator.
pub open spec fn ws_of(t: Seq<lexer::Tok>, i: int, dry: bool) -> Seq<char> {
    if !dry && 0 <= i < t.len() {
        t[i].ws
    } else {
        Seq::empty()
    }
}

/// The token behind the one at `i`.
pub open spec fn next(t: Seq<lexer::Tok>, i: int) -> int {
    if i < t.len() {
        i + 1
    } else {
        i
    }
}

pub open spec fn fault<T>(kind: FormulaError, pos: u32) -> Result<T, Error> {
    Err(lexer::failure(kind, pos))
}

/// The character of a token, as an error gives it.
pub open spec fn char_for(m: lexer::Mark) -> char {
    match m {
        lexer::Mark::Comma => ',',
        lexer::Mark::Semi => ';',
        lexer::Mark::RBrace => '}',
        lexer::Mark::RParen => ')',
        lexer::Mark::LBrace => '{',
        lexer::Mark::Percent => '%',
        lexer::Mark::Op(o) => if o.spelling().len() > 0 {
            o.spelling()[0]
        } else {
            '?'
        },
        _ => '?',
    }
}

/// A tree with white space behind it, where there is some.
pub open spec fn trailed(e: ast::Tree, ws: Seq<char>) -> ast::Tree {
    if ws.len() == 0 {
        e
    } else {
        ast::with_trailing(e, ws)
    }
}

/// The expression at `i` of operators that bind at least as tight as `min`, in
/// `d` expressions around it, and the token behind it.
pub open spec fn expr(t: Seq<lexer::Tok>, i: int, dry: bool, min: u8, d: nat) -> Result<
    (ast::Tree, int),
    Error,
>
    decreases MAX_DEPTH - d, t.len() - i, 1int,
{
    if d >= MAX_DEPTH {
        fault(FormulaError::TooDeep, pos_of(t, i))
    } else {
        match unary(t, i, dry, d + 1) {
            Err(e) => Err(e),
            Ok((lhs, j)) => climb(t, lhs, j, min, d + 1),
        }
    }
}

/// The expression that begins with the operand `lhs` and goes on at `i`.
pub open spec fn climb(t: Seq<lexer::Tok>, lhs: ast::Tree, i: int, min: u8, d: nat) -> Result<
    (ast::Tree, int),
    Error,
>
    decreases MAX_DEPTH - d, t.len() - i, 2int,
{
    let m = mark_of(t, i);
    let ws = ws_of(t, i, false);
    if m is Op && prec_of(m->Op_0) >= min {
        match expr(t, i + 1, false, (prec_of(m->Op_0) + 1) as u8, d) {
            Err(e) => Err(e),
            // an expression takes at least one token
            Ok((rhs, k)) => if i < k <= t.len() {
                climb(
                    t,
                    ast::bare(ast::Shape::Binary(m->Op_0, Box::new(lhs), Box::new(rhs), ws)),
                    k,
                    min,
                    d,
                )
            } else {
                arbitrary()
            },
        }
    } else if lexer::opens(m) && prec_of(BinOp::Intersect) >= min && ws.len() > 0 {
        match expr(t, i, true, (prec_of(BinOp::Intersect) + 1) as u8, d) {
            Err(e) => Err(e),
            Ok((rhs, k)) => if i < k <= t.len() {
                climb(
                    t,
                    ast::bare(
                        ast::Shape::Binary(BinOp::Intersect, Box::new(lhs), Box::new(rhs), ws),
                    ),
                    k,
                    min,
                    d,
                )
            } else {
                arbitrary()
            },
        }
    } else {
        Ok((lhs, i))
    }
}

/// An operand with its sign or its `%`.
pub open spec fn unary(t: Seq<lexer::Tok>, i: int, dry: bool, d: nat) -> Result<
    (ast::Tree, int),
    Error,
>
    decreases MAX_DEPTH - d, t.len() - i, 1int,
{
    let m = mark_of(t, i);
    if m == lexer::Mark::Op(BinOp::Sub) || m == lexer::Mark::Op(BinOp::Add) {
        let op = if m == lexer::Mark::Op(BinOp::Sub) {
            UnaryOp::Neg
        } else {
            UnaryOp::Plus
        };
        match expr(t, i + 1, false, UNARY_PREC, d) {
            Err(e) => Err(e),
            Ok((x, j)) => Ok(
                (
                    ast::Tree {
                        shape: ast::Shape::Unary(op, Box::new(x)),
                        before: ws_of(t, i, dry),
                        after: Seq::empty(),
                    },
                    j,
                ),
            ),
        }
    } else {
        match primary(t, i, dry, d) {
            Err(e) => Err(e),
            Ok((e, j)) => Ok(percents(t, e, j)),
        }
    }
}

/// An operand with every `%` behind it.
pub open spec fn percents(t: Seq<lexer::Tok>, e: ast::Tree, i: int) -> (ast::Tree, int)
    decreases t.len() - i,
{
    if mark_of(t, i) is Percent {
        percents(
            t,
            ast::bare(ast::Shape::Percent(Box::new(trailed(e, ws_of(t, i, false))))),
            i + 1,
        )
    } else {
        (e, i)
    }
}

pub open spec fn leaf(shape: ast::Shape, before: Seq<char>, end: int) -> Result<
    (ast::Tree, int),
    Error,
> {
    Ok((ast::Tree { shape, before, after: Seq::empty() }, end))
}

/// An operand.
pub open spec fn primary(t: Seq<lexer::Tok>, i: int, dry: bool, d: nat) -> Result<
    (ast::Tree, int),
    Error,
>
    decreases MAX_DEPTH - d, t.len() - i, 0int,
{
    let before = ws_of(t, i, dry);
    match mark_of(t, i) {
        lexer::Mark::Num(raw) => leaf(ast::Shape::Num(raw), before, i + 1),
        lexer::Mark::Str(s) => leaf(ast::Shape::Str(s), before, i + 1),
        lexer::Mark::Bool(b) => leaf(ast::Shape::Bool(b), before, i + 1),
        lexer::Mark::Error(e) => leaf(ast::Shape::Error(e), before, i + 1),
        lexer::Mark::Ref(r) => leaf(ast::Shape::Ref(r), before, i + 1),
        lexer::Mark::Name(name, call) => if !call {
            leaf(ast::Shape::Name(name), before, i + 1)
        } else {
            match arg_list(t, next(t, i + 1), d) {
                Err(e) => Err(e),
                Ok((args, j)) => if mark_of(t, j) is RParen {
                    leaf(ast::Shape::Func(name, args, inside(t, j, args)), before, j + 1)
                } else {
                    fault(FormulaError::UnbalancedParen, pos_of(t, j))
                },
            }
        },
        lexer::Mark::LParen => match paren_body(t, i + 1, Seq::empty(), d) {
            Err(e) => Err(e),
            Ok((x, j)) => leaf(ast::Shape::Paren(Box::new(x)), before, j),
        },
        lexer::Mark::LBrace => match array_rows(t, i + 1, Seq::empty(), Seq::empty(), d) {
            Err(e) => Err(e),
            Ok((rows, j)) => leaf(ast::Shape::Array(rows), before, j),
        },
        lexer::Mark::Eof => fault(FormulaError::UnexpectedEof, pos_of(t, i)),
        lexer::Mark::RParen => fault(FormulaError::UnbalancedParen, pos_of(t, i)),
        other => fault(FormulaError::UnexpectedChar(char_for(other)), pos_of(t, i)),
    }
}

/// What stands between parentheses, with the closing one.
pub open spec fn paren_body(t: Seq<lexer::Tok>, i: int, items: Seq<ast::Tree>, d: nat) -> Result<
    (ast::Tree, int),
    Error,
>
    decreases MAX_DEPTH - d, t.len() - i, 2int,
{
    match expr(t, i, false, 1, d) {
        Err(e) => Err(e),
        Ok((e, j)) => {
            let list = items.push(trailed(e, ws_of(t, j, false)));
            if !(i < j <= t.len()) {
                arbitrary()
            } else if mark_of(t, j) is Comma {
                paren_body(t, j + 1, list, d)
            } else if mark_of(t, j) is RParen {
                if list.len() == 1 {
                    Ok((list[0], j + 1))
                } else {
                    Ok((ast::bare(ast::Shape::Union(list)), j + 1))
                }
            } else {
                fault(FormulaError::UnbalancedParen, pos_of(t, j))
            }
        },
    }
}

/// The white space before the closing parenthesis of a call without arguments.
/// With arguments it belongs to the last one.
pub open spec fn inside(t: Seq<lexer::Tok>, i: int, args: Seq<ast::Tree>) -> Seq<char> {
    if args.len() == 0 {
        ws_of(t, i, false)
    } else {
        Seq::empty()
    }
}

/// The arguments of a call, up to the closing parenthesis. `TODAY()` has none,
/// which is not one left out.
pub open spec fn arg_list(t: Seq<lexer::Tok>, i: int, d: nat) -> Result<
    (Seq<ast::Tree>, int),
    Error,
>
    decreases MAX_DEPTH - d, t.len() - i, 3int,
{
    if mark_of(t, i) is RParen {
        Ok((Seq::empty(), i))
    } else {
        arguments(t, i, Seq::empty(), d)
    }
}

pub open spec fn arguments(t: Seq<lexer::Tok>, i: int, args: Seq<ast::Tree>, d: nat) -> Result<
    (Seq<ast::Tree>, int),
    Error,
>
    decreases MAX_DEPTH - d, t.len() - i, 2int,
{
    let left_out = mark_of(t, i) is Comma || mark_of(t, i) is RParen;
    let item: Result<(ast::Tree, int), Error> = if left_out {
        leaf(ast::Shape::Missing, ws_of(t, i, false), i)
    } else {
        match expr(t, i, false, 1, d) {
            Err(e) => Err(e),
            Ok((e, j)) => Ok((trailed(e, ws_of(t, j, false)), j)),
        }
    };
    match item {
        Err(e) => Err(e),
        Ok((e, j)) => if !(i <= j <= t.len()) {
            arbitrary()
        } else if mark_of(t, j) is Comma {
            arguments(t, j + 1, args.push(e), d)
        } else {
            Ok((args.push(e), j))
        },
    }
}

/// The rows of an array, with the closing brace.
pub open spec fn array_rows(
    t: Seq<lexer::Tok>,
    i: int,
    rows: Seq<Seq<ast::Tree>>,
    row: Seq<ast::Tree>,
    d: nat,
) -> Result<(Seq<Seq<ast::Tree>>, int), Error>
    decreases MAX_DEPTH - d, t.len() - i, 2int,
{
    match expr(t, i, false, 1, d) {
        Err(e) => Err(e),
        Ok((e, j)) => {
            let list = row.push(trailed(e, ws_of(t, j, false)));
            if !(i < j <= t.len()) {
                arbitrary()
            } else {
                match mark_of(t, j) {
                    lexer::Mark::Comma => array_rows(t, j + 1, rows, list, d),
                    lexer::Mark::Semi => array_rows(t, j + 1, rows.push(list), Seq::empty(), d),
                    lexer::Mark::RBrace => Ok((rows.push(list), j + 1)),
                    _ => fault(FormulaError::UnbalancedParen, pos_of(t, j)),
                }
            }
        },
    }
}

/// The tree of a formula's tokens.
pub open spec fn tree_of(t: Seq<lexer::Tok>) -> Result<ast::Tree, Error> {
    match expr(t, 0, false, 1, 0) {
        Err(e) => Err(e),
        Ok((e, j)) => match mark_of(t, j) {
            lexer::Mark::Eof => Ok(trailed(e, ws_of(t, j, false))),
            lexer::Mark::RParen => fault(FormulaError::UnbalancedParen, pos_of(t, j)),
            other => fault(FormulaError::UnexpectedChar(char_for(other)), pos_of(t, j)),
        },
    }
}

/// The tree of a formula.
pub open spec fn parsed(s: Seq<char>) -> Result<ast::Tree, Error> {
    match lexer::tokens(s, 0) {
        Err(e) => Err(e),
        Ok(t) => tree_of(t),
    }
}

fn prec(op: BinOp) -> (r: u8)
    ensures
        r == prec_of(op),
        1 <= r <= 8,
{
    match op {
        BinOp::Range => 8,
        BinOp::Intersect => 7,
        BinOp::Pow => 5,
        BinOp::Mul => 4,
        BinOp::Div => 4,
        BinOp::Add => 3,
        BinOp::Sub => 3,
        BinOp::Concat => 2,
        _ => 1,
    }
}

fn char_of(k: &TokKind) -> (r: char)
    ensures
        r == char_for(k@),
{
    match k {
        TokKind::Comma => ',',
        TokKind::Semi => ';',
        TokKind::RBrace => '}',
        TokKind::RParen => ')',
        TokKind::LBrace => '{',
        TokKind::Percent => '%',
        TokKind::Op(o) => {
            let cs = text::chars_of(o.text());
            if cs.len() > 0 {
                cs[0]
            } else {
                '?'
            }
        },
        _ => '?',
    }
}

fn fail(kind: FormulaError, pos: u32) -> (r: Error)
    ensures
        r == lexer::failure(kind, pos),
{
    Error::Formula { kind, pos }
}

struct Parser {
    toks: Vec<Token>,
    i: usize,
    depth: u32,
}

impl Parser {
    /// The tokens from the current one on are those of `t`; the white space
    /// before the current one is taken when it is `dry`.
    spec fn ready(&self, t: Seq<lexer::Tok>, dry: bool) -> bool {
        &&& self.toks@.len() == t.len()
        &&& self.i <= t.len()
        &&& forall|k: int| self.i < k < t.len() ==> (#[trigger] self.toks@[k])@ == t[k]
        &&& self.i < t.len() ==> {
            &&& self.toks@[self.i as int].kind@ == t[self.i as int].mark
            &&& self.toks@[self.i as int].pos == t[self.i as int].pos
            &&& self.toks@[self.i as int].ws@ == ws_of(t, self.i as int, dry)
        }
    }

    fn pos(&self, t: Ghost<Seq<lexer::Tok>>, dry: Ghost<bool>) -> (r: u32)
        requires
            self.ready(t@, dry@),
        ensures
            r == pos_of(t@, self.i as int),
    {
        if self.i < self.toks.len() {
            self.toks[self.i].pos
        } else {
            0
        }
    }

    /// Takes the white space before the current token.
    fn take_ws(&mut self, t: Ghost<Seq<lexer::Tok>>, dry: Ghost<bool>) -> (r: String)
        requires
            old(self).ready(t@, dry@),
        ensures
            final(self).ready(t@, true),
            final(self).i == old(self).i,
            final(self).depth == old(self).depth,
            r@ == ws_of(t@, old(self).i as int, dry@),
    {
        let mut ws: String = String::new();
        let i: usize = self.i;
        if i < self.toks.len() {
            core::mem::swap(&mut ws, &mut self.toks[i].ws);
        }
        assert(i >= t@.len() ==> ws@ =~= Seq::empty());
        ws
    }

    /// Takes the current token and goes on to the next one.
    fn bump(&mut self, t: Ghost<Seq<lexer::Tok>>, dry: Ghost<bool>) -> (r: TokKind)
        requires
            old(self).ready(t@, dry@),
        ensures
            final(self).ready(t@, false),
            final(self).i == next(t@, old(self).i as int),
            final(self).depth == old(self).depth,
            r@ == mark_of(t@, old(self).i as int),
    {
        let mut k: TokKind = TokKind::Eof;
        let i: usize = self.i;
        if i < self.toks.len() {
            core::mem::swap(&mut k, &mut self.toks[i].kind);
            self.i = i + 1;
        }
        k
    }

    fn op_ahead(&self, t: Ghost<Seq<lexer::Tok>>, dry: Ghost<bool>) -> (r: Option<BinOp>)
        requires
            self.ready(t@, dry@),
        ensures
            match r {
                Some(o) => mark_of(t@, self.i as int) == lexer::Mark::Op(o),
                None => !(mark_of(t@, self.i as int) is Op),
            },
    {
        if self.i < self.toks.len() {
            if let TokKind::Op(o) = &self.toks[self.i].kind {
                return Some(*o);
            }
        }
        None
    }

    fn operand_ahead(&self, t: Ghost<Seq<lexer::Tok>>, dry: Ghost<bool>) -> (r: bool)
        requires
            self.ready(t@, dry@),
        ensures
            r == lexer::opens(mark_of(t@, self.i as int)),
    {
        self.i < self.toks.len() && self.toks[self.i].kind.starts_operand()
    }

    fn comma_ahead(&self, t: Ghost<Seq<lexer::Tok>>, dry: Ghost<bool>) -> (r: bool)
        requires
            self.ready(t@, dry@),
        ensures
            r == (mark_of(t@, self.i as int) is Comma),
    {
        self.i < self.toks.len() && matches!(self.toks[self.i].kind, TokKind::Comma)
    }

    fn rparen_ahead(&self, t: Ghost<Seq<lexer::Tok>>, dry: Ghost<bool>) -> (r: bool)
        requires
            self.ready(t@, dry@),
        ensures
            r == (mark_of(t@, self.i as int) is RParen),
    {
        self.i < self.toks.len() && matches!(self.toks[self.i].kind, TokKind::RParen)
    }

    fn percent_ahead(&self, t: Ghost<Seq<lexer::Tok>>, dry: Ghost<bool>) -> (r: bool)
        requires
            self.ready(t@, dry@),
        ensures
            r == (mark_of(t@, self.i as int) is Percent),
    {
        self.i < self.toks.len() && matches!(self.toks[self.i].kind, TokKind::Percent)
    }

    /// Puts the white space before the current token behind `e`.
    fn absorb_trailing(&mut self, e: &mut Expr, t: Ghost<Seq<lexer::Tok>>)
        requires
            old(self).ready(t@, false),
        ensures
            final(self).ready(t@, true),
            final(self).i == old(self).i,
            final(self).depth == old(self).depth,
            final(e)@ == trailed(old(e)@, ws_of(t@, old(self).i as int, false)),
    {
        let ws: String = self.take_ws(t, Ghost(false));
        if !is_empty(ws.as_str()) {
            e.set_trailing_ws(ws.as_str());
        }
    }

    fn expr(&mut self, min: u8, t: Ghost<Seq<lexer::Tok>>, dry: Ghost<bool>) -> (r: Result<
        Expr,
        Error,
    >)
        requires
            old(self).ready(t@, dry@),
            old(self).depth <= MAX_DEPTH,
        ensures
            match r {
                Ok(e) => {
                    &&& expr(t@, old(self).i as int, dry@, min, old(self).depth as nat) == Ok::<
                        (ast::Tree, int),
                        Error,
                    >((e@, final(self).i as int))
                    &&& final(self).ready(t@, false)
                    &&& final(self).depth == old(self).depth
                    &&& final(self).i > old(self).i
                },
                Err(e) => expr(t@, old(self).i as int, dry@, min, old(self).depth as nat) == Err::<
                    (ast::Tree, int),
                    Error,
                >(e),
            },
        decreases MAX_DEPTH - old(self).depth, t@.len() - old(self).i, 1int,
    {
        if self.depth >= MAX_DEPTH {
            return Err(fail(FormulaError::TooDeep, self.pos(t, dry)));
        }
        self.depth = self.depth + 1;
        let mut lhs: Expr = match self.unary(t, dry) {
            Ok(e) => e,
            Err(e) => return Err(e),
        };
        let ghost d = old(self).depth as nat + 1;
        let ghost from = old(self).i as int;
        let ghost whole = expr(t@, from, dry@, min, old(self).depth as nat);
        loop
            invariant
                self.ready(t@, false),
                self.depth == d,
                d == old(self).depth + 1,
                d <= MAX_DEPTH,
                self.i > from,
                from == old(self).i,
                whole == expr(t@, from, dry@, min, old(self).depth as nat),
                climb(t@, lhs@, self.i as int, min, d) == whole,
            ensures
                whole == Ok::<(ast::Tree, int), Error>((lhs@, self.i as int)),
            decreases t@.len() - self.i,
        {
            let ghost i = self.i as int;
            if let Some(op) = self.op_ahead(t, Ghost(false)) {
                let p: u8 = prec(op);
                if p < min {
                    break;
                }
                let ws_op: String = self.take_ws(t, Ghost(false));
                let _k = self.bump(t, Ghost(true));
                let rhs: Expr = match self.expr(p + 1, t, Ghost(false)) {
                    Ok(e) => e,
                    Err(e) => return Err(e),
                };
                lhs =
                Expr::new(
                    ExprKind::Binary { op, lhs: Box::new(lhs), rhs: Box::new(rhs), ws_op },
                );
            } else if self.operand_ahead(t, Ghost(false)) {
                if 7 < min {
                    break;
                }
                let ws: String = self.take_ws(t, Ghost(false));
                if is_empty(ws.as_str()) {
                    assert(ws@ =~= Seq::empty());
                    break;
                }
                let rhs: Expr = match self.expr(8, t, Ghost(true)) {
                    Ok(e) => e,
                    Err(e) => return Err(e),
                };
                lhs =
                Expr::new(
                    ExprKind::Binary {
                        op: BinOp::Intersect,
                        lhs: Box::new(lhs),
                        rhs: Box::new(rhs),
                        ws_op: ws,
                    },
                );
            } else {
                break;
            }
        }
        self.depth = self.depth - 1;
        Ok(lhs)
    }

    fn unary(&mut self, t: Ghost<Seq<lexer::Tok>>, dry: Ghost<bool>) -> (r: Result<Expr, Error>)
        requires
            old(self).ready(t@, dry@),
            old(self).depth <= MAX_DEPTH,
        ensures
            match r {
                Ok(e) => {
                    &&& unary(t@, old(self).i as int, dry@, old(self).depth as nat) == Ok::<
                        (ast::Tree, int),
                        Error,
                    >((e@, final(self).i as int))
                    &&& final(self).ready(t@, false)
                    &&& final(self).depth == old(self).depth
                    &&& final(self).i > old(self).i
                },
                Err(e) => unary(t@, old(self).i as int, dry@, old(self).depth as nat) == Err::<
                    (ast::Tree, int),
                    Error,
                >(e),
            },
        decreases MAX_DEPTH - old(self).depth, t@.len() - old(self).i, 1int,
    {
        let op: Option<UnaryOp> = match self.op_ahead(t, dry) {
            Some(BinOp::Sub) => Some(UnaryOp::Neg),
            Some(BinOp::Add) => Some(UnaryOp::Plus),
            _ => None,
        };
        if let Some(op) = op {
            let ws_before: String = self.take_ws(t, dry);
            let _k = self.bump(t, Ghost(true));
            let operand: Expr = match self.expr(UNARY_PREC, t, Ghost(false)) {
                Ok(e) => e,
                Err(e) => return Err(e),
            };
            let r = Expr {
                kind: ExprKind::Unary { op, operand: Box::new(operand) },
                ws_before,
                ws_after: String::new(),
            };
            proof {
                assert(r@.shape == ast::shape(r.kind));
                assert(r.ws_after@ =~= Seq::empty());
            }
            return Ok(r);
        }
        let mut e: Expr = match self.primary(t, dry) {
            Ok(e) => e,
            Err(e) => return Err(e),
        };
        let ghost first = e@;
        let ghost from = self.i as int;
        while self.percent_ahead(t, Ghost(false))
            invariant
                self.ready(t@, false),
                self.depth == old(self).depth,
                self.i >= from,
                from > old(self).i,
                percents(t@, e@, self.i as int) == percents(t@, first, from),
            decreases t@.len() - self.i,
        {
            self.absorb_trailing(&mut e, t);
            let _k = self.bump(t, Ghost(true));
            e = Expr::new(ExprKind::Percent(Box::new(e)));
        }
        Ok(e)
    }

    fn primary(&mut self, t: Ghost<Seq<lexer::Tok>>, dry: Ghost<bool>) -> (r: Result<Expr, Error>)
        requires
            old(self).ready(t@, dry@),
            old(self).depth <= MAX_DEPTH,
        ensures
            match r {
                Ok(e) => {
                    &&& primary(t@, old(self).i as int, dry@, old(self).depth as nat) == Ok::<
                        (ast::Tree, int),
                        Error,
                    >((e@, final(self).i as int))
                    &&& final(self).ready(t@, false)
                    &&& final(self).depth == old(self).depth
                    &&& final(self).i > old(self).i
                },
                Err(e) => primary(t@, old(self).i as int, dry@, old(self).depth as nat) == Err::<
                    (ast::Tree, int),
                    Error,
                >(e),
            },
        decreases MAX_DEPTH - old(self).depth, t@.len() - old(self).i, 0int,
    {
        let ws_before: String = self.take_ws(t, dry);
        let pos: u32 = self.pos(t, Ghost(true));
        let kind: ExprKind = match self.bump(t, Ghost(true)) {
            TokKind::Num { raw } => ExprKind::Num { raw },
            TokKind::Str(s) => ExprKind::Str(s),
            TokKind::Bool(b) => ExprKind::Bool(b),
            TokKind::Error(e) => ExprKind::Error(e),
            TokKind::Ref(r) => ExprKind::Ref(r),
            TokKind::Name { text, call } => {
                if call {
                    let _k = self.bump(t, Ghost(false));
                    let (args, dry2): (Vec<Expr>, Ghost<bool>) = match self.arg_list(t) {
                        Ok(x) => x,
                        Err(e) => return Err(e),
                    };
                    if !self.rparen_ahead(t, dry2) {
                        return Err(fail(FormulaError::UnbalancedParen, self.pos(t, dry2)));
                    }
                    let mut ws_inside: String = String::new();
                    assert(ws_inside@ =~= Seq::<char>::empty());
                    if args.len() == 0 {
                        ws_inside = self.take_ws(t, dry2);
                    }
                    proof {
                        ast::lemma_trees(args@);
                    }
                    let _k = self.bump(t, Ghost(true));
                    ExprKind::Func { name: text, args, ws_inside }
                } else {
                    ExprKind::Name(text)
                }
            },
            TokKind::LParen => match self.paren_body(t) {
                Ok(x) => ExprKind::Paren(Box::new(x)),
                Err(e) => return Err(e),
            },
            TokKind::LBrace => match self.array_rows(t) {
                Ok(rows) => ExprKind::Array(rows),
                Err(e) => return Err(e),
            },
            TokKind::Eof => return Err(fail(FormulaError::UnexpectedEof, pos)),
            TokKind::RParen => return Err(fail(FormulaError::UnbalancedParen, pos)),
            other => return Err(fail(FormulaError::UnexpectedChar(char_of(&other)), pos)),
        };
        let r = Expr { kind, ws_before, ws_after: String::new() };
        proof {
            assert(r@.shape == ast::shape(r.kind));
            assert(r.ws_after@ =~= Seq::empty());
        }
        Ok(r)
    }

    fn paren_body(&mut self, t: Ghost<Seq<lexer::Tok>>) -> (r: Result<Expr, Error>)
        requires
            old(self).ready(t@, false),
            old(self).depth <= MAX_DEPTH,
        ensures
            match r {
                Ok(e) => {
                    &&& paren_body(
                        t@,
                        old(self).i as int,
                        Seq::empty(),
                        old(self).depth as nat,
                    ) == Ok::<(ast::Tree, int), Error>((e@, final(self).i as int))
                    &&& final(self).ready(t@, false)
                    &&& final(self).depth == old(self).depth
                    &&& final(self).i > old(self).i
                },
                Err(e) => paren_body(
                    t@,
                    old(self).i as int,
                    Seq::empty(),
                    old(self).depth as nat,
                ) == Err::<(ast::Tree, int), Error>(e),
            },
        decreases MAX_DEPTH - old(self).depth, t@.len() - old(self).i, 2int,
    {
        let mut items: Vec<Expr> = Vec::new();
        let ghost from = old(self).i as int;
        let ghost d = old(self).depth as nat;
        loop
            invariant
                self.ready(t@, false),
                self.depth == d,
                d == old(self).depth,
                d <= MAX_DEPTH,
                self.i >= from,
                from == old(self).i,
                paren_body(t@, self.i as int, ast::trees(items@), d) == paren_body(
                    t@,
                    from,
                    Seq::empty(),
                    d,
                ),
            decreases t@.len() - self.i,
        {
            let ghost i = self.i as int;
            let mut e: Expr = match self.expr(1, t, Ghost(false)) {
                Ok(e) => e,
                Err(e) => return Err(e),
            };
            self.absorb_trailing(&mut e, t);
            let ghost before = items@;
            items.push(e);
            proof {
                assert(items@.drop_last() =~= before);
                ast::lemma_trees(items@);
            }
            if self.comma_ahead(t, Ghost(true)) {
                let _k = self.bump(t, Ghost(true));
            } else if self.rparen_ahead(t, Ghost(true)) {
                let _k = self.bump(t, Ghost(true));
                if items.len() == 1 {
                    let last: Option<Expr> = items.pop();
                    match last {
                        Some(e) => return Ok(e),
                        None => {
                            assert(false);
                        },
                    }
                }
                return Ok(Expr::new(ExprKind::Union(items)));
            } else {
                return Err(fail(FormulaError::UnbalancedParen, self.pos(t, Ghost(true))));
            }
        }
    }

    fn arg_list(&mut self, t: Ghost<Seq<lexer::Tok>>) -> (r: Result<
        (Vec<Expr>, Ghost<bool>),
        Error,
    >)
        requires
            old(self).ready(t@, false),
            old(self).depth <= MAX_DEPTH,
        ensures
            match r {
                Ok((v, dry)) => {
                    &&& arg_list(t@, old(self).i as int, old(self).depth as nat) == Ok::<
                        (Seq<ast::Tree>, int),
                        Error,
                    >((ast::trees(v@), final(self).i as int))
                    &&& final(self).ready(t@, dry@)
                    &&& dry@ == (v@.len() > 0)
                    &&& final(self).depth == old(self).depth
                    &&& final(self).i >= old(self).i
                },
                Err(e) => arg_list(t@, old(self).i as int, old(self).depth as nat) == Err::<
                    (Seq<ast::Tree>, int),
                    Error,
                >(e),
            },
        decreases MAX_DEPTH - old(self).depth, t@.len() - old(self).i, 3int,
    {
        let mut args: Vec<Expr> = Vec::new();
        if self.rparen_ahead(t, Ghost(false)) {
            return Ok((args, Ghost(false)));
        }
        let ghost from = old(self).i as int;
        let ghost d = old(self).depth as nat;
        loop
            invariant
                self.ready(t@, false),
                self.depth == d,
                d == old(self).depth,
                d <= MAX_DEPTH,
                self.i >= from,
                from == old(self).i,
                arguments(t@, self.i as int, ast::trees(args@), d) == arg_list(t@, from, d),
            decreases t@.len() - self.i,
        {
            let ghost i = self.i as int;
            let ghost before = args@;
            if self.comma_ahead(t, Ghost(false)) || self.rparen_ahead(t, Ghost(false)) {
                let ws: String = self.take_ws(t, Ghost(false));
                let e: Expr = Expr::new(ExprKind::Missing).with_ws_before(ws.as_str());
                args.push(e);
            } else {
                let mut e: Expr = match self.expr(1, t, Ghost(false)) {
                    Ok(e) => e,
                    Err(e) => return Err(e),
                };
                self.absorb_trailing(&mut e, t);
                args.push(e);
            }
            proof {
                assert(args@.drop_last() =~= before);
            }
            if self.comma_ahead(t, Ghost(true)) {
                let _k = self.bump(t, Ghost(true));
            } else {
                return Ok((args, Ghost(true)));
            }
        }
    }

    fn array_rows(&mut self, t: Ghost<Seq<lexer::Tok>>) -> (r: Result<Vec<Vec<Expr>>, Error>)
        requires
            old(self).ready(t@, false),
            old(self).depth <= MAX_DEPTH,
        ensures
            match r {
                Ok(v) => {
                    &&& array_rows(
                        t@,
                        old(self).i as int,
                        Seq::empty(),
                        Seq::empty(),
                        old(self).depth as nat,
                    ) == Ok::<(Seq<Seq<ast::Tree>>, int), Error>(
                        (ast::tree_rows(v@), final(self).i as int),
                    )
                    &&& final(self).ready(t@, false)
                    &&& final(self).depth == old(self).depth
                    &&& final(self).i > old(self).i
                },
                Err(e) => array_rows(
                    t@,
                    old(self).i as int,
                    Seq::empty(),
                    Seq::empty(),
                    old(self).depth as nat,
                ) == Err::<(Seq<Seq<ast::Tree>>, int), Error>(e),
            },
        decreases MAX_DEPTH - old(self).depth, t@.len() - old(self).i, 2int,
    {
        let mut rows: Vec<Vec<Expr>> = Vec::new();
        let mut row: Vec<Expr> = Vec::new();
        let ghost from = old(self).i as int;
        let ghost d = old(self).depth as nat;
        loop
            invariant
                self.ready(t@, false),
                self.depth == d,
                d == old(self).depth,
                d <= MAX_DEPTH,
                self.i >= from,
                from == old(self).i,
                array_rows(t@, self.i as int, ast::tree_rows(rows@), ast::trees(row@), d)
                    == array_rows(t@, from, Seq::empty(), Seq::empty(), d),
            decreases t@.len() - self.i,
        {
            let ghost i = self.i as int;
            let mut e: Expr = match self.expr(1, t, Ghost(false)) {
                Ok(e) => e,
                Err(e) => return Err(e),
            };
            self.absorb_trailing(&mut e, t);
            let ghost before = row@;
            let ghost item = e@;
            row.push(e);
            proof {
                assert(row@.drop_last() =~= before);
                assert(ast::trees(row@) == ast::trees(before).push(item));
            }
            let ghost list = rows@;
            let ghost line = row@;
            if self.comma_ahead(t, Ghost(true)) {
                let _k = self.bump(t, Ghost(true));
            } else if self.semi_ahead(t, Ghost(true)) {
                let _k = self.bump(t, Ghost(true));
                let mut full: Vec<Expr> = Vec::new();
                core::mem::swap(&mut full, &mut row);
                rows.push(full);
                proof {
                    assert(rows@.drop_last() =~= list);
                    assert(ast::tree_rows(rows@) == ast::tree_rows(list).push(ast::trees(line)));
                    assert(ast::trees(row@) =~= Seq::empty());
                }
            } else if self.rbrace_ahead(t, Ghost(true)) {
                let _k = self.bump(t, Ghost(true));
                rows.push(row);
                proof {
                    assert(rows@.drop_last() =~= list);
                    assert(ast::tree_rows(rows@) == ast::tree_rows(list).push(ast::trees(line)));
                }
                return Ok(rows);
            } else {
                return Err(fail(FormulaError::UnbalancedParen, self.pos(t, Ghost(true))));
            }
        }
    }

    fn semi_ahead(&self, t: Ghost<Seq<lexer::Tok>>, dry: Ghost<bool>) -> (r: bool)
        requires
            self.ready(t@, dry@),
        ensures
            r == (mark_of(t@, self.i as int) is Semi),
    {
        self.i < self.toks.len() && matches!(self.toks[self.i].kind, TokKind::Semi)
    }

    fn rbrace_ahead(&self, t: Ghost<Seq<lexer::Tok>>, dry: Ghost<bool>) -> (r: bool)
        requires
            self.ready(t@, dry@),
        ensures
            r == (mark_of(t@, self.i as int) is RBrace),
    {
        self.i < self.toks.len() && matches!(self.toks[self.i].kind, TokKind::RBrace)
    }
}

fn is_empty(s: &str) -> (r: bool)
    ensures
        r == (s@.len() == 0),
{
    text::chars_of(s).len() == 0
}

/// Reads a formula, which has no leading `=`.
pub fn parse(src: &str) -> (r: Result<Expr, Error>)
    ensures
        match r {
            Ok(e) => parsed(src@) == Ok::<ast::Tree, Error>(e@),
            Err(e) => parsed(src@) == Err::<ast::Tree, Error>(e),
        },
{
    let cs = text::chars_of(src);
    let toks: Vec<Token> = match lexer::tokenize(cs.as_slice()) {
        Ok(v) => v,
        Err(e) => return Err(e),
    };
    let ghost t = lexer::toks(toks@);
    let mut p = Parser { toks, i: 0, depth: 0 };
    let mut e: Expr = match p.expr(1, Ghost(t), Ghost(false)) {
        Ok(e) => e,
        Err(e) => return Err(e),
    };
    p.absorb_trailing(&mut e, Ghost(t));
    if p.i < p.toks.len() {
        let pos: u32 = p.toks[p.i].pos;
        match &p.toks[p.i].kind {
            TokKind::Eof => {},
            TokKind::RParen => return Err(fail(FormulaError::UnbalancedParen, pos)),
            other => return Err(fail(FormulaError::UnexpectedChar(char_of(other)), pos)),
        }
    }
    Ok(e)
}

} // verus!
