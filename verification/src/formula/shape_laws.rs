//! How tightly operators bind in the tree of a formula.
use vstd::prelude::*;

use crate::formula::ast;
use crate::formula::ast::{BinOp, Shape, Tree, UnaryOp};
use crate::formula::lexer;
use crate::formula::lexer::{Mark, Tok};
use crate::formula::parser;

verus! {

/// How tightly an operator binds: a range most, then an intersection, then, with
/// the signs between, a power, products, sums, joined texts, and comparisons
/// least.
pub open spec fn binds(op: BinOp) -> int {
    match op {
        BinOp::Range => 8,
        BinOp::Intersect => 7,
        BinOp::Pow => 5,
        BinOp::Mul => 4,
        BinOp::Div => 4,
        BinOp::Add => 3,
        BinOp::Sub => 3,
        BinOp::Concat => 2,
        BinOp::Eq => 1,
        BinOp::Ne => 1,
        BinOp::Lt => 1,
        BinOp::Le => 1,
        BinOp::Gt => 1,
        BinOp::Ge => 1,
    }
}

/// How tightly a sign binds.
pub open spec fn sign_binds() -> int {
    6
}

/// Whether the last operand of an expression stands behind a sign.
pub open spec fn ends_signed(e: Tree) -> bool
    decreases e,
{
    match e.shape {
        Shape::Unary(_, _) => true,
        Shape::Binary(_, _, r, _) => ends_signed(*r),
        _ => false,
    }
}

/// What an operator may have on its left: nothing that binds less, since
/// operators of one rank are read from the left, and no sign that binds less.
pub open spec fn left_of(rank: int, l: Tree) -> bool {
    &&& l.shape matches Shape::Binary(o, _, _, _) ==> binds(o) >= rank
    &&& ends_signed(l) ==> sign_binds() > rank
}

/// What an operator may have on its right: nothing that binds less or as much.
/// A sign may stand there, whatever the operator is.
pub open spec fn right_of(rank: int, r: Tree) -> bool {
    r.shape matches Shape::Binary(o, _, _, _) ==> binds(o) > rank
}

/// Every operator of a tree has operands that bind tighter, from the left for
/// operators of one rank; a sign has what binds tighter than a sign, and `%` has
/// one operand. What stands in parentheses, braces and arguments is free; a list
/// of ranges has several, and the one argument of a call is never left out.
pub open spec fn shaped(e: Tree) -> bool
    decreases e,
{
    match e.shape {
        Shape::Binary(op, l, r, _) => {
            &&& shaped(*l)
            &&& shaped(*r)
            &&& left_of(binds(op), *l)
            &&& right_of(binds(op), *r)
        },
        Shape::Unary(_, x) => {
            &&& shaped(*x)
            &&& x.shape matches Shape::Binary(o, _, _, _) ==> binds(o) > sign_binds()
        },
        Shape::Percent(x) => shaped(*x) && !(x.shape is Binary) && !(x.shape is Unary),
        Shape::Paren(x) => shaped(*x),
        Shape::Func(_, args, _) => all_shaped(args) && !(args.len() == 1 && args[0].shape is Missing),
        Shape::Union(items) => all_shaped(items) && items.len() != 1,
        Shape::Array(rows) => rows_shaped(rows),
        _ => true,
    }
}

pub open spec fn all_shaped(s: Seq<Tree>) -> bool
    decreases s,
{
    s.len() == 0 || (all_shaped(s.drop_last()) && shaped(s.last()))
}

pub open spec fn rows_shaped(s: Seq<Seq<Tree>>) -> bool
    decreases s,
{
    s.len() == 0 || (rows_shaped(s.drop_last()) && all_shaped(s.last()))
}

/// How tightly the operator at `i` binds; zero where none stands.
spec fn next_rank(t: Seq<Tok>, i: int) -> int {
    let m = parser::mark_of(t, i);
    if m is Op {
        binds(m->Op_0)
    } else if lexer::opens(m) && parser::ws_of(t, i, false).len() > 0 {
        binds(BinOp::Intersect)
    } else {
        0
    }
}

/// What is known of an expression that was read up to `j`.
spec fn settled(t: Seq<Tok>, e: Tree, j: int) -> bool {
    shaped(e) && !(e.shape is Missing) && (ends_signed(e) ==> next_rank(t, j) < sign_binds())
}

spec fn at_least(e: Tree, min: int) -> bool {
    e.shape matches Shape::Binary(o, _, _, _) ==> binds(o) >= min
}

proof fn lemma_rank(op: BinOp)
    ensures
        parser::prec_of(op) == binds(op),
        1 <= binds(op) <= 8,
        parser::UNARY_PREC == sign_binds(),
{
}

/// White space behind an expression changes nothing of its shape.
proof fn lemma_trailed(e: Tree, ws: Seq<char>)
    ensures
        shaped(ast::with_trailing(e, ws)) == shaped(e),
        ends_signed(ast::with_trailing(e, ws)) == ends_signed(e),
        ast::with_trailing(e, ws).shape is Unary == e.shape is Unary,
        ast::with_trailing(e, ws).shape is Binary == e.shape is Binary,
        ast::with_trailing(e, ws).shape is Missing == e.shape is Missing,
        e.shape is Binary ==> ast::with_trailing(e, ws).shape->Binary_0 == e.shape->Binary_0,
    decreases e,
{
    let n = ast::with_trailing(e, ws);
    match e.shape {
        Shape::Binary(op, l, r, w) => {
            lemma_trailed(*r, ws);
            let q = ast::with_trailing(*r, ws);
            assert(n.shape == Shape::Binary(op, l, Box::new(q), w));
            assert(right_of(binds(op), q) == right_of(binds(op), *r));
            assert(shaped(e) == (shaped(*l) && shaped(*r) && left_of(binds(op), *l) && right_of(
                binds(op),
                *r,
            )));
            assert(shaped(n) == (shaped(*l) && shaped(q) && left_of(binds(op), *l) && right_of(
                binds(op),
                q,
            )));
        },
        Shape::Unary(op, x) => {
            lemma_trailed(*x, ws);
            let q = ast::with_trailing(*x, ws);
            assert(n.shape == Shape::Unary(op, Box::new(q)));
        },
        Shape::Union(items) => {
            if items.len() > 0 {
                lemma_trailed(items.last(), ws);
                let more = items.drop_last().push(ast::with_trailing(items.last(), ws));
                assert(more.drop_last() =~= items.drop_last());
                assert(more.last() == ast::with_trailing(items.last(), ws));
                assert(n.shape == Shape::Union(more));
                assert(all_shaped(more) == all_shaped(items));
            }
        },
        _ => {},
    }
}

proof fn lemma_trailed_shaped(e: Tree, ws: Seq<char>)
    ensures
        shaped(parser::trailed(e, ws)) == shaped(e),
        parser::trailed(e, ws).shape is Missing == e.shape is Missing,
{
    lemma_trailed(e, ws);
}

#[verifier::spinoff_prover]
proof fn lemma_expr(t: Seq<Tok>, i: int, dry: bool, min: u8, d: nat)
    requires
        1 <= min <= 9,
        0 <= i <= t.len(),
    ensures
        parser::expr(t, i, dry, min, d) matches Ok((e, j)) ==> settled(t, e, j) && at_least(
            e,
            min as int,
        ) && next_rank(t, j) < min && i < j <= t.len(),
    decreases parser::MAX_DEPTH - d, t.len() - i, 1int,
{
    if d < parser::MAX_DEPTH {
        lemma_unary(t, i, dry, d + 1);
        if let Ok((lhs, j)) = parser::unary(t, i, dry, d + 1) {
            lemma_climb(t, lhs, j, min, d + 1);
        }
    }
}

#[verifier::spinoff_prover]
#[verifier::rlimit(60)]
proof fn lemma_climb(t: Seq<Tok>, lhs: Tree, i: int, min: u8, d: nat)
    requires
        1 <= min <= 9,
        0 <= i <= t.len(),
        settled(t, lhs, i),
        at_least(lhs, min as int),
        lhs.shape matches Shape::Binary(o, _, _, _) ==> next_rank(t, i) <= binds(o),
    ensures
        parser::climb(t, lhs, i, min, d) matches Ok((e, j)) ==> settled(t, e, j) && at_least(
            e,
            min as int,
        ) && next_rank(t, j) < min && i <= j <= t.len(),
    decreases parser::MAX_DEPTH - d, t.len() - i, 2int,
{
    let m = parser::mark_of(t, i);
    let ws = parser::ws_of(t, i, false);
    if m is Op {
        lemma_rank(m->Op_0);
    }
    lemma_rank(BinOp::Intersect);
    if m is Op && parser::prec_of(m->Op_0) >= min {
        let p = (parser::prec_of(m->Op_0) + 1) as u8;
        lemma_expr(t, i + 1, false, p, d);
        if let Ok((rhs, k)) = parser::expr(t, i + 1, false, p, d) {
            if i < k <= t.len() {
                let e = ast::bare(Shape::Binary(m->Op_0, Box::new(lhs), Box::new(rhs), ws));
                assert(shaped(e));
                lemma_climb(t, e, k, min, d);
            }
        }
    } else if lexer::opens(m) && parser::prec_of(BinOp::Intersect) >= min && ws.len() > 0 {
        let p = (parser::prec_of(BinOp::Intersect) + 1) as u8;
        lemma_expr(t, i, true, p, d);
        if let Ok((rhs, k)) = parser::expr(t, i, true, p, d) {
            if i < k <= t.len() {
                let e = ast::bare(
                    Shape::Binary(BinOp::Intersect, Box::new(lhs), Box::new(rhs), ws),
                );
                assert(shaped(e));
                lemma_climb(t, e, k, min, d);
            }
        }
    }
}

#[verifier::spinoff_prover]
proof fn lemma_unary(t: Seq<Tok>, i: int, dry: bool, d: nat)
    requires
        0 <= i <= t.len(),
    ensures
        parser::unary(t, i, dry, d) matches Ok((e, j)) ==> settled(t, e, j) && !(e.shape is Binary)
            && i < j <= t.len(),
    decreases parser::MAX_DEPTH - d, t.len() - i, 1int,
{
    let m = parser::mark_of(t, i);
    if m == Mark::Op(BinOp::Sub) || m == Mark::Op(BinOp::Add) {
        lemma_expr(t, i + 1, false, parser::UNARY_PREC, d);
    } else {
        lemma_primary(t, i, dry, d);
        if let Ok((e, j)) = parser::primary(t, i, dry, d) {
            lemma_percents(t, e, j);
        }
    }
}

proof fn lemma_percents(t: Seq<Tok>, e: Tree, i: int)
    requires
        shaped(e),
        !(e.shape is Binary),
        !(e.shape is Unary),
        !(e.shape is Missing),
        0 <= i <= t.len(),
    ensures
        i <= parser::percents(t, e, i).1 <= t.len(),
        shaped(parser::percents(t, e, i).0),
        !(parser::percents(t, e, i).0.shape is Binary),
        !(parser::percents(t, e, i).0.shape is Unary),
        !(parser::percents(t, e, i).0.shape is Missing),
    decreases t.len() - i,
{
    if parser::mark_of(t, i) is Percent {
        let ws = parser::ws_of(t, i, false);
        lemma_trailed(e, ws);
        let f = ast::bare(Shape::Percent(Box::new(parser::trailed(e, ws))));
        lemma_percents(t, f, i + 1);
    }
}

#[verifier::spinoff_prover]
#[verifier::rlimit(60)]
proof fn lemma_primary(t: Seq<Tok>, i: int, dry: bool, d: nat)
    requires
        0 <= i <= t.len(),
    ensures
        parser::primary(t, i, dry, d) matches Ok((e, j)) ==> shaped(e) && !(e.shape is Binary)
            && !(e.shape is Unary) && !(e.shape is Missing) && i < j <= t.len(),
    decreases parser::MAX_DEPTH - d, t.len() - i, 0int,
{
    match parser::mark_of(t, i) {
        Mark::Name(name, call) => {
            if call {
                lemma_arg_list(t, parser::next(t, i + 1), d);
            }
        },
        Mark::LParen => lemma_paren_body(t, i + 1, Seq::empty(), d),
        Mark::LBrace => lemma_array_rows(t, i + 1, Seq::empty(), Seq::empty(), d),
        _ => {},
    }
}

proof fn lemma_pushed(s: Seq<Tree>, e: Tree)
    requires
        all_shaped(s),
        shaped(e),
    ensures
        all_shaped(s.push(e)),
{
    assert(s.push(e).drop_last() =~= s);
}

#[verifier::spinoff_prover]
#[verifier::rlimit(60)]
proof fn lemma_paren_body(t: Seq<Tok>, i: int, items: Seq<Tree>, d: nat)
    requires
        all_shaped(items),
        0 <= i <= t.len(),
    ensures
        parser::paren_body(t, i, items, d) matches Ok((e, j)) ==> shaped(e) && i < j <= t.len(),
    decreases parser::MAX_DEPTH - d, t.len() - i, 2int,
{
    lemma_expr(t, i, false, 1, d);
    if let Ok((e, j)) = parser::expr(t, i, false, 1, d) {
        let ws = parser::ws_of(t, j, false);
        lemma_trailed_shaped(e, ws);
        lemma_pushed(items, parser::trailed(e, ws));
        let list = items.push(parser::trailed(e, ws));
        if list.len() == 1 {
            assert(list[0] == list.last());
        }
        if i < j <= t.len() && parser::mark_of(t, j) is Comma {
            lemma_paren_body(t, j + 1, list, d);
        }
    }
}

proof fn lemma_arg_list(t: Seq<Tok>, i: int, d: nat)
    requires
        0 <= i <= t.len(),
    ensures
        parser::arg_list(t, i, d) matches Ok((args, j)) ==> all_shaped(args) && i <= j <= t.len()
            && !(args.len() == 1 && args[0].shape is Missing),
    decreases parser::MAX_DEPTH - d, t.len() - i, 3int,
{
    lemma_arguments(t, i, Seq::empty(), d);
}

#[verifier::spinoff_prover]
#[verifier::rlimit(60)]
proof fn lemma_arguments(t: Seq<Tok>, i: int, args: Seq<Tree>, d: nat)
    requires
        all_shaped(args),
        0 <= i <= t.len(),
    ensures
        parser::arguments(t, i, args, d) matches Ok((list, j)) ==> all_shaped(list) && i <= j
            <= t.len() && list.len() > args.len() && (list.len() == 1 && !(parser::mark_of(
            t,
            i,
        ) is RParen) ==> !(list[0].shape is Missing)),
    decreases parser::MAX_DEPTH - d, t.len() - i, 2int,
{
    let left_out = parser::mark_of(t, i) is Comma || parser::mark_of(t, i) is RParen;
    if left_out {
        let e = Tree {
            shape: Shape::Missing,
            before: parser::ws_of(t, i, false),
            after: Seq::empty(),
        };
        lemma_pushed(args, e);
        if i <= t.len() && parser::mark_of(t, i) is Comma {
            lemma_arguments(t, i + 1, args.push(e), d);
        }
    } else {
        lemma_expr(t, i, false, 1, d);
        if let Ok((x, j)) = parser::expr(t, i, false, 1, d) {
            let ws = parser::ws_of(t, j, false);
            lemma_trailed_shaped(x, ws);
            let e = parser::trailed(x, ws);
            lemma_pushed(args, e);
            if i <= j <= t.len() && parser::mark_of(t, j) is Comma {
                lemma_arguments(t, j + 1, args.push(e), d);
            }
        }
    }
}

#[verifier::spinoff_prover]
#[verifier::rlimit(60)]
proof fn lemma_array_rows(t: Seq<Tok>, i: int, rows: Seq<Seq<Tree>>, row: Seq<Tree>, d: nat)
    requires
        rows_shaped(rows),
        all_shaped(row),
        0 <= i <= t.len(),
    ensures
        parser::array_rows(t, i, rows, row, d) matches Ok((list, j)) ==> rows_shaped(list) && i < j
            <= t.len(),
    decreases parser::MAX_DEPTH - d, t.len() - i, 2int,
{
    lemma_expr(t, i, false, 1, d);
    if let Ok((e, j)) = parser::expr(t, i, false, 1, d) {
        let ws = parser::ws_of(t, j, false);
        lemma_trailed_shaped(e, ws);
        lemma_pushed(row, parser::trailed(e, ws));
        let list = row.push(parser::trailed(e, ws));
        assert(rows.push(list).drop_last() =~= rows);
        if i < j <= t.len() {
            match parser::mark_of(t, j) {
                Mark::Comma => lemma_array_rows(t, j + 1, rows, list, d),
                Mark::Semi => lemma_array_rows(t, j + 1, rows.push(list), Seq::empty(), d),
                _ => {},
            }
        }
    }
}

/// In the tree of a formula every operator has operands that bind tighter than
/// it, and operators of one rank are read from the left: `1-2-3` is `(1-2)-3`,
/// `2+3*4` is `2+(3*4)`, `-2^2` is `(-2)^2`, `-A1:B2` is `-(A1:B2)`, and `%`
/// belongs to the operand before it.
pub proof fn lemma_operators_bind(s: Seq<char>)
    ensures
        parser::parsed(s) matches Ok(e) ==> shaped(e),
{
    if let Ok(t) = lexer::tokens(s, 0) {
        lemma_expr(t, 0, false, 1, 0);
        if let Ok((e, j)) = parser::expr(t, 0, false, 1, 0) {
            lemma_trailed_shaped(e, parser::ws_of(t, j, false));
        }
    }
}

/// An operand that is one token is what the token is, with the white space
/// before it.
pub proof fn lemma_operand_is_its_token(t: Seq<Tok>, i: int, d: nat)
    requires
        0 <= i < t.len(),
    ensures
        match t[i].mark {
            Mark::Num(raw) => operand(t, i, d, Shape::Num(raw)),
            Mark::Str(x) => operand(t, i, d, Shape::Str(x)),
            Mark::Bool(b) => operand(t, i, d, Shape::Bool(b)),
            Mark::Error(x) => operand(t, i, d, Shape::Error(x)),
            Mark::Ref(r) => operand(t, i, d, Shape::Ref(r)),
            Mark::Name(n, call) => call || operand(t, i, d, Shape::Name(n)),
            _ => true,
        },
{
}

/// The operand that begins at `i` is this, without white space behind it, and
/// takes one token.
pub open spec fn operand(t: Seq<Tok>, i: int, d: nat, shape: Shape) -> bool {
    parser::primary(t, i, false, d) == Ok::<(Tree, int), crate::error::Error>(
        (Tree { shape, before: t[i].ws, after: Seq::empty() }, i + 1),
    )
}

/// A minus sign before an operand negates it, and a plus sign leaves it.
pub proof fn lemma_sign_is_kept(t: Seq<Tok>, i: int, d: nat)
    requires
        0 <= i < t.len(),
        t[i].mark == Mark::Op(BinOp::Sub) || t[i].mark == Mark::Op(BinOp::Add),
    ensures
        parser::unary(t, i, false, d) matches Ok((e, j)) ==> e.shape is Unary && (
        e.shape->Unary_0 == UnaryOp::Neg <==> t[i].mark == Mark::Op(BinOp::Sub)),
{
}

} // verus!
