//! What setting the white space around a formula does to its text.
use vstd::prelude::*;

use crate::formula::ast;
use crate::formula::ast::{BinOp, Shape, Tree};
use crate::formula::lexer;
use crate::formula::lexer::{Mark, Tok};
use crate::formula::parser;
use crate::formula::print;
use crate::formula::ref_laws;
use crate::formula::refs;
use crate::text;

verus! {

/// White space stands at the innermost nodes: none before or behind an operator
/// with two operands or a list of ranges, none before `%` and what it belongs to,
/// none behind a sign and what it belongs to.
pub open spec fn tidy(t: Tree) -> bool
    decreases t,
{
    match t.shape {
        Shape::Binary(op, l, r, w) => t.before.len() == 0 && t.after.len() == 0 && tidy(*l)
            && tidy(*r),
        Shape::Unary(op, x) => t.after.len() == 0 && tidy(*x),
        Shape::Percent(x) => t.before.len() == 0 && tidy(*x),
        Shape::Union(items) => all_tidy(items) && (items.len() > 0 ==> t.before.len() == 0
            && t.after.len() == 0),
        Shape::Paren(x) => tidy(*x),
        Shape::Func(_, args, _) => all_tidy(args),
        Shape::Array(rows) => rows_tidy(rows),
        _ => true,
    }
}

pub open spec fn all_tidy(s: Seq<Tree>) -> bool
    decreases s,
{
    s.len() == 0 || (all_tidy(s.drop_last()) && tidy(s.last()))
}

pub open spec fn rows_tidy(s: Seq<Seq<Tree>>) -> bool
    decreases s,
{
    s.len() == 0 || (rows_tidy(s.drop_last()) && all_tidy(s.last()))
}

proof fn lemma_first_tidy(s: Seq<Tree>)
    requires
        all_tidy(s),
        s.len() > 0,
    ensures
        tidy(s[0]),
    decreases s.len(),
{
    if s.len() > 1 {
        lemma_first_tidy(s.drop_last());
        assert(s.drop_last()[0] == s[0]);
    }
}

proof fn lemma_first_changed(s: Seq<Tree>, a: Tree)
    requires
        all_tidy(s),
        s.len() > 0,
        tidy(a),
    ensures
        all_tidy(s.update(0, a)),
    decreases s.len(),
{
    let u = s.update(0, a);
    if s.len() > 1 {
        lemma_first_changed(s.drop_last(), a);
        assert(u.drop_last() =~= s.drop_last().update(0, a));
        assert(u.last() == s.last());
    } else {
        assert(u.drop_last() =~= Seq::<Tree>::empty());
        assert(all_tidy(u.drop_last()));
        assert(u.last() == a);
    }
}

proof fn lemma_pushed(s: Seq<Tree>, e: Tree)
    requires
        all_tidy(s),
        tidy(e),
    ensures
        all_tidy(s.push(e)),
{
    assert(s.push(e).drop_last() =~= s);
}

proof fn lemma_joined_first(s: Seq<Tree>, a: Tree)
    requires
        s.len() > 0,
    ensures
        print::joined(s.update(0, a)) == print::shown(a) + print::joined(
            s.update(0, ast::bare(Shape::Missing)),
        ),
    decreases s.len(),
{
    let none = ast::bare(Shape::Missing);
    let u = s.update(0, a);
    let v = s.update(0, none);
    assert(print::shown(none) =~= Seq::<char>::empty());
    if s.len() == 1 {
        assert(u.last() == a);
        assert(v.last() == none);
    } else {
        lemma_joined_first(s.drop_last(), a);
        assert(u.drop_last() =~= s.drop_last().update(0, a));
        assert(v.drop_last() =~= s.drop_last().update(0, none));
        assert(u.last() == v.last());
    }
    assert(print::joined(u) =~= print::shown(a) + print::joined(v));
}

proof fn lemma_leading_twice(t: Tree, v: Seq<char>, ws: Seq<char>)
    ensures
        ast::with_leading(ast::with_leading(t, v), ws) == ast::with_leading(t, ws),
    decreases t,
{
    let u = ast::with_leading(t, v);
    match t.shape {
        Shape::Binary(op, l, r, w) => {
            lemma_leading_twice(*l, v, ws);
            assert(u.shape == Shape::Binary(op, Box::new(ast::with_leading(*l, v)), r, w));
        },
        Shape::Percent(x) => {
            lemma_leading_twice(*x, v, ws);
            assert(u.shape == Shape::Percent(Box::new(ast::with_leading(*x, v))));
        },
        Shape::Union(items) => {
            if items.len() > 0 {
                lemma_leading_twice(items[0], v, ws);
                let a = items.update(0, ast::with_leading(items[0], v));
                assert(u.shape == Shape::Union(a));
                assert(a[0] == ast::with_leading(items[0], v));
                assert(a.update(0, ast::with_leading(a[0], ws)) =~= items.update(
                    0,
                    ast::with_leading(items[0], ws),
                ));
            }
        },
        _ => {},
    }
}

/// Setting the white space before a formula sets what its text begins with, and
/// nothing else; what was set before is gone.
pub proof fn lemma_leading_space_is_set(t: Tree, ws: Seq<char>)
    requires
        tidy(t),
    ensures
        tidy(ast::with_leading(t, ws)),
        print::shown(ast::with_leading(t, ws)) == ws + print::shown(
            ast::with_leading(t, Seq::empty()),
        ),
        forall|v: Seq<char>| #[trigger]
            ast::with_leading(ast::with_leading(t, v), ws) == ast::with_leading(t, ws),
    decreases t,
{
    let none = Seq::<char>::empty();
    let u = ast::with_leading(t, ws);
    let v = ast::with_leading(t, none);
    match t.shape {
        Shape::Binary(op, l, r, w) => {
            lemma_leading_space_is_set(*l, ws);
            lemma_leading_space_is_set(*l, none);
        },
        Shape::Percent(x) => {
            lemma_leading_space_is_set(*x, ws);
            lemma_leading_space_is_set(*x, none);
        },
        Shape::Union(items) => {
            if items.len() > 0 {
                lemma_first_tidy(items);
                lemma_leading_space_is_set(items[0], ws);
                lemma_leading_space_is_set(items[0], none);
                lemma_joined_first(items, ast::with_leading(items[0], ws));
                lemma_joined_first(items, ast::with_leading(items[0], none));
                lemma_first_changed(items, ast::with_leading(items[0], ws));
                if items.len() == 1 {
                    assert(items.last() == items[0]);
                }
            }
        },
        _ => {},
    }
    assert(print::shown(u) =~= ws + print::shown(v));
    assert forall|x: Seq<char>| #[trigger]
        ast::with_leading(ast::with_leading(t, x), ws) == ast::with_leading(t, ws) by {
        lemma_leading_twice(t, x, ws);
    }
}

proof fn lemma_trailing_twice(t: Tree, v: Seq<char>, ws: Seq<char>)
    ensures
        ast::with_trailing(ast::with_trailing(t, v), ws) == ast::with_trailing(t, ws),
    decreases t,
{
    let u = ast::with_trailing(t, v);
    match t.shape {
        Shape::Binary(op, l, r, w) => {
            lemma_trailing_twice(*r, v, ws);
            assert(u.shape == Shape::Binary(op, l, Box::new(ast::with_trailing(*r, v)), w));
        },
        Shape::Unary(op, x) => {
            lemma_trailing_twice(*x, v, ws);
            assert(u.shape == Shape::Unary(op, Box::new(ast::with_trailing(*x, v))));
        },
        Shape::Union(items) => {
            if items.len() > 0 {
                let n = items.last();
                lemma_trailing_twice(n, v, ws);
                let a = items.drop_last().push(ast::with_trailing(n, v));
                assert(u.shape == Shape::Union(a));
                assert(a.last() == ast::with_trailing(n, v));
                assert(a.drop_last() =~= items.drop_last());
            }
        },
        _ => {},
    }
}

/// Setting the white space behind a formula sets what its text ends with, and
/// nothing else; what was set before is gone.
pub proof fn lemma_trailing_space_is_set(t: Tree, ws: Seq<char>)
    requires
        tidy(t),
    ensures
        tidy(ast::with_trailing(t, ws)),
        print::shown(ast::with_trailing(t, ws)) == print::shown(
            ast::with_trailing(t, Seq::empty()),
        ) + ws,
        forall|v: Seq<char>| #[trigger]
            ast::with_trailing(ast::with_trailing(t, v), ws) == ast::with_trailing(t, ws),
    decreases t,
{
    let none = Seq::<char>::empty();
    let u = ast::with_trailing(t, ws);
    let v = ast::with_trailing(t, none);
    match t.shape {
        Shape::Binary(op, l, r, w) => {
            lemma_trailing_space_is_set(*r, ws);
            lemma_trailing_space_is_set(*r, none);
            let x = print::shown(*l) + w + op.spelling();
            assert(print::shown(u) =~= x + print::shown(ast::with_trailing(*r, ws)));
            assert(print::shown(v) =~= x + print::shown(ast::with_trailing(*r, none)));
        },
        Shape::Unary(op, x) => {
            lemma_trailing_space_is_set(*x, ws);
            lemma_trailing_space_is_set(*x, none);
            let y = t.before + print::unary_text(op);
            assert(print::shown(u) =~= y + print::shown(ast::with_trailing(*x, ws)));
            assert(print::shown(v) =~= y + print::shown(ast::with_trailing(*x, none)));
        },
        Shape::Union(items) => {
            if items.len() > 0 {
                let n = items.last();
                assert(all_tidy(items));
                assert(all_tidy(items.drop_last()) && tidy(n));
                lemma_trailing_space_is_set(n, ws);
                lemma_trailing_space_is_set(n, none);
                let a = items.drop_last().push(ast::with_trailing(n, ws));
                let b = items.drop_last().push(ast::with_trailing(n, none));
                lemma_pushed(items.drop_last(), ast::with_trailing(n, ws));
                assert(a.drop_last() =~= items.drop_last());
                assert(b.drop_last() =~= items.drop_last());
                assert(print::shown(u) =~= print::joined(a));
                assert(print::shown(v) =~= print::joined(b));
                if items.len() == 1 {
                    assert(items[0] == n);
                } else {
                    assert(a[0] == items[0]);
                    assert(print::joined(a) == print::joined(items.drop_last()) + seq![',']
                        + print::shown(ast::with_trailing(n, ws)));
                    assert(print::joined(b) == print::joined(items.drop_last()) + seq![',']
                        + print::shown(ast::with_trailing(n, none)));
                }
            }
        },
        _ => {},
    }
    assert(print::shown(u) =~= print::shown(v) + ws);
    assert forall|x: Seq<char>| #[trigger]
        ast::with_trailing(ast::with_trailing(t, x), ws) == ast::with_trailing(t, ws) by {
        lemma_trailing_twice(t, x, ws);
    }
}

proof fn lemma_trailed(e: Tree, ws: Seq<char>)
    requires
        tidy(e),
    ensures
        tidy(parser::trailed(e, ws)),
{
    lemma_trailing_space_is_set(e, ws);
}

#[verifier::spinoff_prover]
proof fn lemma_expr(t: Seq<Tok>, i: int, dry: bool, min: u8, d: nat)
    requires
        0 <= i <= t.len(),
    ensures
        parser::expr(t, i, dry, min, d) matches Ok((e, j)) ==> tidy(e) && i < j <= t.len(),
    decreases parser::MAX_DEPTH - d, t.len() - i, 1int,
{
    if d < parser::MAX_DEPTH {
        lemma_unary(t, i, dry, d + 1);
        if let Ok((lhs, j)) = parser::unary(t, i, dry, d + 1) {
            lemma_climb(t, lhs, j, min, d + 1);
        }
    }
}

#[verifier::spinoff_prover]
#[verifier::rlimit(60)]
proof fn lemma_climb(t: Seq<Tok>, lhs: Tree, i: int, min: u8, d: nat)
    requires
        0 <= i <= t.len(),
        tidy(lhs),
    ensures
        parser::climb(t, lhs, i, min, d) matches Ok((e, j)) ==> tidy(e) && i <= j <= t.len(),
    decreases parser::MAX_DEPTH - d, t.len() - i, 2int,
{
    let m = parser::mark_of(t, i);
    let ws = parser::ws_of(t, i, false);
    if m is Op && parser::prec_of(m->Op_0) >= min {
        let p = (parser::prec_of(m->Op_0) + 1) as u8;
        lemma_expr(t, i + 1, false, p, d);
        if let Ok((rhs, k)) = parser::expr(t, i + 1, false, p, d) {
            if i < k <= t.len() {
                let e = ast::bare(Shape::Binary(m->Op_0, Box::new(lhs), Box::new(rhs), ws));
                assert(tidy(e));
                lemma_climb(t, e, k, min, d);
            }
        }
    } else if lexer::opens(m) && parser::prec_of(BinOp::Intersect) >= min && ws.len() > 0 {
        let p = (parser::prec_of(BinOp::Intersect) + 1) as u8;
        lemma_expr(t, i, true, p, d);
        if let Ok((rhs, k)) = parser::expr(t, i, true, p, d) {
            if i < k <= t.len() {
                let e = ast::bare(
                    Shape::Binary(BinOp::Intersect, Box::new(lhs), Box::new(rhs), ws),
                );
                assert(tidy(e));
                lemma_climb(t, e, k, min, d);
            }
        }
    }
}

#[verifier::spinoff_prover]
proof fn lemma_unary(t: Seq<Tok>, i: int, dry: bool, d: nat)
    requires
        0 <= i <= t.len(),
    ensures
        parser::unary(t, i, dry, d) matches Ok((e, j)) ==> tidy(e) && i < j <= t.len(),
    decreases parser::MAX_DEPTH - d, t.len() - i, 1int,
{
    let m = parser::mark_of(t, i);
    if m == Mark::Op(BinOp::Sub) || m == Mark::Op(BinOp::Add) {
        lemma_expr(t, i + 1, false, parser::UNARY_PREC, d);
    } else {
        lemma_primary(t, i, dry, d);
        if let Ok((e, j)) = parser::primary(t, i, dry, d) {
            lemma_percents(t, e, j);
        }
    }
}

proof fn lemma_percents(t: Seq<Tok>, e: Tree, i: int)
    requires
        tidy(e),
        0 <= i <= t.len(),
    ensures
        i <= parser::percents(t, e, i).1 <= t.len(),
        tidy(parser::percents(t, e, i).0),
    decreases t.len() - i,
{
    if parser::mark_of(t, i) is Percent {
        let ws = parser::ws_of(t, i, false);
        lemma_trailed(e, ws);
        let f = ast::bare(Shape::Percent(Box::new(parser::trailed(e, ws))));
        assert(tidy(f));
        lemma_percents(t, f, i + 1);
    }
}

#[verifier::spinoff_prover]
#[verifier::rlimit(60)]
proof fn lemma_primary(t: Seq<Tok>, i: int, dry: bool, d: nat)
    requires
        0 <= i <= t.len(),
    ensures
        parser::primary(t, i, dry, d) matches Ok((e, j)) ==> tidy(e) && i < j <= t.len(),
    decreases parser::MAX_DEPTH - d, t.len() - i, 0int,
{
    match parser::mark_of(t, i) {
        Mark::Name(name, call) => {
            if call {
                lemma_arg_list(t, parser::next(t, i + 1), d);
            }
        },
        Mark::LParen => lemma_paren_body(t, i + 1, Seq::empty(), d),
        Mark::LBrace => lemma_array_rows(t, i + 1, Seq::empty(), Seq::empty(), d),
        _ => {},
    }
}

#[verifier::spinoff_prover]
#[verifier::rlimit(60)]
proof fn lemma_paren_body(t: Seq<Tok>, i: int, items: Seq<Tree>, d: nat)
    requires
        all_tidy(items),
        0 <= i <= t.len(),
    ensures
        parser::paren_body(t, i, items, d) matches Ok((e, j)) ==> tidy(e) && i < j <= t.len(),
    decreases parser::MAX_DEPTH - d, t.len() - i, 2int,
{
    lemma_expr(t, i, false, 1, d);
    if let Ok((e, j)) = parser::expr(t, i, false, 1, d) {
        let ws = parser::ws_of(t, j, false);
        lemma_trailed(e, ws);
        lemma_pushed(items, parser::trailed(e, ws));
        let list = items.push(parser::trailed(e, ws));
        if list.len() == 1 {
            assert(list[0] == list.last());
        }
        if i < j <= t.len() && parser::mark_of(t, j) is Comma {
            lemma_paren_body(t, j + 1, list, d);
        }
    }
}

proof fn lemma_arg_list(t: Seq<Tok>, i: int, d: nat)
    requires
        0 <= i <= t.len(),
    ensures
        parser::arg_list(t, i, d) matches Ok((args, j)) ==> all_tidy(args) && i <= j <= t.len(),
    decreases parser::MAX_DEPTH - d, t.len() - i, 3int,
{
    lemma_arguments(t, i, Seq::empty(), d);
}

#[verifier::spinoff_prover]
#[verifier::rlimit(60)]
proof fn lemma_arguments(t: Seq<Tok>, i: int, args: Seq<Tree>, d: nat)
    requires
        all_tidy(args),
        0 <= i <= t.len(),
    ensures
        parser::arguments(t, i, args, d) matches Ok((list, j)) ==> all_tidy(list) && i <= j
            <= t.len(),
    decreases parser::MAX_DEPTH - d, t.len() - i, 2int,
{
    let left_out = parser::mark_of(t, i) is Comma || parser::mark_of(t, i) is RParen;
    if left_out {
        let e = Tree {
            shape: Shape::Missing,
            before: parser::ws_of(t, i, false),
            after: Seq::empty(),
        };
        lemma_pushed(args, e);
        if i <= t.len() && parser::mark_of(t, i) is Comma {
            lemma_arguments(t, i + 1, args.push(e), d);
        }
    } else {
        lemma_expr(t, i, false, 1, d);
        if let Ok((x, j)) = parser::expr(t, i, false, 1, d) {
            let ws = parser::ws_of(t, j, false);
            lemma_trailed(x, ws);
            let e = parser::trailed(x, ws);
            lemma_pushed(args, e);
            if i <= j <= t.len() && parser::mark_of(t, j) is Comma {
                lemma_arguments(t, j + 1, args.push(e), d);
            }
        }
    }
}

#[verifier::spinoff_prover]
#[verifier::rlimit(60)]
proof fn lemma_array_rows(t: Seq<Tok>, i: int, rows: Seq<Seq<Tree>>, row: Seq<Tree>, d: nat)
    requires
        rows_tidy(rows),
        all_tidy(row),
        0 <= i <= t.len(),
    ensures
        parser::array_rows(t, i, rows, row, d) matches Ok((list, j)) ==> rows_tidy(list) && i < j
            <= t.len(),
    decreases parser::MAX_DEPTH - d, t.len() - i, 2int,
{
    lemma_expr(t, i, false, 1, d);
    if let Ok((e, j)) = parser::expr(t, i, false, 1, d) {
        let ws = parser::ws_of(t, j, false);
        lemma_trailed(e, ws);
        lemma_pushed(row, parser::trailed(e, ws));
        let list = row.push(parser::trailed(e, ws));
        assert(rows.push(list).drop_last() =~= rows);
        if i < j <= t.len() {
            match parser::mark_of(t, j) {
                Mark::Comma => lemma_array_rows(t, j + 1, rows, list, d),
                Mark::Semi => lemma_array_rows(t, j + 1, rows.push(list), Seq::empty(), d),
                _ => {},
            }
        }
    }
}

/// In the tree of a formula that was read white space stands at the innermost
/// nodes, so setting it before or behind the formula replaces what was there.
pub proof fn lemma_read_trees_are_tidy(s: Seq<char>)
    ensures
        parser::parsed(s) matches Ok(e) ==> tidy(e),
{
    if let Ok(t) = lexer::tokens(s, 0) {
        lemma_expr(t, 0, false, 1, 0);
        if let Ok((e, j)) = parser::expr(t, 0, false, 1, 0) {
            lemma_trailed(e, parser::ws_of(t, j, false));
        }
    }
}

/// The number of an outside workbook is what stands in brackets, in decimal; a
/// plus sign may stand before it.
pub proof fn lemma_book_number_reads_back(n: u32)
    ensures
        refs::bracketed_number(seq!['['] + text::decimal(n as nat) + seq![']']) == Some(n),
        refs::bracketed_number(seq!['[', '+'] + text::decimal(n as nat) + seq![']']) == Some(n),
{
    let t = text::decimal(n as nat);
    ref_laws::lemma_decimal(n as nat);
    assert(text::is_digit(t[0]));
    let a = seq!['['] + t + seq![']'];
    let b = seq!['[', '+'] + t + seq![']'];
    assert(a.subrange(1, a.len() - 1) =~= t);
    assert(b.subrange(1, b.len() - 1) =~= seq!['+'] + t);
    assert((seq!['+'] + t).skip(1) =~= t);
}

/// Where there is a number, nothing but its digits, the brackets and at most one
/// plus sign stand there.
pub proof fn lemma_book_number_is_all(s: Seq<char>)
    ensures
        refs::bracketed_number(s) matches Some(n) ==> exists|d: Seq<char>|
            d.len() > 0 && refs::all_digits(d) && #[trigger] refs::digits_value(d) == n && (s == seq![
                '[',
            ] + d + seq![']'] || s == seq!['[', '+'] + d + seq![']']),
{
    if let Some(n) = refs::bracketed_number(s) {
        let m = s.subrange(1, s.len() - 1);
        if m.len() > 0 && m[0] == '+' {
            let d = m.skip(1);
            assert(s =~= seq!['[', '+'] + d + seq![']']);
            assert(refs::digits_value(d) == n);
        } else {
            assert(s =~= seq!['['] + m + seq![']']);
            assert(refs::digits_value(m) == n);
        }
    }
}

} // verus!
