//! What the tree of a formula depends on: the tokens and their white space, and
//! not the places at which they stand.
use vstd::prelude::*;

use crate::formula::ast;
use crate::formula::lexer;
use crate::formula::parser;

verus! {

/// The same tokens with the same white space, wherever they stand.
pub open spec fn same(t: Seq<lexer::Tok>, u: Seq<lexer::Tok>) -> bool {
    &&& t.len() == u.len()
    &&& forall|k: int| #![trigger t[k]] #![trigger u[k]]
        0 <= k < t.len() ==> t[k].mark == u[k].mark && t[k].ws == u[k].ws
}

proof fn lemma_same_at(t: Seq<lexer::Tok>, u: Seq<lexer::Tok>, i: int)
    requires
        same(t, u),
    ensures
        parser::mark_of(t, i) == parser::mark_of(u, i),
        forall|dry: bool| #[trigger] parser::ws_of(t, i, dry) == parser::ws_of(u, i, dry),
        parser::next(t, i) == parser::next(u, i),
{
    if 0 <= i < t.len() {
        assert(t[i].mark == u[i].mark);
    }
}

#[verifier::spinoff_prover]
proof fn lemma_same_expr(
    t: Seq<lexer::Tok>,
    u: Seq<lexer::Tok>,
    i: int,
    dry: bool,
    min: u8,
    d: nat,
)
    requires
        same(t, u),
    ensures
        parser::expr(t, i, dry, min, d) is Ok ==> parser::expr(u, i, dry, min, d) == parser::expr(
            t,
            i,
            dry,
            min,
            d,
        ),
    decreases parser::MAX_DEPTH - d, t.len() - i, 1int,
{
    if d < parser::MAX_DEPTH {
        lemma_same_unary(t, u, i, dry, d + 1);
        if let Ok((lhs, j)) = parser::unary(t, i, dry, d + 1) {
            lemma_same_climb(t, u, lhs, j, min, d + 1);
        }
    }
}

#[verifier::spinoff_prover]
#[verifier::rlimit(60)]
proof fn lemma_same_climb(
    t: Seq<lexer::Tok>,
    u: Seq<lexer::Tok>,
    lhs: ast::Tree,
    i: int,
    min: u8,
    d: nat,
)
    requires
        same(t, u),
    ensures
        parser::climb(t, lhs, i, min, d) is Ok ==> parser::climb(u, lhs, i, min, d)
            == parser::climb(t, lhs, i, min, d),
    decreases parser::MAX_DEPTH - d, t.len() - i, 2int,
{
    lemma_same_at(t, u, i);
    let m = parser::mark_of(t, i);
    let ws = parser::ws_of(t, i, false);
    if m is Op && parser::prec_of(m->Op_0) >= min {
        let p = (parser::prec_of(m->Op_0) + 1) as u8;
        lemma_same_expr(t, u, i + 1, false, p, d);
        if let Ok((rhs, k)) = parser::expr(t, i + 1, false, p, d) {
            if i < k <= t.len() {
                let e = ast::bare(
                    ast::Shape::Binary(m->Op_0, Box::new(lhs), Box::new(rhs), ws),
                );
                lemma_same_climb(t, u, e, k, min, d);
            }
        }
    } else if lexer::opens(m) && parser::prec_of(ast::BinOp::Intersect) >= min && ws.len() > 0 {
        let p = (parser::prec_of(ast::BinOp::Intersect) + 1) as u8;
        lemma_same_expr(t, u, i, true, p, d);
        if let Ok((rhs, k)) = parser::expr(t, i, true, p, d) {
            if i < k <= t.len() {
                let e = ast::bare(
                    ast::Shape::Binary(ast::BinOp::Intersect, Box::new(lhs), Box::new(rhs), ws),
                );
                lemma_same_climb(t, u, e, k, min, d);
            }
        }
    }
}

#[verifier::spinoff_prover]
proof fn lemma_same_unary(t: Seq<lexer::Tok>, u: Seq<lexer::Tok>, i: int, dry: bool, d: nat)
    requires
        same(t, u),
    ensures
        parser::unary(t, i, dry, d) is Ok ==> parser::unary(u, i, dry, d) == parser::unary(
            t,
            i,
            dry,
            d,
        ),
    decreases parser::MAX_DEPTH - d, t.len() - i, 1int,
{
    lemma_same_at(t, u, i);
    let m = parser::mark_of(t, i);
    if m == lexer::Mark::Op(ast::BinOp::Sub) || m == lexer::Mark::Op(ast::BinOp::Add) {
        lemma_same_expr(t, u, i + 1, false, parser::UNARY_PREC, d);
    } else {
        lemma_same_primary(t, u, i, dry, d);
        if let Ok((e, j)) = parser::primary(t, i, dry, d) {
            lemma_same_percents(t, u, e, j);
        }
    }
}

proof fn lemma_same_percents(t: Seq<lexer::Tok>, u: Seq<lexer::Tok>, e: ast::Tree, i: int)
    requires
        same(t, u),
    ensures
        parser::percents(u, e, i) == parser::percents(t, e, i),
    decreases t.len() - i,
{
    lemma_same_at(t, u, i);
    if parser::mark_of(t, i) is Percent {
        let f = ast::bare(
            ast::Shape::Percent(Box::new(parser::trailed(e, parser::ws_of(t, i, false)))),
        );
        lemma_same_percents(t, u, f, i + 1);
    }
}

#[verifier::spinoff_prover]
#[verifier::rlimit(60)]
proof fn lemma_same_primary(t: Seq<lexer::Tok>, u: Seq<lexer::Tok>, i: int, dry: bool, d: nat)
    requires
        same(t, u),
    ensures
        parser::primary(t, i, dry, d) is Ok ==> parser::primary(u, i, dry, d) == parser::primary(
            t,
            i,
            dry,
            d,
        ),
    decreases parser::MAX_DEPTH - d, t.len() - i, 0int,
{
    lemma_same_at(t, u, i);
    match parser::mark_of(t, i) {
        lexer::Mark::Name(name, call) => {
            if call {
                lemma_same_at(t, u, i + 1);
                let a = parser::next(t, i + 1);
                lemma_same_arg_list(t, u, a, d);
                if let Ok((args, j)) = parser::arg_list(t, a, d) {
                    lemma_same_at(t, u, j);
                }
            }
        },
        lexer::Mark::LParen => lemma_same_paren_body(t, u, i + 1, Seq::empty(), d),
        lexer::Mark::LBrace => lemma_same_array_rows(t, u, i + 1, Seq::empty(), Seq::empty(), d),
        _ => {},
    }
}

#[verifier::spinoff_prover]
#[verifier::rlimit(60)]
proof fn lemma_same_paren_body(
    t: Seq<lexer::Tok>,
    u: Seq<lexer::Tok>,
    i: int,
    items: Seq<ast::Tree>,
    d: nat,
)
    requires
        same(t, u),
    ensures
        parser::paren_body(t, i, items, d) is Ok ==> parser::paren_body(u, i, items, d)
            == parser::paren_body(t, i, items, d),
    decreases parser::MAX_DEPTH - d, t.len() - i, 2int,
{
    lemma_same_expr(t, u, i, false, 1, d);
    if let Ok((e, j)) = parser::expr(t, i, false, 1, d) {
        lemma_same_at(t, u, j);
        let list = items.push(parser::trailed(e, parser::ws_of(t, j, false)));
        if i < j <= t.len() && parser::mark_of(t, j) is Comma {
            lemma_same_paren_body(t, u, j + 1, list, d);
        }
    }
}

proof fn lemma_same_arg_list(t: Seq<lexer::Tok>, u: Seq<lexer::Tok>, i: int, d: nat)
    requires
        same(t, u),
    ensures
        parser::arg_list(t, i, d) is Ok ==> parser::arg_list(u, i, d) == parser::arg_list(t, i, d),
    decreases parser::MAX_DEPTH - d, t.len() - i, 3int,
{
    lemma_same_at(t, u, i);
    lemma_same_arguments(t, u, i, Seq::empty(), d);
}

#[verifier::spinoff_prover]
#[verifier::rlimit(60)]
proof fn lemma_same_arguments(
    t: Seq<lexer::Tok>,
    u: Seq<lexer::Tok>,
    i: int,
    args: Seq<ast::Tree>,
    d: nat,
)
    requires
        same(t, u),
    ensures
        parser::arguments(t, i, args, d) is Ok ==> parser::arguments(u, i, args, d)
            == parser::arguments(t, i, args, d),
    decreases parser::MAX_DEPTH - d, t.len() - i, 2int,
{
    lemma_same_at(t, u, i);
    let left_out = parser::mark_of(t, i) is Comma || parser::mark_of(t, i) is RParen;
    if left_out {
        let e = ast::Tree {
            shape: ast::Shape::Missing,
            before: parser::ws_of(t, i, false),
            after: Seq::empty(),
        };
        if i <= t.len() && parser::mark_of(t, i) is Comma {
            lemma_same_arguments(t, u, i + 1, args.push(e), d);
        }
    } else {
        lemma_same_expr(t, u, i, false, 1, d);
        if let Ok((x, j)) = parser::expr(t, i, false, 1, d) {
            lemma_same_at(t, u, j);
            let e = parser::trailed(x, parser::ws_of(t, j, false));
            if i <= j <= t.len() && parser::mark_of(t, j) is Comma {
                lemma_same_arguments(t, u, j + 1, args.push(e), d);
            }
        }
    }
}

#[verifier::spinoff_prover]
#[verifier::rlimit(60)]
proof fn lemma_same_array_rows(
    t: Seq<lexer::Tok>,
    u: Seq<lexer::Tok>,
    i: int,
    rows: Seq<Seq<ast::Tree>>,
    row: Seq<ast::Tree>,
    d: nat,
)
    requires
        same(t, u),
    ensures
        parser::array_rows(t, i, rows, row, d) is Ok ==> parser::array_rows(u, i, rows, row, d)
            == parser::array_rows(t, i, rows, row, d),
    decreases parser::MAX_DEPTH - d, t.len() - i, 2int,
{
    lemma_same_expr(t, u, i, false, 1, d);
    if let Ok((e, j)) = parser::expr(t, i, false, 1, d) {
        lemma_same_at(t, u, j);
        let list = row.push(parser::trailed(e, parser::ws_of(t, j, false)));
        if i < j <= t.len() {
            match parser::mark_of(t, j) {
                lexer::Mark::Comma => lemma_same_array_rows(t, u, j + 1, rows, list, d),
                lexer::Mark::Semi => {
                    lemma_same_array_rows(t, u, j + 1, rows.push(list), Seq::empty(), d)
                },
                _ => {},
            }
        }
    }
}

/// The tree depends on the tokens and their white space alone.
pub proof fn lemma_same_tree(t: Seq<lexer::Tok>, u: Seq<lexer::Tok>)
    requires
        same(t, u),
    ensures
        parser::tree_of(t) is Ok ==> parser::tree_of(u) == parser::tree_of(t),
{
    lemma_same_expr(t, u, 0, false, 1, 0);
    if let Ok((e, j)) = parser::expr(t, 0, false, 1, 0) {
        lemma_same_at(t, u, j);
    }
}

} // verus!
