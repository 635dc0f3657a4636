//! Which references of a formula are seen and moved.
use vstd::prelude::*;

use crate::formula::ast;
use crate::formula::ast::{BinOp, Move, Shape, Tree};
use crate::formula::laws;
use crate::formula::lexer;
use crate::formula::lexer::{Mark, Tok};
use crate::formula::parser;
use crate::formula::refs::{PrefixText, RefText, Shift};

verus! {

/// The references among the tokens from `i` to `j`, in their order.
pub open spec fn token_refs(t: Seq<Tok>, i: int, j: int) -> Seq<RefText>
    decreases j - i,
{
    if j <= i {
        Seq::empty()
    } else {
        match t[j - 1].mark {
            Mark::Ref(r) => token_refs(t, i, j - 1).push(r),
            _ => token_refs(t, i, j - 1),
        }
    }
}

/// The references of a tree.
spec fn of_tree(e: Tree) -> Seq<RefText> {
    ast::refs_among(ast::nodes(e))
}

spec fn of_trees(s: Seq<Tree>) -> Seq<RefText> {
    ast::refs_among(ast::nodes_of(s))
}

spec fn of_rows(s: Seq<Seq<Tree>>) -> Seq<RefText> {
    ast::refs_among(ast::nodes_of_rows(s))
}

proof fn lemma_among(a: Seq<Tree>, b: Seq<Tree>)
    ensures
        ast::refs_among(a + b) == ast::refs_among(a) + ast::refs_among(b),
    decreases b.len(),
{
    if b.len() == 0 {
        assert(a + b =~= a);
        assert(ast::refs_among(a) + ast::refs_among(b) =~= ast::refs_among(a));
    } else {
        assert((a + b).drop_last() =~= a + b.drop_last());
        lemma_among(a, b.drop_last());
        assert(ast::refs_among(a + b) =~= ast::refs_among(a) + ast::refs_among(b));
    }
}

/// The references of a tree are its own and those of its parts.
proof fn lemma_of_tree(e: Tree)
    ensures
        of_tree(e) == match e.shape {
            Shape::Ref(r) => seq![r],
            Shape::Func(_, args, _) => of_trees(args),
            Shape::Union(items) => of_trees(items),
            Shape::Unary(_, x) => of_tree(*x),
            Shape::Percent(x) => of_tree(*x),
            Shape::Paren(x) => of_tree(*x),
            Shape::Binary(_, l, r, _) => of_tree(*l) + of_tree(*r),
            Shape::Array(rows) => of_rows(rows),
            _ => Seq::empty(),
        },
{
    let one = seq![e];
    assert(one.drop_last() =~= Seq::<Tree>::empty());
    assert(ast::refs_among(one.drop_last()) =~= Seq::<RefText>::empty());
    let own = ast::refs_among(one);
    assert(own =~= match e.shape {
        Shape::Ref(r) => seq![r],
        _ => Seq::<RefText>::empty(),
    });
    let rest = match e.shape {
        Shape::Func(_, args, _) => ast::nodes_of(args),
        Shape::Union(items) => ast::nodes_of(items),
        Shape::Unary(_, x) => ast::nodes(*x),
        Shape::Percent(x) => ast::nodes(*x),
        Shape::Paren(x) => ast::nodes(*x),
        Shape::Binary(_, l, r, _) => ast::nodes(*l) + ast::nodes(*r),
        Shape::Array(rows) => ast::nodes_of_rows(rows),
        _ => Seq::<Tree>::empty(),
    };
    assert(ast::nodes(e) == one + rest);
    lemma_among(one, rest);
    if let Shape::Binary(_, l, r, _) = e.shape {
        lemma_among(ast::nodes(*l), ast::nodes(*r));
    }
    assert(own + ast::refs_among(rest) =~= match e.shape {
        Shape::Ref(r) => seq![r],
        _ => ast::refs_among(rest),
    });
}

proof fn lemma_of_pushed(s: Seq<Tree>, e: Tree)
    ensures
        of_trees(s.push(e)) == of_trees(s) + of_tree(e),
{
    assert(s.push(e).drop_last() =~= s);
    lemma_among(ast::nodes_of(s), ast::nodes(e));
}

proof fn lemma_of_row_pushed(s: Seq<Seq<Tree>>, row: Seq<Tree>)
    ensures
        of_rows(s.push(row)) == of_rows(s) + of_trees(row),
{
    assert(s.push(row).drop_last() =~= s);
    lemma_among(ast::nodes_of_rows(s), ast::nodes_of(row));
}

proof fn lemma_of_none()
    ensures
        of_trees(Seq::empty()) == Seq::<RefText>::empty(),
        of_rows(Seq::empty()) == Seq::<RefText>::empty(),
{
    assert(of_trees(Seq::empty()) =~= Seq::<RefText>::empty());
    assert(of_rows(Seq::empty()) =~= Seq::<RefText>::empty());
}

/// White space behind an expression changes none of its references.
proof fn lemma_trailed(e: Tree, ws: Seq<char>)
    ensures
        of_tree(ast::with_trailing(e, ws)) == of_tree(e),
    decreases e,
{
    let n = ast::with_trailing(e, ws);
    lemma_of_tree(e);
    lemma_of_tree(n);
    match e.shape {
        Shape::Binary(op, l, r, w) => lemma_trailed(*r, ws),
        Shape::Unary(op, x) => lemma_trailed(*x, ws),
        Shape::Union(items) => {
            if items.len() > 0 {
                lemma_trailed(items.last(), ws);
                let q = ast::with_trailing(items.last(), ws);
                lemma_of_pushed(items.drop_last(), q);
                lemma_of_pushed(items.drop_last(), items.last());
                assert(items.drop_last().push(items.last()) =~= items);
            }
        },
        _ => {},
    }
}

proof fn lemma_tokens(t: Seq<Tok>, a: int, b: int, c: int)
    requires
        a <= b <= c,
    ensures
        token_refs(t, a, b) + token_refs(t, b, c) == token_refs(t, a, c),
    decreases c - b,
{
    if b < c {
        lemma_tokens(t, a, b, c - 1);
        assert(token_refs(t, a, b) + token_refs(t, b, c) =~= token_refs(t, a, c));
    } else {
        assert(token_refs(t, a, b) + token_refs(t, b, c) =~= token_refs(t, a, c));
    }
}

/// One token more.
proof fn lemma_token(t: Seq<Tok>, a: int, b: int)
    requires
        a <= b,
    ensures
        token_refs(t, a, b + 1) == match t[b].mark {
            Mark::Ref(r) => token_refs(t, a, b).push(r),
            _ => token_refs(t, a, b),
        },
        token_refs(t, b, b + 1) == match t[b].mark {
            Mark::Ref(r) => seq![r],
            _ => Seq::empty(),
        },
{
    assert(token_refs(t, b, b) =~= Seq::<RefText>::empty());
    assert(token_refs(t, b, b + 1) =~= match t[b].mark {
        Mark::Ref(r) => seq![r],
        _ => Seq::<RefText>::empty(),
    });
}

/// A tree that was read from the tokens from `from` on holds their references.
spec fn keeps(t: Seq<Tok>, from: int, least: int, r: Result<(Tree, int), crate::error::Error>) -> bool {
    r matches Ok((e, j)) ==> least <= j <= t.len() && of_tree(e) == token_refs(t, from, j)
}

#[verifier::spinoff_prover]
proof fn lemma_expr(t: Seq<Tok>, i: int, dry: bool, min: u8, d: nat)
    requires
        laws::calls_open(t),
        0 <= i <= t.len(),
    ensures
        keeps(t, i, i + 1, parser::expr(t, i, dry, min, d)),
    decreases parser::MAX_DEPTH - d, t.len() - i, 1int,
{
    if d < parser::MAX_DEPTH {
        lemma_unary(t, i, dry, d + 1);
        if let Ok((lhs, j)) = parser::unary(t, i, dry, d + 1) {
            lemma_climb(t, i, lhs, j, min, d + 1);
        }
    }
}

#[verifier::spinoff_prover]
#[verifier::rlimit(60)]
proof fn lemma_climb(t: Seq<Tok>, from: int, lhs: Tree, i: int, min: u8, d: nat)
    requires
        laws::calls_open(t),
        0 <= from < i <= t.len(),
        of_tree(lhs) == token_refs(t, from, i),
    ensures
        keeps(t, from, i, parser::climb(t, lhs, i, min, d)),
    decreases parser::MAX_DEPTH - d, t.len() - i, 2int,
{
    let m = parser::mark_of(t, i);
    let ws = parser::ws_of(t, i, false);
    if m is Op && parser::prec_of(m->Op_0) >= min {
        let p = (parser::prec_of(m->Op_0) + 1) as u8;
        lemma_expr(t, i + 1, false, p, d);
        if let Ok((rhs, k)) = parser::expr(t, i + 1, false, p, d) {
            let e = ast::bare(Shape::Binary(m->Op_0, Box::new(lhs), Box::new(rhs), ws));
            lemma_of_tree(e);
            lemma_token(t, from, i);
            lemma_tokens(t, from, i + 1, k);
            lemma_climb(t, from, e, k, min, d);
        }
    } else if lexer::opens(m) && parser::prec_of(BinOp::Intersect) >= min && ws.len() > 0 {
        let p = (parser::prec_of(BinOp::Intersect) + 1) as u8;
        lemma_expr(t, i, true, p, d);
        if let Ok((rhs, k)) = parser::expr(t, i, true, p, d) {
            let e = ast::bare(Shape::Binary(BinOp::Intersect, Box::new(lhs), Box::new(rhs), ws));
            lemma_of_tree(e);
            lemma_tokens(t, from, i, k);
            lemma_climb(t, from, e, k, min, d);
        }
    }
}

#[verifier::spinoff_prover]
proof fn lemma_unary(t: Seq<Tok>, i: int, dry: bool, d: nat)
    requires
        laws::calls_open(t),
        0 <= i <= t.len(),
    ensures
        keeps(t, i, i + 1, parser::unary(t, i, dry, d)),
    decreases parser::MAX_DEPTH - d, t.len() - i, 1int,
{
    let m = parser::mark_of(t, i);
    if m == Mark::Op(BinOp::Sub) || m == Mark::Op(BinOp::Add) {
        lemma_expr(t, i + 1, false, parser::UNARY_PREC, d);
        if let Ok((x, j)) = parser::expr(t, i + 1, false, parser::UNARY_PREC, d) {
            let e = (parser::unary(t, i, dry, d)->Ok_0).0;
            lemma_of_tree(e);
            lemma_token(t, i, i);
            lemma_tokens(t, i, i + 1, j);
            assert(token_refs(t, i, j) =~= of_tree(x));
        }
    } else {
        lemma_primary(t, i, dry, d);
        if let Ok((e, j)) = parser::primary(t, i, dry, d) {
            lemma_percents(t, i, e, j);
        }
    }
}

proof fn lemma_percents(t: Seq<Tok>, from: int, e: Tree, i: int)
    requires
        0 <= from <= i <= t.len(),
        of_tree(e) == token_refs(t, from, i),
    ensures
        i <= parser::percents(t, e, i).1 <= t.len(),
        of_tree(parser::percents(t, e, i).0) == token_refs(t, from, parser::percents(t, e, i).1),
    decreases t.len() - i,
{
    if parser::mark_of(t, i) is Percent {
        let ws = parser::ws_of(t, i, false);
        lemma_trailed(e, ws);
        let f = ast::bare(Shape::Percent(Box::new(parser::trailed(e, ws))));
        lemma_of_tree(f);
        lemma_token(t, from, i);
        lemma_percents(t, from, f, i + 1);
    }
}

#[verifier::spinoff_prover]
#[verifier::rlimit(80)]
proof fn lemma_primary(t: Seq<Tok>, i: int, dry: bool, d: nat)
    requires
        laws::calls_open(t),
        0 <= i <= t.len(),
    ensures
        keeps(t, i, i + 1, parser::primary(t, i, dry, d)),
    decreases parser::MAX_DEPTH - d, t.len() - i, 0int,
{
    let r = parser::primary(t, i, dry, d);
    if i < t.len() {
        lemma_token(t, i, i);
        if r is Ok {
            lemma_of_tree((r->Ok_0).0);
        }
        lemma_of_none();
        match t[i].mark {
            Mark::Name(name, call) => {
                if call {
                    assert(t[i + 1].mark is LParen);
                    lemma_token(t, i, i + 1);
                    lemma_arg_list(t, i, i + 2, d);
                    if let Ok((args, j)) = parser::arg_list(t, i + 2, d) {
                        if j < t.len() {
                            lemma_token(t, i, j);
                        }
                    }
                }
            },
            Mark::LParen => lemma_paren_body(t, i, i + 1, Seq::empty(), d),
            Mark::LBrace => {
                assert(of_rows(Seq::empty()) + of_trees(Seq::empty()) =~= Seq::<RefText>::empty());
                lemma_array_rows(t, i, i + 1, Seq::empty(), Seq::empty(), d);
            },
            _ => {},
        }
    }
}

#[verifier::spinoff_prover]
#[verifier::rlimit(60)]
proof fn lemma_paren_body(t: Seq<Tok>, from: int, i: int, items: Seq<Tree>, d: nat)
    requires
        laws::calls_open(t),
        0 <= from <= i <= t.len(),
        of_trees(items) == token_refs(t, from, i),
    ensures
        keeps(t, from, i + 1, parser::paren_body(t, i, items, d)),
    decreases parser::MAX_DEPTH - d, t.len() - i, 2int,
{
    lemma_expr(t, i, false, 1, d);
    if let Ok((e, j)) = parser::expr(t, i, false, 1, d) {
        let ws = parser::ws_of(t, j, false);
        let f = parser::trailed(e, ws);
        let list = items.push(f);
        lemma_trailed(e, ws);
        lemma_of_pushed(items, f);
        lemma_tokens(t, from, i, j);
        if j < t.len() {
            lemma_token(t, from, j);
        }
        if parser::mark_of(t, j) is Comma {
            lemma_paren_body(t, from, j + 1, list, d);
        } else if parser::mark_of(t, j) is RParen {
            if list.len() == 1 {
                lemma_of_none();
                assert(items =~= Seq::<Tree>::empty());
                assert(Seq::<RefText>::empty() + of_tree(f) =~= of_tree(f));
            } else {
                lemma_of_tree(ast::bare(Shape::Union(list)));
            }
        }
    }
}

/// A list that was read from the tokens from `from` on holds their references.
spec fn list_keeps(
    t: Seq<Tok>,
    from: int,
    least: int,
    r: Result<(Seq<Tree>, int), crate::error::Error>,
) -> bool {
    r matches Ok((s, j)) ==> least <= j <= t.len() && of_trees(s) == token_refs(t, from, j)
}

proof fn lemma_arg_list(t: Seq<Tok>, from: int, i: int, d: nat)
    requires
        laws::calls_open(t),
        0 <= from <= i <= t.len(),
        token_refs(t, from, i) == Seq::<RefText>::empty(),
    ensures
        list_keeps(t, from, i, parser::arg_list(t, i, d)),
    decreases parser::MAX_DEPTH - d, t.len() - i, 3int,
{
    lemma_of_none();
    lemma_arguments(t, from, i, Seq::empty(), d);
}

#[verifier::spinoff_prover]
#[verifier::rlimit(60)]
proof fn lemma_arguments(t: Seq<Tok>, from: int, i: int, args: Seq<Tree>, d: nat)
    requires
        laws::calls_open(t),
        0 <= from <= i <= t.len(),
        of_trees(args) == token_refs(t, from, i),
    ensures
        list_keeps(t, from, i, parser::arguments(t, i, args, d)),
    decreases parser::MAX_DEPTH - d, t.len() - i, 2int,
{
    let left_out = parser::mark_of(t, i) is Comma || parser::mark_of(t, i) is RParen;
    if left_out {
        let e = Tree {
            shape: Shape::Missing,
            before: parser::ws_of(t, i, false),
            after: Seq::empty(),
        };
        lemma_of_tree(e);
        lemma_of_pushed(args, e);
        assert(of_trees(args.push(e)) =~= of_trees(args));
        lemma_token(t, from, i);
        if parser::mark_of(t, i) is Comma {
            lemma_arguments(t, from, i + 1, args.push(e), d);
        }
    } else {
        lemma_expr(t, i, false, 1, d);
        if let Ok((x, j)) = parser::expr(t, i, false, 1, d) {
            let ws = parser::ws_of(t, j, false);
            lemma_trailed(x, ws);
            let e = parser::trailed(x, ws);
            lemma_of_pushed(args, e);
            lemma_tokens(t, from, i, j);
            if parser::mark_of(t, j) is Comma {
                lemma_token(t, from, j);
                lemma_arguments(t, from, j + 1, args.push(e), d);
            }
        }
    }
}

#[verifier::spinoff_prover]
#[verifier::rlimit(60)]
proof fn lemma_array_rows(
    t: Seq<Tok>,
    from: int,
    i: int,
    rows: Seq<Seq<Tree>>,
    row: Seq<Tree>,
    d: nat,
)
    requires
        laws::calls_open(t),
        0 <= from <= i <= t.len(),
        of_rows(rows) + of_trees(row) == token_refs(t, from, i),
    ensures
        parser::array_rows(t, i, rows, row, d) matches Ok((list, j)) ==> i < j <= t.len()
            && of_rows(list) == token_refs(t, from, j),
    decreases parser::MAX_DEPTH - d, t.len() - i, 2int,
{
    lemma_expr(t, i, false, 1, d);
    if let Ok((e, j)) = parser::expr(t, i, false, 1, d) {
        let ws = parser::ws_of(t, j, false);
        let f = parser::trailed(e, ws);
        let list = row.push(f);
        lemma_trailed(e, ws);
        lemma_of_pushed(row, f);
        lemma_of_row_pushed(rows, list);
        lemma_tokens(t, from, i, j);
        assert(of_rows(rows) + of_trees(list) =~= (of_rows(rows) + of_trees(row)) + of_tree(f));
        if j < t.len() {
            lemma_token(t, from, j);
        }
        match parser::mark_of(t, j) {
            Mark::Comma => lemma_array_rows(t, from, j + 1, rows, list, d),
            Mark::Semi => {
                lemma_of_none();
                assert(of_rows(rows.push(list)) + of_trees(Seq::empty()) =~= of_rows(
                    rows.push(list),
                ));
                lemma_array_rows(t, from, j + 1, rows.push(list), Seq::empty(), d);
            },
            _ => {},
        }
    }
}

/// The references that are seen in the tree of a formula are those of its text,
/// each once and in their order, wherever they stand.
pub proof fn lemma_every_reference_is_seen(s: Seq<char>)
    ensures
        parser::parsed(s) matches Ok(e) ==> ast::refs_among(ast::nodes(e)) == token_refs(
            lexer::tokens(s, 0)->Ok_0,
            0,
            lexer::tokens(s, 0)->Ok_0.len() as int,
        ),
{
    if let Ok(t) = lexer::tokens(s, 0) {
        laws::lemma_tokens_tile(s, 0);
        lemma_expr(t, 0, false, 1, 0);
        if let Ok((e, j)) = parser::expr(t, 0, false, 1, 0) {
            lemma_trailed(e, parser::ws_of(t, j, false));
            if parser::mark_of(t, j) is Eof && j < t.len() {
                assert(j == t.len() - 1);
                lemma_token(t, 0, j);
            }
        }
    }
}

/// A move takes hold of every reference that is seen, of each alone, and of
/// nothing else that is counted among them.
pub proof fn lemma_every_reference_moves(e: Tree, m: Move<'_>)
    ensures
        ast::refs_among(ast::nodes(ast::moved_tree(e, m))) == ast::refs_among(
            ast::nodes(e),
        ).map_values(|r: RefText| ast::moved(r, m)),
    decreases e, 0int,
{
    let n = ast::moved_tree(e, m);
    let f = |r: RefText| ast::moved(r, m);
    lemma_of_tree(e);
    lemma_of_tree(n);
    match e.shape {
        Shape::Ref(r) => {},
        Shape::Func(_, args, _) => lemma_all_move(args, m),
        Shape::Union(items) => lemma_all_move(items, m),
        Shape::Unary(_, x) => lemma_every_reference_moves(*x, m),
        Shape::Percent(x) => lemma_every_reference_moves(*x, m),
        Shape::Paren(x) => lemma_every_reference_moves(*x, m),
        Shape::Binary(_, l, r, _) => {
            lemma_every_reference_moves(*l, m);
            lemma_every_reference_moves(*r, m);
        },
        Shape::Array(rows) => lemma_rows_move(rows, m),
        _ => {},
    }
    assert(of_tree(n) =~= of_tree(e).map_values(f));
}

proof fn lemma_all_move(s: Seq<Tree>, m: Move<'_>)
    ensures
        of_trees(ast::moved_trees(s, m)) == of_trees(s).map_values(|r: RefText| ast::moved(r, m)),
    decreases s, 1int,
{
    lemma_of_none();
    if s.len() > 0 {
        lemma_all_move(s.drop_last(), m);
        lemma_every_reference_moves(s.last(), m);
        lemma_of_pushed(ast::moved_trees(s.drop_last(), m), ast::moved_tree(s.last(), m));
        lemma_of_pushed(s.drop_last(), s.last());
        assert(s.drop_last().push(s.last()) =~= s);
    }
    assert(of_trees(ast::moved_trees(s, m)) =~= of_trees(s).map_values(
        |r: RefText| ast::moved(r, m),
    ));
}

proof fn lemma_rows_move(s: Seq<Seq<Tree>>, m: Move<'_>)
    ensures
        of_rows(ast::moved_rows(s, m)) == of_rows(s).map_values(|r: RefText| ast::moved(r, m)),
    decreases s, 2int,
{
    lemma_of_none();
    if s.len() > 0 {
        lemma_rows_move(s.drop_last(), m);
        lemma_all_move(s.last(), m);
        lemma_of_row_pushed(ast::moved_rows(s.drop_last(), m), ast::moved_trees(s.last(), m));
        lemma_of_row_pushed(s.drop_last(), s.last());
        assert(s.drop_last().push(s.last()) =~= s);
    }
    assert(of_rows(ast::moved_rows(s, m)) =~= of_rows(s).map_values(
        |r: RefText| ast::moved(r, m),
    ));
}

/// A sheet is named in a prefix, as the only one or as one of two.
pub open spec fn names(p: PrefixText, sheet: Seq<char>) -> bool {
    p.first == sheet || p.last == Some(sheet)
}

/// An edit of a sheet moves the references to that sheet and no others: those
/// without a sheet where the formula stands on the edited sheet, those that name
/// it, and none where the edit has no name or nothing is inserted or deleted.
/// What is moved keeps its sheet.
pub proof fn lemma_edit_moves_its_sheet_alone(r: RefText, sh: Shift<'_>)
    ensures
        ast::moved(r, Move::Shift(sh)).sheet == r.sheet,
        sh.count == 0 ==> ast::moved(r, Move::Shift(sh)) == r,
        r.sheet is None && !sh.local ==> ast::moved(r, Move::Shift(sh)) == r,
        r.sheet is Some && sh.sheet is None ==> ast::moved(r, Move::Shift(sh)) == r,
        r.sheet is Some && sh.sheet is Some && !names(r.sheet->0, sh.sheet->0@) ==> ast::moved(
            r,
            Move::Shift(sh),
        ) == r,
        sh.count > 0 && ((r.sheet is None && sh.local) || (r.sheet is Some && sh.sheet is Some
            && names(r.sheet->0, sh.sheet->0@))) ==> ast::moved(r, Move::Shift(sh)).body
            == crate::formula::refs::shifted(
            r.body,
            sh.axis,
            Shift::plain(sh.axis, sh.at, sh.count, sh.insert).edit(),
        ),
{
}

/// A formula that is copied takes its references along whatever sheet they name,
/// and each keeps its sheet.
pub proof fn lemma_copy_moves_all_sheets(r: RefText, d_col: i64, d_row: i64)
    ensures
        ast::moved(r, Move::Translate { d_col, d_row }).sheet == r.sheet,
        ast::moved(r, Move::Translate { d_col, d_row }).body == crate::formula::refs::translated(
            r.body,
            d_col,
            d_row,
        ),
{
}

} // verus!
