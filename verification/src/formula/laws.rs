//! What reading and printing a formula keep.
use vstd::prelude::*;

use crate::formula::ast;
use crate::formula::lexer;
use crate::formula::parser;
use crate::formula::print;
use crate::formula::refs;
use crate::formula::scan;
use crate::text;

verus! {

/// The text of the tokens from `i` to `j`, with their white space.
pub open spec fn flat(t: Seq<lexer::Tok>, i: int, j: int) -> Seq<char>
    decreases j - i,
{
    if j <= i {
        Seq::empty()
    } else {
        flat(t, i, j - 1) + t[j - 1].ws + lexer::mark_text(t[j - 1].mark)
    }
}

/// The text of the tokens from `i` to `j`, without the white space before the
/// first one when it is `dry`.
pub open spec fn stretch(t: Seq<lexer::Tok>, i: int, dry: bool, j: int) -> Seq<char> {
    parser::ws_of(t, i, dry) + lexer::mark_text(t[i].mark) + flat(t, i + 1, j)
}

/// Behind a name that is called a parenthesis opens at once.
pub open spec fn calls_open(t: Seq<lexer::Tok>) -> bool {
    forall|i: int|
        #![trigger t[i]]
        0 <= i < t.len() && t[i].mark is Name && t[i].mark->Name_1 ==> i + 1 < t.len() && t[i
            + 1].mark is LParen && t[i + 1].ws.len() == 0
}

/// The last token is the end, and no other is.
pub open spec fn ended(t: Seq<lexer::Tok>) -> bool {
    &&& t.len() > 0
    &&& t.last().mark is Eof
    &&& forall|i: int| 0 <= i < t.len() - 1 ==> !((#[trigger] t[i]).mark is Eof)
}

proof fn lemma_flat_concat(t: Seq<lexer::Tok>, a: int, b: int, c: int)
    requires
        a <= b <= c,
    ensures
        flat(t, a, b) + flat(t, b, c) == flat(t, a, c),
    decreases c - b,
{
    if b < c {
        lemma_flat_concat(t, a, b, c - 1);
        assert(flat(t, a, b) + flat(t, b, c) =~= (flat(t, a, b) + flat(t, b, c - 1)) + t[c - 1].ws
            + lexer::mark_text(t[c - 1].mark));
    } else {
        assert(flat(t, a, b) + flat(t, b, c) =~= flat(t, a, c));
    }
}

/// A stretch with its white space is the text of its tokens.
proof fn lemma_stretch_flat(t: Seq<lexer::Tok>, i: int, j: int)
    requires
        0 <= i < j <= t.len(),
    ensures
        stretch(t, i, false, j) == flat(t, i, j),
        t[i].ws + stretch(t, i, true, j) == flat(t, i, j),
{
    lemma_flat_concat(t, i, i + 1, j);
    assert(flat(t, i, i) =~= Seq::<char>::empty());
    assert(flat(t, i, i + 1) =~= t[i].ws + lexer::mark_text(t[i].mark));
    assert(stretch(t, i, false, j) =~= flat(t, i, i + 1) + flat(t, i + 1, j));
    assert(t[i].ws + stretch(t, i, true, j) =~= flat(t, i, i + 1) + flat(t, i + 1, j));
}

/// A stretch goes on with the text of further tokens.
proof fn lemma_stretch_concat(t: Seq<lexer::Tok>, i: int, dry: bool, j: int, k: int)
    requires
        i < j <= k,
    ensures
        stretch(t, i, dry, j) + flat(t, j, k) == stretch(t, i, dry, k),
{
    lemma_flat_concat(t, i + 1, j, k);
    assert(stretch(t, i, dry, j) + flat(t, j, k) =~= parser::ws_of(t, i, dry) + lexer::mark_text(
        t[i].mark,
    ) + (flat(t, i + 1, j) + flat(t, j, k)));
}

/// Nothing stands behind the innermost node on the right.
pub open spec fn right_bare(e: ast::Tree) -> bool
    decreases e,
{
    &&& e.after.len() == 0
    &&& match e.shape {
        ast::Shape::Binary(_, _, r, _) => right_bare(*r),
        ast::Shape::Unary(_, x) => right_bare(*x),
        ast::Shape::Union(_) => false,
        _ => true,
    }
}

/// White space put behind a tree is printed behind it.
proof fn lemma_trailed(e: ast::Tree, ws: Seq<char>)
    requires
        right_bare(e),
    ensures
        print::shown(parser::trailed(e, ws)) == print::shown(e) + ws,
{
    if ws.len() > 0 {
        lemma_with_trailing(e, ws);
    } else {
        assert(print::shown(e) + ws =~= print::shown(e));
    }
}

proof fn lemma_with_trailing(e: ast::Tree, ws: Seq<char>)
    requires
        right_bare(e),
    ensures
        print::shown(ast::with_trailing(e, ws)) == print::shown(e) + ws,
    decreases e,
{
    let f = ast::with_trailing(e, ws);
    match e.shape {
        ast::Shape::Binary(op, l, r, w) => {
            lemma_with_trailing(*r, ws);
            assert(print::shown(f) =~= print::shown(e) + ws);
        },
        ast::Shape::Unary(op, x) => {
            lemma_with_trailing(*x, ws);
            assert(print::shown(f) =~= print::shown(e) + ws);
        },
        _ => {
            assert(print::shown(f) =~= print::shown(e) + ws);
        },
    }
}

/// What a tree read from the tokens `i` to `j` prints.
pub open spec fn prints(
    r: Result<(ast::Tree, int), crate::error::Error>,
    t: Seq<lexer::Tok>,
    i: int,
    dry: bool,
    at: int,
) -> bool {
    match r {
        Ok((e, j)) => at <= j <= t.len() && i < j && print::shown(e) == stretch(t, i, dry, j)
            && right_bare(e),
        Err(_) => true,
    }
}

proof fn lemma_expr(t: Seq<lexer::Tok>, i: int, dry: bool, min: u8, d: nat)
    requires
        calls_open(t),
        0 <= i <= t.len(),
    ensures
        prints(parser::expr(t, i, dry, min, d), t, i, dry, i),
    decreases parser::MAX_DEPTH - d, t.len() - i, 1int,
{
    if d < parser::MAX_DEPTH {
        lemma_unary(t, i, dry, d + 1);
        if let Ok((lhs, j)) = parser::unary(t, i, dry, d + 1) {
            lemma_climb(t, lhs, j, min, d + 1, i, dry);
        }
    }
}

#[verifier::spinoff_prover]
#[verifier::rlimit(60)]
proof fn lemma_climb(
    t: Seq<lexer::Tok>,
    lhs: ast::Tree,
    i: int,
    min: u8,
    d: nat,
    from: int,
    dry: bool,
)
    requires
        calls_open(t),
        0 <= from < i <= t.len(),
        print::shown(lhs) == stretch(t, from, dry, i),
        right_bare(lhs),
    ensures
        prints(parser::climb(t, lhs, i, min, d), t, from, dry, i),
    decreases parser::MAX_DEPTH - d, t.len() - i, 2int,
{
    let m = parser::mark_of(t, i);
    let ws = parser::ws_of(t, i, false);
    if m is Op && parser::prec_of(m->Op_0) >= min {
        let p = (parser::prec_of(m->Op_0) + 1) as u8;
        lemma_expr(t, i + 1, false, p, d);
        if let Ok((rhs, k)) = parser::expr(t, i + 1, false, p, d) {
            let e = ast::bare(
                ast::Shape::Binary(m->Op_0, Box::new(lhs), Box::new(rhs), ws),
            );
            lemma_stretch_flat(t, i + 1, k);
            lemma_flat_concat(t, i, i + 1, k);
            lemma_stretch_concat(t, from, dry, i, k);
            assert(flat(t, i, i) =~= Seq::<char>::empty());
            assert(flat(t, i, i + 1) =~= ws + m->Op_0.spelling());
            assert(print::shown(e) =~= stretch(t, from, dry, i) + (flat(t, i, i + 1) + flat(
                t,
                i + 1,
                k,
            )));
            lemma_climb(t, e, k, min, d, from, dry);
        }
    } else if lexer::opens(m) && parser::prec_of(ast::BinOp::Intersect) >= min && ws.len() > 0 {
        lemma_expr(t, i, true, 8, d);
        if let Ok((rhs, k)) = parser::expr(t, i, true, 8, d) {
            let e = ast::bare(
                ast::Shape::Binary(ast::BinOp::Intersect, Box::new(lhs), Box::new(rhs), ws),
            );
            lemma_stretch_flat(t, i, k);
            lemma_stretch_concat(t, from, dry, i, k);
            assert(print::shown(e) =~= stretch(t, from, dry, i) + (ws + stretch(t, i, true, k)));
            lemma_climb(t, e, k, min, d, from, dry);
        }
    }
}

proof fn lemma_unary(t: Seq<lexer::Tok>, i: int, dry: bool, d: nat)
    requires
        calls_open(t),
        0 <= i <= t.len(),
    ensures
        prints(parser::unary(t, i, dry, d), t, i, dry, i),
    decreases parser::MAX_DEPTH - d, t.len() - i, 1int,
{
    let m = parser::mark_of(t, i);
    if m == lexer::Mark::Op(ast::BinOp::Sub) || m == lexer::Mark::Op(ast::BinOp::Add) {
        lemma_expr(t, i + 1, false, parser::UNARY_PREC, d);
        if let Ok((x, j)) = parser::expr(t, i + 1, false, parser::UNARY_PREC, d) {
            lemma_stretch_flat(t, i + 1, j);
            if let Ok((e, _)) = parser::unary(t, i, dry, d) {
                assert(print::shown(e) =~= stretch(t, i, dry, j));
            }
        }
    } else {
        lemma_primary(t, i, dry, d);
        if let Ok((e, j)) = parser::primary(t, i, dry, d) {
            lemma_percents(t, e, j, i, dry);
        }
    }
}

proof fn lemma_percents(t: Seq<lexer::Tok>, e: ast::Tree, i: int, from: int, dry: bool)
    requires
        0 <= from < i <= t.len(),
        print::shown(e) == stretch(t, from, dry, i),
        right_bare(e),
    ensures
        ({
            let (f, j) = parser::percents(t, e, i);
            i <= j <= t.len() && print::shown(f) == stretch(t, from, dry, j) && right_bare(f)
        }),
    decreases t.len() - i,
{
    if parser::mark_of(t, i) is Percent {
        let ws = parser::ws_of(t, i, false);
        lemma_trailed(e, ws);
        let f = ast::bare(ast::Shape::Percent(Box::new(parser::trailed(e, ws))));
        lemma_stretch_concat(t, from, dry, i, i + 1);
        assert(flat(t, i, i) =~= Seq::<char>::empty());
        assert(print::shown(f) =~= stretch(t, from, dry, i) + flat(t, i, i + 1));
        lemma_percents(t, f, i + 1, from, dry);
    }
}

proof fn lemma_primary(t: Seq<lexer::Tok>, i: int, dry: bool, d: nat)
    requires
        calls_open(t),
        0 <= i <= t.len(),
    ensures
        prints(parser::primary(t, i, dry, d), t, i, dry, i),
    decreases parser::MAX_DEPTH - d, t.len() - i, 0int,
{
    match parser::mark_of(t, i) {
        lexer::Mark::Name(name, call) => {
            if call {
                assert(t[i].mark is Name && t[i].mark->Name_1);
                assert(parser::next(t, i + 1) == i + 2);
                assert(t[i + 1].mark is LParen);
                lemma_arg_list(t, i + 2, d);
                if let Ok((args, j)) = parser::arg_list(t, i + 2, d) {
                    if parser::mark_of(t, j) is RParen {
                        lemma_call_shown(t, i, dry, j, args);
                    }
                }
            } else {
                lemma_leaf_shown(t, i, dry, ast::Shape::Name(name));
            }
        },
        lexer::Mark::LParen => {
            lemma_paren_body(t, i + 1, Seq::empty(), d);
            if let Ok((x, j)) = parser::paren_body(t, i + 1, Seq::empty(), d) {
                lemma_paren_shown(t, i, dry, j, x);
            }
        },
        lexer::Mark::LBrace => {
            lemma_array_rows(t, i + 1, Seq::empty(), Seq::empty(), d);
            if let Ok((rows, j)) = parser::array_rows(t, i + 1, Seq::empty(), Seq::empty(), d) {
                lemma_array_shown(t, i, dry, j, rows);
            }
        },
        lexer::Mark::Num(raw) => lemma_leaf_shown(t, i, dry, ast::Shape::Num(raw)),
        lexer::Mark::Str(s) => lemma_leaf_shown(t, i, dry, ast::Shape::Str(s)),
        lexer::Mark::Bool(b) => lemma_leaf_shown(t, i, dry, ast::Shape::Bool(b)),
        lexer::Mark::Error(k) => lemma_leaf_shown(t, i, dry, ast::Shape::Error(k)),
        lexer::Mark::Ref(r) => lemma_leaf_shown(t, i, dry, ast::Shape::Ref(r)),
        _ => {},
    }
}

proof fn lemma_leaf_shown(t: Seq<lexer::Tok>, i: int, dry: bool, shape: ast::Shape)
    requires
        0 <= i < t.len(),
        print::shape_shown(shape) == lexer::mark_text(t[i].mark),
    ensures
        print::shown(
            ast::Tree { shape, before: parser::ws_of(t, i, dry), after: Seq::empty() },
        ) == stretch(t, i, dry, i + 1),
{
    assert(flat(t, i + 1, i + 1) =~= Seq::<char>::empty());
    let e = ast::Tree { shape, before: parser::ws_of(t, i, dry), after: Seq::empty() };
    assert(print::shown(e) =~= stretch(t, i, dry, i + 1));
}

proof fn lemma_call_shown(t: Seq<lexer::Tok>, i: int, dry: bool, j: int, args: Seq<ast::Tree>)
    requires
        0 <= i,
        i + 2 <= j < t.len(),
        t[i].mark is Name,
        t[i + 1].mark is LParen,
        t[i + 1].ws.len() == 0,
        t[j].mark is RParen,
        parser::inside(t, j, args) + print::joined(args) == flat(t, i + 2, j) + t[j].ws,
    ensures
        print::shown(
            ast::Tree {
                shape: ast::Shape::Func(t[i].mark->Name_0, args, parser::inside(t, j, args)),
                before: parser::ws_of(t, i, dry),
                after: Seq::empty(),
            },
        ) == stretch(t, i, dry, j + 1),
{
    let before = parser::ws_of(t, i, dry);
    let name = t[i].mark->Name_0;
    let ws = parser::inside(t, j, args);
    let shape = ast::Shape::Func(name, args, ws);
    let e = ast::Tree { shape, before, after: Seq::empty() };
    lemma_flat_concat(t, i + 1, i + 2, j);
    assert(flat(t, i + 1, i + 1) =~= Seq::<char>::empty());
    assert(flat(t, i + 1, i + 2) =~= seq!['(']);
    assert(flat(t, i + 1, j + 1) == flat(t, i + 1, j) + t[j].ws + seq![')']);
    assert(print::shape_shown(shape) == name + seq!['('] + ws + print::joined(args) + seq![')']);
    assert(print::shape_shown(shape) =~= name + seq!['('] + (ws + print::joined(args)) + seq![')']);
    assert(print::shown(e) =~= before + name + (seq!['('] + (flat(t, i + 2, j) + t[j].ws)
        + seq![')']));
    assert(flat(t, i + 1, j + 1) =~= seq!['('] + (flat(t, i + 2, j) + t[j].ws) + seq![')']);
}

proof fn lemma_paren_shown(t: Seq<lexer::Tok>, i: int, dry: bool, j: int, x: ast::Tree)
    requires
        0 <= i < t.len(),
        t[i].mark is LParen,
        print::shown(x) + seq![')'] == listed(Seq::empty()) + flat(t, i + 1, j),
    ensures
        print::shown(
            ast::Tree {
                shape: ast::Shape::Paren(Box::new(x)),
                before: parser::ws_of(t, i, dry),
                after: Seq::empty(),
            },
        ) == stretch(t, i, dry, j),
{
    let before = parser::ws_of(t, i, dry);
    let shape = ast::Shape::Paren(Box::new(x));
    let e = ast::Tree { shape, before, after: Seq::empty() };
    assert(listed(Seq::empty()) + flat(t, i + 1, j) =~= flat(t, i + 1, j));
    assert(print::shape_shown(shape) == seq!['('] + print::shown(x) + seq![')']);
    assert(print::shown(e) =~= before + seq!['('] + (print::shown(x) + seq![')']));
}

proof fn lemma_array_shown(
    t: Seq<lexer::Tok>,
    i: int,
    dry: bool,
    j: int,
    rows: Seq<Seq<ast::Tree>>,
)
    requires
        0 <= i < t.len(),
        t[i].mark is LBrace,
        print::joined_rows(rows) + seq!['}'] == rows_listed(Seq::empty(), Seq::empty()) + flat(
            t,
            i + 1,
            j,
        ),
    ensures
        print::shown(
            ast::Tree {
                shape: ast::Shape::Array(rows),
                before: parser::ws_of(t, i, dry),
                after: Seq::empty(),
            },
        ) == stretch(t, i, dry, j),
{
    let before = parser::ws_of(t, i, dry);
    let shape = ast::Shape::Array(rows);
    let e = ast::Tree { shape, before, after: Seq::empty() };
    assert(rows_listed(Seq::empty(), Seq::empty()) + flat(t, i + 1, j) =~= flat(t, i + 1, j));
    assert(print::shape_shown(shape) == seq!['{'] + print::joined_rows(rows) + seq!['}']);
    assert(print::shown(e) =~= before + seq!['{'] + (print::joined_rows(rows) + seq!['}']));
}

/// The text of nodes that another one follows.
pub open spec fn listed(s: Seq<ast::Tree>) -> Seq<char> {
    if s.len() == 0 {
        Seq::empty()
    } else {
        print::joined(s) + seq![',']
    }
}

proof fn lemma_joined_push(s: Seq<ast::Tree>, e: ast::Tree)
    ensures
        print::joined(s.push(e)) == listed(s) + print::shown(e),
{
    assert(s.push(e).drop_last() =~= s);
    assert(print::joined(s.push(e)) =~= listed(s) + print::shown(e));
}

#[verifier::spinoff_prover]
#[verifier::rlimit(60)]
proof fn lemma_paren_body(t: Seq<lexer::Tok>, i: int, items: Seq<ast::Tree>, d: nat)
    requires
        calls_open(t),
        0 <= i <= t.len(),
    ensures
        match parser::paren_body(t, i, items, d) {
            Ok((x, j)) => i < j <= t.len() && print::shown(x) + seq![')'] == listed(items) + flat(
                t,
                i,
                j,
            ),
            Err(_) => true,
        },
    decreases parser::MAX_DEPTH - d, t.len() - i, 2int,
{
    lemma_expr(t, i, false, 1, d);
    if let Ok((e, j)) = parser::expr(t, i, false, 1, d) {
        let ws = parser::ws_of(t, j, false);
        let f = parser::trailed(e, ws);
        let list = items.push(f);
        lemma_trailed(e, ws);
        lemma_stretch_flat(t, i, j);
        lemma_joined_push(items, f);
        if parser::mark_of(t, j) is Comma {
            lemma_paren_body(t, j + 1, list, d);
            if let Ok((x, k)) = parser::paren_body(t, j + 1, list, d) {
                lemma_flat_concat(t, i, j + 1, k);
                assert(listed(list) + flat(t, j + 1, k) =~= listed(items) + (flat(t, i, j + 1)
                    + flat(t, j + 1, k)));
            }
        } else if parser::mark_of(t, j) is RParen {
            if let Ok((x, k)) = parser::paren_body(t, i, items, d) {
                assert(print::shown(x) =~= print::joined(list));
                assert(print::shown(x) + seq![')'] =~= listed(items) + flat(t, i, j + 1));
            }
        }
    }
}

proof fn lemma_arg_list(t: Seq<lexer::Tok>, i: int, d: nat)
    requires
        calls_open(t),
        0 <= i <= t.len(),
    ensures
        match parser::arg_list(t, i, d) {
            Ok((list, j)) => i <= j <= t.len() && parser::inside(t, j, list) + print::joined(list)
                == flat(t, i, j) + parser::ws_of(t, j, false),
            Err(_) => true,
        },
    decreases parser::MAX_DEPTH - d, t.len() - i, 3int,
{
    if parser::mark_of(t, i) is RParen {
        let ws = parser::ws_of(t, i, false);
        assert(flat(t, i, i) + ws =~= ws);
        assert(ws + print::joined(Seq::empty()) =~= ws);
    } else {
        lemma_arguments(t, i, Seq::empty(), d);
        if let Ok((list, j)) = parser::arguments(t, i, Seq::empty(), d) {
            assert(list.len() > 0);
            assert(parser::inside(t, j, list) + print::joined(list) =~= flat(t, i, j)
                + parser::ws_of(t, j, false));
        }
    }
}

#[verifier::spinoff_prover]
#[verifier::rlimit(60)]
proof fn lemma_arguments(t: Seq<lexer::Tok>, i: int, args: Seq<ast::Tree>, d: nat)
    requires
        calls_open(t),
        0 <= i <= t.len(),
    ensures
        match parser::arguments(t, i, args, d) {
            Ok((list, j)) => i <= j <= t.len() && list.len() > 0 && print::joined(list) == listed(
                args,
            ) + flat(t, i, j) + parser::ws_of(t, j, false),
            Err(_) => true,
        },
    decreases parser::MAX_DEPTH - d, t.len() - i, 2int,
{
    let left_out = parser::mark_of(t, i) is Comma || parser::mark_of(t, i) is RParen;
    let ws = parser::ws_of(t, i, false);
    let missing = ast::Tree { shape: ast::Shape::Missing, before: ws, after: Seq::empty() };
    if !left_out {
        lemma_expr(t, i, false, 1, d);
    }
    let ok = left_out || parser::expr(t, i, false, 1, d) is Ok;
    if ok {
        let j = if left_out {
            i
        } else {
            parser::expr(t, i, false, 1, d)->Ok_0.1
        };
        let e = if left_out {
            missing
        } else {
            parser::trailed(
                parser::expr(t, i, false, 1, d)->Ok_0.0,
                parser::ws_of(t, j, false),
            )
        };
        if left_out {
            assert(print::shown(e) =~= flat(t, i, j) + parser::ws_of(t, j, false));
        } else {
            lemma_stretch_flat(t, i, j);
            lemma_trailed(parser::expr(t, i, false, 1, d)->Ok_0.0, parser::ws_of(t, j, false));
        }
        assert(print::shown(e) == flat(t, i, j) + parser::ws_of(t, j, false));
        let list = args.push(e);
        lemma_joined_push(args, e);
        assert(print::joined(list) =~= listed(args) + flat(t, i, j) + parser::ws_of(t, j, false));
        if parser::mark_of(t, j) is Comma {
            lemma_arguments(t, j + 1, list, d);
            if let Ok((all, k)) = parser::arguments(t, j + 1, list, d) {
                lemma_flat_concat(t, i, j + 1, k);
                assert(listed(list) =~= listed(args) + flat(t, i, j + 1));
                assert(listed(list) + flat(t, j + 1, k) + parser::ws_of(t, k, false) =~= listed(
                    args,
                ) + (flat(t, i, j + 1) + flat(t, j + 1, k)) + parser::ws_of(t, k, false));
            }
        }
    }
}

/// The text of rows and the beginning of another one.
pub open spec fn rows_listed(rows: Seq<Seq<ast::Tree>>, row: Seq<ast::Tree>) -> Seq<char> {
    (if rows.len() == 0 {
        Seq::empty()
    } else {
        print::joined_rows(rows) + seq![';']
    }) + listed(row)
}

/// What a further node in the last row adds to the text.
proof fn lemma_row_grown(rows: Seq<Seq<ast::Tree>>, row: Seq<ast::Tree>, f: ast::Tree)
    ensures
        rows_listed(rows, row.push(f)) == rows_listed(rows, row) + print::shown(f) + seq![','],
        print::joined_rows(rows.push(row.push(f))) == rows_listed(rows, row) + print::shown(f),
        rows_listed(rows.push(row.push(f)), Seq::empty()) == rows_listed(rows, row) + print::shown(
            f,
        ) + seq![';'],
{
    let list = row.push(f);
    lemma_joined_push(row, f);
    assert(rows.push(list).drop_last() =~= rows);
    assert(rows_listed(rows, list) =~= rows_listed(rows, row) + print::shown(f) + seq![',']);
    assert(print::joined_rows(rows.push(list)) =~= rows_listed(rows, row) + print::shown(f));
    assert(rows_listed(rows.push(list), Seq::empty()) =~= print::joined_rows(rows.push(list))
        + seq![';']);
}

#[verifier::spinoff_prover]
#[verifier::rlimit(60)]
proof fn lemma_array_rows(
    t: Seq<lexer::Tok>,
    i: int,
    rows: Seq<Seq<ast::Tree>>,
    row: Seq<ast::Tree>,
    d: nat,
)
    requires
        calls_open(t),
        0 <= i <= t.len(),
    ensures
        match parser::array_rows(t, i, rows, row, d) {
            Ok((all, j)) => i < j <= t.len() && print::joined_rows(all) + seq!['}'] == rows_listed(
                rows,
                row,
            ) + flat(t, i, j),
            Err(_) => true,
        },
    decreases parser::MAX_DEPTH - d, t.len() - i, 2int,
{
    lemma_expr(t, i, false, 1, d);
    if let Ok((e, j)) = parser::expr(t, i, false, 1, d) {
        let ws = parser::ws_of(t, j, false);
        let f = parser::trailed(e, ws);
        let list = row.push(f);
        lemma_trailed(e, ws);
        lemma_stretch_flat(t, i, j);
        lemma_row_grown(rows, row, f);
        let done = rows_listed(rows, row);
        assert(print::shown(f) == flat(t, i, j) + ws);
        if parser::mark_of(t, j) is Comma {
            lemma_array_rows(t, j + 1, rows, list, d);
            if let Ok((all, k)) = parser::array_rows(t, j + 1, rows, list, d) {
                lemma_flat_concat(t, i, j + 1, k);
                assert(rows_listed(rows, list) =~= done + flat(t, i, j + 1));
                assert(rows_listed(rows, list) + flat(t, j + 1, k) =~= done + (flat(t, i, j + 1)
                    + flat(t, j + 1, k)));
            }
        } else if parser::mark_of(t, j) is Semi {
            let none = Seq::<ast::Tree>::empty();
            lemma_array_rows(t, j + 1, rows.push(list), none, d);
            if let Ok((all, k)) = parser::array_rows(t, j + 1, rows.push(list), none, d) {
                lemma_flat_concat(t, i, j + 1, k);
                assert(rows_listed(rows.push(list), none) =~= done + flat(t, i, j + 1));
                assert(rows_listed(rows.push(list), none) + flat(t, j + 1, k) =~= done + (flat(
                    t,
                    i,
                    j + 1,
                ) + flat(t, j + 1, k)));
            }
        } else if parser::mark_of(t, j) is RBrace {
            assert(print::joined_rows(rows.push(list)) + seq!['}'] =~= done + flat(t, i, j + 1));
        }
    }
}

/// A tree prints the text of the tokens that it was read from.
pub proof fn lemma_tree_prints_tokens(t: Seq<lexer::Tok>)
    requires
        calls_open(t),
        ended(t),
    ensures
        match parser::tree_of(t) {
            Ok(e) => print::shown(e) == flat(t, 0, t.len() as int),
            Err(_) => true,
        },
{
    lemma_expr(t, 0, false, 1, 0);
    if let Ok((e, j)) = parser::expr(t, 0, false, 1, 0) {
        if parser::mark_of(t, j) is Eof {
            lemma_stretch_flat(t, 0, j);
            lemma_trailed(e, parser::ws_of(t, j, false));
            if j < t.len() {
                assert(j == t.len() - 1);
                assert(print::shown(parser::trailed(e, parser::ws_of(t, j, false))) =~= flat(
                    t,
                    0,
                    j + 1,
                ));
            } else {
                assert(print::shown(parser::trailed(e, parser::ws_of(t, j, false))) =~= flat(
                    t,
                    0,
                    j,
                ));
            }
        }
    }
}

/// Every reference and truth value from `i` on is written as it would be
/// printed: columns, `TRUE` and `FALSE` in capitals, rows without leading zeros.
pub open spec fn spelled(s: Seq<char>, i: int) -> bool
    decreases s.len() - i,
{
    let j = lexer::space_end(s, i);
    if j >= s.len() {
        true
    } else {
        match lexer::mark_at(s, j) {
            Err(_) => true,
            Ok((m, e)) => {
                &&& (m is Ref || m is Bool) ==> lexer::mark_text(m) == s.subrange(j, e)
                &&& i <= j < e <= s.len() ==> spelled(s, e)
            },
        }
    }
}

pub proof fn lemma_doubled_concat(a: Seq<char>, b: Seq<char>, q: char)
    ensures
        refs::doubled(a + b, q) == refs::doubled(a, q) + refs::doubled(b, q),
    decreases b.len(),
{
    if b.len() == 0 {
        assert(a + b =~= a);
        assert(refs::doubled(a, q) + refs::doubled(b, q) =~= refs::doubled(a, q));
    } else {
        assert((a + b).drop_last() =~= a + b.drop_last());
        lemma_doubled_concat(a, b.drop_last(), q);
        assert(refs::doubled(a + b, q) =~= refs::doubled(a, q) + refs::doubled(b, q));
    }
}

/// What stands in quotes is its text with the quotes doubled.
pub proof fn lemma_unquoted_text(s: Seq<char>, p: int, q: char)
    requires
        0 <= p <= s.len(),
    ensures
        match scan::unquoted(s, p, q) {
            Some((t, e)) => p < e <= s.len() && refs::doubled(t, q) + seq![q] == s.subrange(p, e),
            None => true,
        },
    decreases s.len() - p,
{
    if p < s.len() {
        if s[p] != q || scan::at(s, p + 1) == Some(q) {
            let w: int = if s[p] != q {
                1
            } else {
                2
            };
            lemma_unquoted_text(s, p + w, q);
            if let Some((u, e)) = scan::unquoted(s, p + w, q) {
                let one = seq![s[p]];
                lemma_doubled_concat(one, u, q);
                assert(one.drop_last() =~= Seq::<char>::empty());
                assert(refs::doubled(one, q) =~= s.subrange(p, p + w)) by {
                    reveal_with_fuel(refs::doubled, 2);
                }
                assert(refs::doubled(one + u, q) + seq![q] =~= s.subrange(p, p + w) + s.subrange(
                    p + w,
                    e,
                ));
                assert(s.subrange(p, p + w) + s.subrange(p + w, e) =~= s.subrange(p, e));
            }
        } else {
            assert(refs::doubled(Seq::empty(), q) + seq![q] =~= s.subrange(p, p + 1));
        }
    }
}

/// The text of a token is what stands in the formula.
pub(crate) proof fn lemma_mark_text(s: Seq<char>, i: int)
    requires
        0 <= i < s.len(),
    ensures
        match lexer::mark_at(s, i) {
            Ok((m, e)) => i < e <= s.len() && !(m is Eof) && ((m is Ref || m is Bool)
                || lexer::mark_text(m) == s.subrange(i, e)),
            Err(_) => true,
        },
{
    let c = s[i];
    lemma_unquoted_text(s, i + 1, '"');
    scan::lemma_ref_at(s, i);
    scan::lemma_name_end(s, i);
    if text::is_digit(c) || c == '.' {
        lexer::lemma_number_end(s, i);
    }
    if c == '"' {
        if let Some((t, e)) = scan::unquoted(s, i + 1, '"') {
            assert(print::string_text(t) =~= seq!['"'] + (refs::doubled(t, '"') + seq!['"']));
            assert(seq!['"'] + s.subrange(i + 1, e) =~= s.subrange(i, e));
        }
    } else if lexer::word_start(c) {
        if c == '#' {
            lemma_error_stands(s, i, 0);
        }
    } else if !(c == '.' && lexer::digit_at(s, i + 1)) {
        if let Some((m, n)) = lexer::punct(c, scan::at(s, i + 1)) {
            assert(lexer::mark_text(m) =~= s.subrange(i, i + n));
        }
    }
}

pub(crate) proof fn lemma_error_stands(s: Seq<char>, i: int, k: int)
    requires
        0 <= k,
    ensures
        match lexer::error_from(s, i, k) {
            Some(e) => scan::stands(s, i, e.spelling()) && e.spelling().len() > 0,
            None => true,
        },
    decreases 15 - k,
{
    if k < 15 {
        lexer::lemma_error_text(lexer::nth_error(k));
        lemma_error_stands(s, i, k + 1);
    }
}

/// The text of tokens behind one token.
pub(crate) proof fn lemma_flat_shift(x: lexer::Tok, t: Seq<lexer::Tok>, n: int)
    requires
        0 <= n <= t.len(),
    ensures
        flat(seq![x] + t, 0, n + 1) == x.ws + lexer::mark_text(x.mark) + flat(t, 0, n),
    decreases n,
{
    let u = seq![x] + t;
    if n == 0 {
        assert(flat(u, 0, 0) =~= Seq::<char>::empty());
        assert(flat(u, 0, 1) =~= x.ws + lexer::mark_text(x.mark) + flat(t, 0, 0));
    } else {
        lemma_flat_shift(x, t, n - 1);
        assert(u[n] == t[n - 1]);
        assert(flat(u, 0, n + 1) =~= x.ws + lexer::mark_text(x.mark) + flat(t, 0, n));
    }
}

/// The tokens of a text hold all of it, in order, up to how references and
/// truth values are spelled; they end with the end; a call opens at once.
#[verifier::spinoff_prover]
#[verifier::rlimit(60)]
pub proof fn lemma_tokens_tile(s: Seq<char>, i: int)
    requires
        0 <= i <= s.len(),
    ensures
        match lexer::tokens(s, i) {
            Ok(t) => {
                &&& ended(t)
                &&& calls_open(t)
                &&& spelled(s, i) ==> flat(t, 0, t.len() as int) == s.skip(i)
            },
            Err(_) => true,
        },
    decreases s.len() - i,
{
    lexer::lemma_space_end(s, i);
    let j = lexer::space_end(s, i);
    let ws = s.subrange(i, j);
    if j >= s.len() {
        let t = seq![lexer::Tok { mark: lexer::Mark::Eof, ws, pos: text::place(s, j) }];
        assert(flat(t, 0, 0) =~= Seq::<char>::empty());
        assert(flat(t, 0, 1) =~= s.skip(i));
    } else {
        lemma_mark_text(s, j);
        if let Ok((m, e)) = lexer::mark_at(s, j) {
            lemma_tokens_tile(s, e);
            if let Ok(rest) = lexer::tokens(s, e) {
                let x = lexer::Tok { mark: m, ws, pos: text::place(s, j) };
                let t = seq![x] + rest;
                assert(t.last() == rest.last());
                assert forall|k: int| 0 <= k < t.len() - 1 implies !((#[trigger] t[k]).mark is Eof) by {
                    if k > 0 {
                        assert(t[k] == rest[k - 1]);
                    }
                }
                assert forall|k: int|
                    #![trigger t[k]]
                    0 <= k < t.len() && t[k].mark is Name && t[k].mark->Name_1 implies k + 1
                    < t.len() && t[k + 1].mark is LParen && t[k + 1].ws.len() == 0 by {
                    if k > 0 {
                        assert(t[k] == rest[k - 1]);
                        assert(t[k + 1] == rest[k]);
                    } else {
                        lemma_call_opens(s, j);
                        assert(t[1] == rest[0]);
                    }
                }
                if spelled(s, i) {
                    lemma_flat_shift(x, rest, rest.len() as int);
                    assert(lexer::mark_text(m) == s.subrange(j, e));
                    assert(ws + s.subrange(j, e) + s.skip(e) =~= s.skip(i));
                }
            }
        }
    }
}

/// The token behind a called name is its parenthesis.
proof fn lemma_call_opens(s: Seq<char>, i: int)
    requires
        0 <= i < s.len(),
    ensures
        match lexer::mark_at(s, i) {
            Ok((m, e)) => m is Name && m->Name_1 ==> match lexer::tokens(s, e) {
                Ok(t) => t.len() > 0 && t[0].mark is LParen && t[0].ws.len() == 0,
                Err(_) => true,
            },
            Err(_) => true,
        },
{
    if let Ok((m, e)) = lexer::mark_at(s, i) {
        if m is Name && m->Name_1 {
            assert(scan::at(s, e) == Some('('));
            assert(lexer::space_end(s, e) == e);
            assert(lexer::mark_at(s, e) == Ok::<(lexer::Mark, int), crate::error::Error>(
                (lexer::Mark::LParen, e + 1),
            ));
        }
    }
}

/// Printing gives back the text that was read. Left out are formulas with
/// references or truth values that are spelled otherwise than they are printed;
/// these too read as the same tree once they were printed.
pub proof fn lemma_print_gives_back(s: Seq<char>)
    requires
        spelled(s, 0),
    ensures
        match parser::parsed(s) {
            Ok(e) => print::shown(e) == s,
            Err(_) => true,
        },
{
    lemma_tokens_tile(s, 0);
    if let Ok(t) = lexer::tokens(s, 0) {
        lemma_tree_prints_tokens(t);
        assert(s.skip(0) =~= s);
    }
}

} // verus!
