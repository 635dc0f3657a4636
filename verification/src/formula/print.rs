//! Printing a tree.
//!
//! Printing decides nothing: everything that was read is printed as it stood.
//! Only `TRUE`, `FALSE` and the letters of columns come out in capitals, and
//! numbers of rows without leading zeros.
use vstd::prelude::*;
use vstd::string::*;

use crate::formula::ast;
use crate::formula::ast::{Expr, ExprKind, UnaryOp};
use crate::formula::refs;

verus! {

/// A quoted text: quotes inside of it are doubled.
pub open spec fn string_text(s: Seq<char>) -> Seq<char> {
    seq!['"'] + refs::doubled(s, '"') + seq!['"']
}

pub open spec fn bool_text(b: bool) -> Seq<char> {
    if b {
        seq!['T', 'R', 'U', 'E']
    } else {
        seq!['F', 'A', 'L', 'S', 'E']
    }
}

pub open spec fn unary_text(op: UnaryOp) -> Seq<char> {
    match op {
        UnaryOp::Neg => seq!['-'],
        UnaryOp::Plus => seq!['+'],
    }
}

/// The text of a tree.
pub open spec fn shown(t: ast::Tree) -> Seq<char>
    decreases t, 1int,
{
    t.before + shape_shown(t.shape) + t.after
}

/// The text of a node without the white space around it.
pub open spec fn shape_shown(s: ast::Shape) -> Seq<char>
    decreases s, 0int,
{
    match s {
        ast::Shape::Num(raw) => raw,
        ast::Shape::Str(s) => string_text(s),
        ast::Shape::Bool(b) => bool_text(b),
        ast::Shape::Error(k) => k.spelling(),
        ast::Shape::Ref(r) => refs::ref_text(r),
        ast::Shape::Name(n) => n,
        ast::Shape::Func(name, args, ws) => name + seq!['('] + ws + joined(args) + seq![')'],
        ast::Shape::Unary(op, x) => unary_text(op) + shown(*x),
        ast::Shape::Percent(x) => shown(*x) + seq!['%'],
        ast::Shape::Binary(op, l, r, w) => shown(*l) + w + op.spelling() + shown(*r),
        ast::Shape::Union(items) => joined(items),
        ast::Shape::Paren(x) => seq!['('] + shown(*x) + seq![')'],
        ast::Shape::Array(rows) => seq!['{'] + joined_rows(rows) + seq!['}'],
        ast::Shape::Missing => Seq::empty(),
    }
}

/// The texts of nodes with commas between them.
pub open spec fn joined(s: Seq<ast::Tree>) -> Seq<char>
    decreases s, 2int,
{
    if s.len() == 0 {
        Seq::empty()
    } else if s.len() == 1 {
        shown(s.last())
    } else {
        joined(s.drop_last()) + seq![','] + shown(s.last())
    }
}

/// The rows of an array with semicolons between them.
pub open spec fn joined_rows(s: Seq<Seq<ast::Tree>>) -> Seq<char>
    decreases s, 3int,
{
    if s.len() == 0 {
        Seq::empty()
    } else if s.len() == 1 {
        joined(s.last())
    } else {
        joined_rows(s.drop_last()) + seq![';'] + joined(s.last())
    }
}

/// The text of a formula, without a leading `=`.
#[must_use]
pub fn print(e: &Expr) -> (r: String)
    ensures
        r@ == shown(e@),
{
    let mut out: String = String::new();
    write(e, &mut out);
    assert(out@ =~= shown(e@));
    out
}

#[verifier::spinoff_prover]
fn write(e: &Expr, out: &mut String)
    ensures
        final(out)@ == old(out)@ + shown(e@),
    decreases e, 1int,
{
    out.append(e.ws_before.as_str());
    write_kind(&e.kind, out);
    out.append(e.ws_after.as_str());
    proof {
        assert(e@.shape == ast::shape(e.kind));
        assert(out@ =~= old(out)@ + shown(e@));
    }
}

#[verifier::spinoff_prover]
#[verifier::rlimit(60)]
fn write_kind(k: &ExprKind, out: &mut String)
    ensures
        final(out)@ == old(out)@ + shape_shown(ast::shape(*k)),
    decreases k, 0int,
{
    match k {
        ExprKind::Num { raw } => out.append(raw.as_str()),
        ExprKind::Str(s) => write_string(s.as_str(), out),
        ExprKind::Bool(b) => {
            proof {
                reveal_strlit("TRUE");
                reveal_strlit("FALSE");
            }
            if *b {
                out.append("TRUE");
                assert("TRUE"@ =~= bool_text(true));
            } else {
                out.append("FALSE");
                assert("FALSE"@ =~= bool_text(false));
            }
        },
        ExprKind::Error(k) => out.append(k.text()),
        ExprKind::Ref(r) => r.write(out),
        ExprKind::Name(n) => out.append(n.as_str()),
        ExprKind::Missing => {
            assert(out@ =~= old(out)@ + Seq::<char>::empty());
        },
        ExprKind::Func { name, args, ws_inside } => {
            out.append(name.as_str());
            out.push('(');
            out.append(ws_inside.as_str());
            join(args, out);
            out.push(')');
            assert(out@ =~= old(out)@ + (name@ + seq!['('] + ws_inside@ + joined(
                ast::trees(args@),
            ) + seq![')']));
        },
        ExprKind::Unary { op, operand } => {
            match op {
                UnaryOp::Neg => out.push('-'),
                UnaryOp::Plus => out.push('+'),
            }
            write(operand, out);
            assert(out@ =~= old(out)@ + (unary_text(*op) + shown(operand@)));
        },
        ExprKind::Percent(x) => {
            write(x, out);
            out.push('%');
            assert(out@ =~= old(out)@ + (shown(x@) + seq!['%']));
        },
        ExprKind::Binary { op, lhs, rhs, ws_op } => {
            write(lhs, out);
            out.append(ws_op.as_str());
            out.append(op.text());
            write(rhs, out);
            assert(out@ =~= old(out)@ + (shown(lhs@) + ws_op@ + op.spelling() + shown(rhs@)));
        },
        ExprKind::Union(items) => join(items, out),
        ExprKind::Paren(x) => {
            out.push('(');
            write(x, out);
            out.push(')');
            assert(out@ =~= old(out)@ + (seq!['('] + shown(x@) + seq![')']));
        },
        ExprKind::Array(rows) => {
            out.push('{');
            join_rows(rows, out);
            out.push('}');
            assert(out@ =~= old(out)@ + (seq!['{'] + joined_rows(ast::tree_rows(rows@)) + seq![
                '}',
            ]));
        },
    }
}

fn join(items: &Vec<Expr>, out: &mut String)
    ensures
        final(out)@ == old(out)@ + joined(ast::trees(items@)),
    decreases items, 2int,
{
    let mut i: usize = 0;
    assert(items@.take(0) =~= Seq::<Expr>::empty());
    assert(out@ =~= old(out)@ + joined(ast::trees(items@.take(0))));
    while i < items.len()
        invariant
            i <= items@.len(),
            out@ == old(out)@ + joined(ast::trees(items@.take(i as int))),
        decreases items@.len() - i,
    {
        if i > 0 {
            out.push(',');
        }
        write(&items[i], out);
        proof {
            let s = items@.take(i + 1);
            assert(s.drop_last() =~= items@.take(i as int));
            assert(ast::trees(s).drop_last() =~= ast::trees(items@.take(i as int)));
            ast::lemma_trees(s);
            assert(out@ =~= old(out)@ + joined(ast::trees(s)));
        }
        i = i + 1;
    }
    assert(items@.take(i as int) =~= items@);
}

fn join_rows(rows: &Vec<Vec<Expr>>, out: &mut String)
    ensures
        final(out)@ == old(out)@ + joined_rows(ast::tree_rows(rows@)),
    decreases rows, 3int,
{
    let mut i: usize = 0;
    assert(rows@.take(0) =~= Seq::<Vec<Expr>>::empty());
    assert(out@ =~= old(out)@ + joined_rows(ast::tree_rows(rows@.take(0))));
    while i < rows.len()
        invariant
            i <= rows@.len(),
            out@ == old(out)@ + joined_rows(ast::tree_rows(rows@.take(i as int))),
        decreases rows@.len() - i,
    {
        if i > 0 {
            out.push(';');
        }
        join(&rows[i], out);
        proof {
            let s = rows@.take(i + 1);
            assert(s.drop_last() =~= rows@.take(i as int));
            assert(ast::tree_rows(s).drop_last() =~= ast::tree_rows(rows@.take(i as int)));
            ast::lemma_tree_rows(s);
            assert(out@ =~= old(out)@ + joined_rows(ast::tree_rows(s)));
        }
        i = i + 1;
    }
    assert(rows@.take(i as int) =~= rows@);
}

fn write_string(s: &str, out: &mut String)
    ensures
        final(out)@ == old(out)@ + string_text(s@),
{
    out.push('"');
    refs::push_doubled(s, '"', out);
    out.push('"');
    assert(out@ =~= old(out)@ + string_text(s@));
}

} // verus!
