//! The tree of a formula.
//!
//! A node keeps the white space around it, so that printing gives back the text
//! that was read, and not an equivalent one. White space always belongs to the
//! innermost node whose edge touches it.
//!
//! White space between two operands is an operator, [`BinOp::Intersect`], and
//! is kept in the node of the operator.
use vstd::prelude::*;
use vstd::string::*;

use crate::formula::refs;
use crate::formula::refs::{Reference, Shift};

verus! {

/// An error value. `#REF!` is not among them: it may have a sheet name and is a
/// reference.
#[derive(Debug, Clone, Copy, PartialEq, Eq, Hash, Structural)]
#[non_exhaustive]
pub enum ErrKind {
    Div0,
    Na,
    Value,
    Name,
    Null,
    Num,
    GettingData,
    Spill,
    Calc,
    Field,
    Blocked,
    Connect,
    Unknown,
    Busy,
    External,
}

impl ErrKind {
    /// The error as it is written.
    pub open spec fn spelling(self) -> Seq<char> {
        match self {
            ErrKind::Div0 => "#DIV/0!"@,
            ErrKind::Na => "#N/A"@,
            ErrKind::Value => "#VALUE!"@,
            ErrKind::Name => "#NAME?"@,
            ErrKind::Null => "#NULL!"@,
            ErrKind::Num => "#NUM!"@,
            ErrKind::GettingData => "#GETTING_DATA"@,
            ErrKind::Spill => "#SPILL!"@,
            ErrKind::Calc => "#CALC!"@,
            ErrKind::Field => "#FIELD!"@,
            ErrKind::Blocked => "#BLOCKED!"@,
            ErrKind::Connect => "#CONNECT!"@,
            ErrKind::Unknown => "#UNKNOWN!"@,
            ErrKind::Busy => "#BUSY!"@,
            ErrKind::External => "#EXTERNAL!"@,
        }
    }

    /// The error as it is written.
    #[must_use]
    pub fn text(self) -> (r: &'static str)
        ensures
            r@ == self.spelling(),
    {
        match self {
            ErrKind::Div0 => "#DIV/0!",
            ErrKind::Na => "#N/A",
            ErrKind::Value => "#VALUE!",
            ErrKind::Name => "#NAME?",
            ErrKind::Null => "#NULL!",
            ErrKind::Num => "#NUM!",
            ErrKind::GettingData => "#GETTING_DATA",
            ErrKind::Spill => "#SPILL!",
            ErrKind::Calc => "#CALC!",
            ErrKind::Field => "#FIELD!",
            ErrKind::Blocked => "#BLOCKED!",
            ErrKind::Connect => "#CONNECT!",
            ErrKind::Unknown => "#UNKNOWN!",
            ErrKind::Busy => "#BUSY!",
            ErrKind::External => "#EXTERNAL!",
        }
    }
}

/// A prefix operator.
#[derive(Debug, Clone, Copy, PartialEq, Eq, Hash, Structural)]
pub enum UnaryOp {
    /// Minus. Binds tighter than a power: `-2^2` is 4.
    Neg,
    /// Plus. Changes no value, but is written.
    Plus,
}

/// An infix operator.
#[derive(Debug, Clone, Copy, PartialEq, Eq, Hash, Structural)]
pub enum BinOp {
    /// `:` makes a range of two references.
    Range,
    /// White space: the intersection of two ranges.
    Intersect,
    Pow,
    Mul,
    Div,
    Add,
    Sub,
    /// `&` joins texts.
    Concat,
    Eq,
    Ne,
    Lt,
    Le,
    Gt,
    Ge,
}

impl BinOp {
    /// The operator as it is written.
    pub open spec fn spelling(self) -> Seq<char> {
        match self {
            BinOp::Range => seq![':'],
            BinOp::Intersect => Seq::empty(),
            BinOp::Pow => seq!['^'],
            BinOp::Mul => seq!['*'],
            BinOp::Div => seq!['/'],
            BinOp::Add => seq!['+'],
            BinOp::Sub => seq!['-'],
            BinOp::Concat => seq!['&'],
            BinOp::Eq => seq!['='],
            BinOp::Ne => seq!['<', '>'],
            BinOp::Lt => seq!['<'],
            BinOp::Le => seq!['<', '='],
            BinOp::Gt => seq!['>'],
            BinOp::Ge => seq!['>', '='],
        }
    }

    /// The operator as it is written. That of [`BinOp::Intersect`] is empty:
    /// there the operator is the white space itself.
    #[must_use]
    pub fn text(self) -> (r: &'static str)
        ensures
            r@ == self.spelling(),
    {
        proof {
            reveal_strlit(":");
            reveal_strlit("");
            reveal_strlit("^");
            reveal_strlit("*");
            reveal_strlit("/");
            reveal_strlit("+");
            reveal_strlit("-");
            reveal_strlit("&");
            reveal_strlit("=");
            reveal_strlit("<>");
            reveal_strlit("<");
            reveal_strlit("<=");
            reveal_strlit(">");
            reveal_strlit(">=");
        }
        let r: &'static str = match self {
            BinOp::Range => ":",
            BinOp::Intersect => "",
            BinOp::Pow => "^",
            BinOp::Mul => "*",
            BinOp::Div => "/",
            BinOp::Add => "+",
            BinOp::Sub => "-",
            BinOp::Concat => "&",
            BinOp::Eq => "=",
            BinOp::Ne => "<>",
            BinOp::Lt => "<",
            BinOp::Le => "<=",
            BinOp::Gt => ">",
            BinOp::Ge => ">=",
        };
        assert(r@ =~= self.spelling());
        r
    }
}

/// A node: what it is, and the white space around it.
#[derive(Debug, PartialEq)]
pub struct Expr {
    pub kind: ExprKind,
    /// The white space right before the first token of the node.
    pub ws_before: String,
    /// The white space right behind the last token of the node.
    pub ws_after: String,
}

/// What a node is.
#[derive(Debug, PartialEq)]
#[non_exhaustive]
pub enum ExprKind {
    /// A number as it was written: `1`, `1.` and `1E+0` are one number and
    /// three texts.
    Num { raw: String },
    /// A text, with its doubled quotes undone.
    Str(String),
    Bool(bool),
    Error(ErrKind),
    Ref(Reference),
    /// A defined name.
    Name(String),
    /// A call. The name stands as it was written.
    Func {
        name: String,
        args: Vec<Expr>,
        /// The white space between parentheses without an argument: `TODAY( )`.
        ws_inside: String,
    },
    Unary { op: UnaryOp, operand: Box<Expr> },
    /// The postfix `%`.
    Percent(Box<Expr>),
    Binary {
        op: BinOp,
        lhs: Box<Expr>,
        rhs: Box<Expr>,
        /// The white space before the operator; for [`BinOp::Intersect`] the
        /// operator itself.
        ws_op: String,
    },
    /// Ranges joined by commas, inside of parentheses: `(A1,B1)`. Between the
    /// parentheses of a call the comma separates arguments.
    Union(Vec<Expr>),
    /// Parentheses.
    Paren(Box<Expr>),
    /// `{1,2;3,4}`: rows, and what stands in them.
    Array(Vec<Vec<Expr>>),
    /// An argument left out: `IF(A1,,B1)` has three.
    Missing,
}

/// A tree of texts.
#[verifier::ext_equal]
pub struct Tree {
    pub shape: Shape,
    pub before: Seq<char>,
    pub after: Seq<char>,
}

/// What a node of a tree of texts is.
#[verifier::ext_equal]
pub enum Shape {
    Num(Seq<char>),
    Str(Seq<char>),
    Bool(bool),
    Error(ErrKind),
    Ref(refs::RefText),
    Name(Seq<char>),
    Func(Seq<char>, Seq<Tree>, Seq<char>),
    Unary(UnaryOp, Box<Tree>),
    Percent(Box<Tree>),
    Binary(BinOp, Box<Tree>, Box<Tree>, Seq<char>),
    Union(Seq<Tree>),
    Paren(Box<Tree>),
    Array(Seq<Seq<Tree>>),
    Missing,
}

/// A node without white space around it.
pub open spec fn bare(shape: Shape) -> Tree {
    Tree { shape, before: Seq::empty(), after: Seq::empty() }
}

/// The tree of a node.
pub open spec fn tree(e: Expr) -> Tree
    decreases e,
{
    Tree { shape: shape(e.kind), before: e.ws_before@, after: e.ws_after@ }
}

/// What a node is, as texts.
pub open spec fn shape(k: ExprKind) -> Shape
    decreases k,
{
    match k {
        ExprKind::Num { raw } => Shape::Num(raw@),
        ExprKind::Str(s) => Shape::Str(s@),
        ExprKind::Bool(b) => Shape::Bool(b),
        ExprKind::Error(e) => Shape::Error(e),
        ExprKind::Ref(r) => Shape::Ref(r@),
        ExprKind::Name(n) => Shape::Name(n@),
        ExprKind::Func { name, args, ws_inside } => Shape::Func(
            name@,
            trees(args@),
            ws_inside@,
        ),
        ExprKind::Unary { op, operand } => Shape::Unary(op, Box::new(tree(*operand))),
        ExprKind::Percent(x) => Shape::Percent(Box::new(tree(*x))),
        ExprKind::Binary { op, lhs, rhs, ws_op } => Shape::Binary(
            op,
            Box::new(tree(*lhs)),
            Box::new(tree(*rhs)),
            ws_op@,
        ),
        ExprKind::Union(items) => Shape::Union(trees(items@)),
        ExprKind::Paren(x) => Shape::Paren(Box::new(tree(*x))),
        ExprKind::Array(rows) => Shape::Array(tree_rows(rows@)),
        ExprKind::Missing => Shape::Missing,
    }
}

pub open spec fn trees(s: Seq<Expr>) -> Seq<Tree>
    decreases s,
{
    if s.len() == 0 {
        Seq::empty()
    } else {
        trees(s.drop_last()).push(tree(s.last()))
    }
}

pub open spec fn tree_rows(s: Seq<Vec<Expr>>) -> Seq<Seq<Tree>>
    decreases s,
{
    if s.len() == 0 {
        Seq::empty()
    } else {
        tree_rows(s.drop_last()).push(trees(s.last()@))
    }
}

pub proof fn lemma_trees(s: Seq<Expr>)
    ensures
        trees(s).len() == s.len(),
        forall|i: int| 0 <= i < s.len() ==> #[trigger] trees(s)[i] == tree(s[i]),
    decreases s.len(),
{
    if s.len() > 0 {
        lemma_trees(s.drop_last());
        assert forall|i: int| 0 <= i < s.len() implies #[trigger] trees(s)[i] == tree(s[i]) by {
            if i < s.len() - 1 {
                assert(trees(s.drop_last())[i] == tree(s.drop_last()[i]));
            }
        }
    }
}

pub proof fn lemma_tree_rows(s: Seq<Vec<Expr>>)
    ensures
        tree_rows(s).len() == s.len(),
        forall|i: int| 0 <= i < s.len() ==> #[trigger] tree_rows(s)[i] == trees(s[i]@),
    decreases s.len(),
{
    if s.len() > 0 {
        lemma_tree_rows(s.drop_last());
        assert forall|i: int| 0 <= i < s.len() implies #[trigger] tree_rows(s)[i] == trees(
            s[i]@,
        ) by {
            if i < s.len() - 1 {
                assert(tree_rows(s.drop_last())[i] == trees(s.drop_last()[i]@));
            }
        }
    }
}

/// The tree with `ws` behind its innermost node on the right.
pub open spec fn with_trailing(t: Tree, ws: Seq<char>) -> Tree
    decreases t,
{
    match t.shape {
        Shape::Binary(op, l, r, w) => Tree {
            shape: Shape::Binary(op, l, Box::new(with_trailing(*r, ws)), w),
            ..t
        },
        Shape::Unary(op, x) => Tree {
            shape: Shape::Unary(op, Box::new(with_trailing(*x, ws))),
            ..t
        },
        Shape::Union(items) => if items.len() > 0 {
            Tree {
                shape: Shape::Union(items.drop_last().push(with_trailing(items.last(), ws))),
                ..t
            }
        } else {
            Tree { after: ws, ..t }
        },
        _ => Tree { after: ws, ..t },
    }
}

/// The tree with `ws` before its innermost node on the left.
pub open spec fn with_leading(t: Tree, ws: Seq<char>) -> Tree
    decreases t,
{
    match t.shape {
        Shape::Binary(op, l, r, w) => Tree {
            shape: Shape::Binary(op, Box::new(with_leading(*l, ws)), r, w),
            ..t
        },
        Shape::Percent(x) => Tree {
            shape: Shape::Percent(Box::new(with_leading(*x, ws))),
            ..t
        },
        Shape::Union(items) => if items.len() > 0 {
            Tree {
                shape: Shape::Union(items.update(0, with_leading(items[0], ws))),
                ..t
            }
        } else {
            Tree { before: ws, ..t }
        },
        _ => Tree { before: ws, ..t },
    }
}

impl Expr {
    pub open spec fn view(&self) -> Tree {
        tree(*self)
    }

    /// A node without white space around it.
    #[must_use]
    pub fn new(kind: ExprKind) -> (r: Self)
        ensures
            r@ == bare(shape(kind)),
    {
        let r = Expr { kind, ws_before: String::new(), ws_after: String::new() };
        assert(r@ =~= bare(shape(kind)));
        r
    }

    #[must_use]
    pub fn str_lit(s: &str) -> (r: Self)
        ensures
            r@ == bare(Shape::Str(s@)),
    {
        Expr::new(ExprKind::Str(s.to_owned()))
    }

    #[must_use]
    pub fn reference(r: Reference) -> (x: Self)
        ensures
            x@ == bare(Shape::Ref(r@)),
    {
        Expr::new(ExprKind::Ref(r))
    }

    #[must_use]
    pub fn call(name: &str, args: Vec<Expr>) -> (r: Self)
        ensures
            r@ == bare(Shape::Func(name@, trees(args@), Seq::empty())),
    {
        let ws_inside: String = String::new();
        assert(ws_inside@ =~= Seq::<char>::empty());
        Expr::new(ExprKind::Func { name: name.to_owned(), args, ws_inside })
    }

    #[must_use]
    pub fn binary(op: BinOp, lhs: Expr, rhs: Expr) -> (r: Self)
        ensures
            r@ == bare(
                Shape::Binary(
                    op,
                    Box::new(lhs@),
                    Box::new(rhs@),
                    if op is Intersect {
                        seq![' ']
                    } else {
                        Seq::empty()
                    },
                ),
            ),
    {
        proof {
            reveal_strlit(" ");
        }
        let ws_op: String = if op == BinOp::Intersect {
            " ".to_owned()
        } else {
            String::new()
        };
        assert(op is Intersect ==> ws_op@ =~= seq![' ']);
        assert(!(op is Intersect) ==> ws_op@ =~= Seq::empty());
        Expr::new(ExprKind::Binary { op, lhs: Box::new(lhs), rhs: Box::new(rhs), ws_op })
    }

    #[must_use]
    pub fn paren(inner: Expr) -> (r: Self)
        ensures
            r@ == bare(Shape::Paren(Box::new(inner@))),
    {
        Expr::new(ExprKind::Paren(Box::new(inner)))
    }

    /// The node with the white space that stood before it.
    #[must_use]
    pub fn with_ws_before(self, ws: &str) -> (r: Self)
        ensures
            r@ == (Tree { before: ws@, ..self@ }),
    {
        Expr { kind: self.kind, ws_before: ws.to_owned(), ws_after: self.ws_after }
    }

    /// Puts white space behind the innermost node on the right.
    pub fn set_trailing_ws(&mut self, ws: &str)
        ensures
            final(self)@ == with_trailing(old(self)@, ws@),
        decreases *old(self),
    {
        let ghost was = *self;
        match &mut self.kind {
            ExprKind::Binary { op, lhs, rhs, ws_op } => {
                rhs.set_trailing_ws(ws);
            },
            ExprKind::Unary { op, operand } => {
                operand.set_trailing_ws(ws);
            },
            ExprKind::Union(items) => {
                let n: usize = items.len();
                if n > 0 {
                    let ghost list = items@;
                    items[n - 1].set_trailing_ws(ws);
                    proof {
                        assert(items@.drop_last() =~= list.drop_last());
                        assert(trees(items@) =~= trees(list).drop_last().push(
                            with_trailing(trees(list).last(), ws@),
                        ));
                    }
                } else {
                    self.ws_after = ws.to_owned();
                }
            },
            _ => {
                self.ws_after = ws.to_owned();
            },
        }
        proof {
            assert(tree(was).shape == shape(was.kind));
            assert(tree(*self).shape == shape(self.kind));
        }
    }

    /// Puts white space before the innermost node on the left.
    pub fn set_leading_ws(&mut self, ws: &str)
        ensures
            final(self)@ == with_leading(old(self)@, ws@),
        decreases *old(self),
    {
        let ghost was = *self;
        match &mut self.kind {
            ExprKind::Binary { op, lhs, rhs, ws_op } => {
                lhs.set_leading_ws(ws);
            },
            ExprKind::Percent(operand) => {
                operand.set_leading_ws(ws);
            },
            ExprKind::Union(items) => {
                let n: usize = items.len();
                if n > 0 {
                    let ghost list = items@;
                    proof {
                        lemma_trees(list);
                    }
                    items[0].set_leading_ws(ws);
                    proof {
                        lemma_trees(items@);
                        assert(trees(items@) =~= trees(list).update(
                            0,
                            with_leading(trees(list)[0], ws@),
                        ));
                    }
                } else {
                    self.ws_before = ws.to_owned();
                }
            },
            _ => {
                self.ws_before = ws.to_owned();
            },
        }
        proof {
            assert(tree(was).shape == shape(was.kind));
            assert(tree(*self).shape == shape(self.kind));
        }
    }
}

fn list_copy(items: &Vec<Expr>) -> (r: Vec<Expr>)
    ensures
        trees(r@) == trees(items@),
    decreases items,
{
    let mut r: Vec<Expr> = Vec::new();
    let mut i: usize = 0;
    assert(items@.take(0) =~= Seq::<Expr>::empty());
    assert(trees(r@) =~= trees(items@.take(0)));
    while i < items.len()
        invariant
            i <= items@.len(),
            trees(r@) == trees(items@.take(i as int)),
        decreases items@.len() - i,
    {
        let ghost before = r@;
        r.push(items[i].copy());
        proof {
            assert(r@.drop_last() =~= before);
            assert(items@.take(i + 1).drop_last() =~= items@.take(i as int));
        }
        i = i + 1;
    }
    assert(items@.take(i as int) =~= items@);
    r
}

fn rows_copy(rows: &Vec<Vec<Expr>>) -> (r: Vec<Vec<Expr>>)
    ensures
        tree_rows(r@) == tree_rows(rows@),
    decreases rows,
{
    let mut r: Vec<Vec<Expr>> = Vec::new();
    let mut i: usize = 0;
    assert(rows@.take(0) =~= Seq::<Vec<Expr>>::empty());
    assert(tree_rows(r@) =~= tree_rows(rows@.take(0)));
    while i < rows.len()
        invariant
            i <= rows@.len(),
            tree_rows(r@) == tree_rows(rows@.take(i as int)),
        decreases rows@.len() - i,
    {
        let ghost before = r@;
        r.push(list_copy(&rows[i]));
        proof {
            assert(r@.drop_last() =~= before);
            assert(rows@.take(i + 1).drop_last() =~= rows@.take(i as int));
        }
        i = i + 1;
    }
    assert(rows@.take(i as int) =~= rows@);
    r
}

fn kind_copy(k: &ExprKind) -> (r: ExprKind)
    ensures
        shape(r) == shape(*k),
    decreases k,
{
    match k {
        ExprKind::Num { raw } => ExprKind::Num { raw: raw.as_str().to_owned() },
        ExprKind::Str(s) => ExprKind::Str(s.as_str().to_owned()),
        ExprKind::Bool(b) => ExprKind::Bool(*b),
        ExprKind::Error(e) => ExprKind::Error(*e),
        ExprKind::Ref(r) => ExprKind::Ref(r.copy()),
        ExprKind::Name(n) => ExprKind::Name(n.as_str().to_owned()),
        ExprKind::Func { name, args, ws_inside } => ExprKind::Func {
            name: name.as_str().to_owned(),
            args: list_copy(args),
            ws_inside: ws_inside.as_str().to_owned(),
        },
        ExprKind::Unary { op, operand } => ExprKind::Unary {
            op: *op,
            operand: Box::new(operand.copy()),
        },
        ExprKind::Percent(x) => ExprKind::Percent(Box::new(x.copy())),
        ExprKind::Binary { op, lhs, rhs, ws_op } => ExprKind::Binary {
            op: *op,
            lhs: Box::new(lhs.copy()),
            rhs: Box::new(rhs.copy()),
            ws_op: ws_op.as_str().to_owned(),
        },
        ExprKind::Union(items) => ExprKind::Union(list_copy(items)),
        ExprKind::Paren(x) => ExprKind::Paren(Box::new(x.copy())),
        ExprKind::Array(rows) => ExprKind::Array(rows_copy(rows)),
        ExprKind::Missing => ExprKind::Missing,
    }
}

impl Expr {
    /// The same tree once more.
    fn copy(&self) -> (r: Self)
        ensures
            r@ == self@,
        decreases self,
    {
        let r = Expr {
            kind: kind_copy(&self.kind),
            ws_before: self.ws_before.as_str().to_owned(),
            ws_after: self.ws_after.as_str().to_owned(),
        };
        assert(r@ == tree(r) && self@ == tree(*self));
        r
    }
}

impl Clone for Expr {
    fn clone(&self) -> (r: Self)
        ensures
            r@ == self@,
    {
        self.copy()
    }
}

impl Clone for ExprKind {
    fn clone(&self) -> (r: Self)
        ensures
            shape(r) == shape(*self),
    {
        kind_copy(self)
    }
}

/// The nodes of a tree, a parent before its children, children in their order.
pub open spec fn nodes(t: Tree) -> Seq<Tree>
    decreases t, 0int,
{
    seq![t] + (match t.shape {
        Shape::Func(_, args, _) => nodes_of(args),
        Shape::Union(items) => nodes_of(items),
        Shape::Unary(_, x) => nodes(*x),
        Shape::Percent(x) => nodes(*x),
        Shape::Paren(x) => nodes(*x),
        Shape::Binary(_, l, r, _) => nodes(*l) + nodes(*r),
        Shape::Array(rows) => nodes_of_rows(rows),
        _ => Seq::empty(),
    })
}

pub open spec fn nodes_of(s: Seq<Tree>) -> Seq<Tree>
    decreases s, 1int,
{
    if s.len() == 0 {
        Seq::empty()
    } else {
        nodes_of(s.drop_last()) + nodes(s.last())
    }
}

pub open spec fn nodes_of_rows(s: Seq<Seq<Tree>>) -> Seq<Tree>
    decreases s, 2int,
{
    if s.len() == 0 {
        Seq::empty()
    } else {
        nodes_of_rows(s.drop_last()) + nodes_of(s.last())
    }
}

/// The references among nodes.
pub open spec fn refs_among(s: Seq<Tree>) -> Seq<refs::RefText>
    decreases s.len(),
{
    if s.len() == 0 {
        Seq::empty()
    } else {
        match s.last().shape {
            Shape::Ref(r) => refs_among(s.drop_last()).push(r),
            _ => refs_among(s.drop_last()),
        }
    }
}

/// The trees of a list of nodes.
pub open spec fn seen(s: Seq<&Expr>) -> Seq<Tree> {
    s.map_values(|e: &Expr| tree(*e))
}

/// The texts of a list of references.
pub open spec fn ref_texts(s: Seq<&Reference>) -> Seq<refs::RefText> {
    s.map_values(|r: &Reference| r@)
}

fn walk_into<'a>(e: &'a Expr, out: &mut Vec<&'a Expr>)
    ensures
        seen(final(out)@) == seen(old(out)@) + nodes(e@),
    decreases e,
{
    out.push(e);
    let ghost first = seen(out@);
    assert(first =~= seen(old(out)@).push(e@));
    match &e.kind {
        ExprKind::Func { name, args, ws_inside } => walk_list(args, out),
        ExprKind::Union(items) => walk_list(items, out),
        ExprKind::Unary { op, operand } => walk_into(operand, out),
        ExprKind::Percent(x) => walk_into(x, out),
        ExprKind::Paren(x) => walk_into(x, out),
        ExprKind::Binary { op, lhs, rhs, ws_op } => {
            walk_into(lhs, out);
            walk_into(rhs, out);
        },
        ExprKind::Array(rows) => walk_rows(rows, out),
        _ => {},
    }
    proof {
        assert(e@.shape == shape(e.kind));
        assert(seen(out@) =~= seen(old(out)@) + nodes(e@));
    }
}

fn walk_list<'a>(items: &'a Vec<Expr>, out: &mut Vec<&'a Expr>)
    ensures
        seen(final(out)@) == seen(old(out)@) + nodes_of(trees(items@)),
    decreases items,
{
    let mut i: usize = 0;
    assert(items@.take(0) =~= Seq::<Expr>::empty());
    assert(seen(out@) =~= seen(old(out)@) + nodes_of(trees(items@.take(0))));
    while i < items.len()
        invariant
            i <= items@.len(),
            seen(out@) == seen(old(out)@) + nodes_of(trees(items@.take(i as int))),
        decreases items@.len() - i,
    {
        walk_into(&items[i], out);
        proof {
            let s = items@.take(i + 1);
            assert(s.drop_last() =~= items@.take(i as int));
            assert(trees(s).drop_last() =~= trees(items@.take(i as int)));
            assert(seen(out@) =~= seen(old(out)@) + nodes_of(trees(s)));
        }
        i = i + 1;
    }
    assert(items@.take(i as int) =~= items@);
}

fn walk_rows<'a>(rows: &'a Vec<Vec<Expr>>, out: &mut Vec<&'a Expr>)
    ensures
        seen(final(out)@) == seen(old(out)@) + nodes_of_rows(tree_rows(rows@)),
    decreases rows,
{
    let mut i: usize = 0;
    assert(rows@.take(0) =~= Seq::<Vec<Expr>>::empty());
    assert(seen(out@) =~= seen(old(out)@) + nodes_of_rows(tree_rows(rows@.take(0))));
    while i < rows.len()
        invariant
            i <= rows@.len(),
            seen(out@) == seen(old(out)@) + nodes_of_rows(tree_rows(rows@.take(i as int))),
        decreases rows@.len() - i,
    {
        walk_list(&rows[i], out);
        proof {
            let s = rows@.take(i + 1);
            assert(s.drop_last() =~= rows@.take(i as int));
            assert(tree_rows(s).drop_last() =~= tree_rows(rows@.take(i as int)));
            assert(seen(out@) =~= seen(old(out)@) + nodes_of_rows(tree_rows(s)));
        }
        i = i + 1;
    }
    assert(rows@.take(i as int) =~= rows@);
}

/// How references are moved.
#[derive(Debug, Clone, Copy)]
pub enum Move<'a> {
    /// Rows or columns were inserted or deleted.
    Shift(Shift<'a>),
    /// The formula goes to another cell.
    Translate { d_col: i64, d_row: i64 },
}

/// A reference after a move.
pub open spec fn moved(r: refs::RefText, m: Move<'_>) -> refs::RefText {
    match m {
        Move::Shift(sh) => if sh.count > 0 && sh.concerns(r.sheet) {
            refs::RefText { body: refs::shifted(r.body, sh.axis, sh.edit()), ..r }
        } else {
            r
        },
        Move::Translate { d_col, d_row } => refs::RefText {
            body: refs::translated(r.body, d_col, d_row),
            ..r
        },
    }
}

/// A tree with all its references moved and everything else as it was.
pub open spec fn moved_tree(t: Tree, m: Move<'_>) -> Tree
    decreases t, 0int,
{
    Tree {
        shape: match t.shape {
            Shape::Ref(r) => Shape::Ref(moved(r, m)),
            Shape::Func(name, args, ws) => Shape::Func(name, moved_trees(args, m), ws),
            Shape::Union(items) => Shape::Union(moved_trees(items, m)),
            Shape::Unary(op, x) => Shape::Unary(op, Box::new(moved_tree(*x, m))),
            Shape::Percent(x) => Shape::Percent(Box::new(moved_tree(*x, m))),
            Shape::Paren(x) => Shape::Paren(Box::new(moved_tree(*x, m))),
            Shape::Binary(op, l, r, w) => Shape::Binary(
                op,
                Box::new(moved_tree(*l, m)),
                Box::new(moved_tree(*r, m)),
                w,
            ),
            Shape::Array(rows) => Shape::Array(moved_rows(rows, m)),
            other => other,
        },
        ..t
    }
}

pub open spec fn moved_trees(s: Seq<Tree>, m: Move<'_>) -> Seq<Tree>
    decreases s, 1int,
{
    if s.len() == 0 {
        Seq::empty()
    } else {
        moved_trees(s.drop_last(), m).push(moved_tree(s.last(), m))
    }
}

pub open spec fn moved_rows(s: Seq<Seq<Tree>>, m: Move<'_>) -> Seq<Seq<Tree>>
    decreases s, 2int,
{
    if s.len() == 0 {
        Seq::empty()
    } else {
        moved_rows(s.drop_last(), m).push(moved_trees(s.last(), m))
    }
}

fn move_list(items: &mut Vec<Expr>, m: Move<'_>) -> (r: bool)
    ensures
        trees(final(items)@) == moved_trees(trees(old(items)@), m),
        r == (trees(final(items)@) != trees(old(items)@)),
    decreases *old(items),
{
    let ghost list = items@;
    let mut changed: bool = false;
    let mut i: usize = 0;
    let n: usize = items.len();
    while i < n
        invariant
            i <= n,
            items@.len() == n,
            list.len() == n,
            list == old(items)@,
            forall|k: int| i <= k < n ==> items@[k] == list[k],
            trees(items@.take(i as int)) == moved_trees(trees(list.take(i as int)), m),
            changed == (trees(items@.take(i as int)) != trees(list.take(i as int))),
        decreases n - i,
    {
        let ghost before = items@;
        assert(decreases_to!(*old(items) => old(items)@[i as int]));
        let c: bool = items[i].visit_refs_mut(m);
        changed = changed || c;
        proof {
            let s = items@.take(i + 1);
            let t = list.take(i + 1);
            assert(s.drop_last() =~= before.take(i as int));
            assert(t.drop_last() =~= list.take(i as int));
            assert(trees(t).drop_last() =~= trees(list.take(i as int)));
            assert(trees(s).drop_last() =~= trees(before.take(i as int)));
            if trees(s) == trees(t) {
                assert(trees(s).drop_last() == trees(t).drop_last());
                assert(trees(s).last() == trees(t).last());
            }
        }
        i = i + 1;
    }
    assert(items@.take(n as int) =~= items@);
    assert(list.take(n as int) =~= list);
    changed
}

fn move_rows(rows: &mut Vec<Vec<Expr>>, m: Move<'_>) -> (r: bool)
    ensures
        tree_rows(final(rows)@) == moved_rows(tree_rows(old(rows)@), m),
        r == (tree_rows(final(rows)@) != tree_rows(old(rows)@)),
    decreases *old(rows),
{
    let ghost list = rows@;
    let mut changed: bool = false;
    let mut i: usize = 0;
    let n: usize = rows.len();
    while i < n
        invariant
            i <= n,
            rows@.len() == n,
            list.len() == n,
            list == old(rows)@,
            forall|k: int| i <= k < n ==> rows@[k] == list[k],
            tree_rows(rows@.take(i as int)) == moved_rows(tree_rows(list.take(i as int)), m),
            changed == (tree_rows(rows@.take(i as int)) != tree_rows(list.take(i as int))),
        decreases n - i,
    {
        let ghost before = rows@;
        assert(decreases_to!(*old(rows) => old(rows)@[i as int]));
        let c: bool = move_list(&mut rows[i], m);
        changed = changed || c;
        proof {
            let s = rows@.take(i + 1);
            let t = list.take(i + 1);
            assert(s.drop_last() =~= before.take(i as int));
            assert(t.drop_last() =~= list.take(i as int));
            assert(tree_rows(t).drop_last() =~= tree_rows(list.take(i as int)));
            assert(tree_rows(s).drop_last() =~= tree_rows(before.take(i as int)));
            if tree_rows(s) == tree_rows(t) {
                assert(tree_rows(s).drop_last() == tree_rows(t).drop_last());
                assert(tree_rows(s).last() == tree_rows(t).last());
            }
        }
        i = i + 1;
    }
    assert(rows@.take(n as int) =~= rows@);
    assert(list.take(n as int) =~= list);
    changed
}

impl Expr {
    /// The nodes of the tree, a parent before its children.
    #[must_use]
    pub fn walk(&self) -> (r: Vec<&Expr>)
        ensures
            seen(r@) == nodes(self@),
    {
        let mut out: Vec<&Expr> = Vec::new();
        walk_into(self, &mut out);
        assert(seen(out@) =~= nodes(self@));
        out
    }

    /// The references of the tree, in the order of [`Expr::walk`].
    #[must_use]
    pub fn visit_refs(&self) -> (r: Vec<&Reference>)
        ensures
            ref_texts(r@) == refs_among(nodes(self@)),
    {
        let all = self.walk();
        let ghost list = nodes(self@);
        let mut out: Vec<&Reference> = Vec::new();
        let mut i: usize = 0;
        assert(list.take(0) =~= Seq::<Tree>::empty());
        assert(ref_texts(out@) =~= refs_among(list.take(0)));
        while i < all.len()
            invariant
                i <= all@.len(),
                list == seen(all@),
                ref_texts(out@) == refs_among(list.take(i as int)),
            decreases all@.len() - i,
        {
            let e: &Expr = all[i];
            let ghost before = out@;
            proof {
                assert(list.take(i + 1).drop_last() =~= list.take(i as int));
                assert(list[i as int] == tree(*e));
                assert(tree(*e).shape == shape(e.kind));
            }
            if let ExprKind::Ref(r) = &e.kind {
                out.push(r);
                assert(ref_texts(out@) =~= ref_texts(before).push(r@));
            }
            i = i + 1;
        }
        assert(list.take(i as int) =~= list);
        out
    }

    /// Moves every reference of the tree. Returns whether one changed.
    pub fn visit_refs_mut(&mut self, m: Move<'_>) -> (r: bool)
        ensures
            final(self)@ == moved_tree(old(self)@, m),
            r == (final(self)@ != old(self)@),
        decreases *old(self),
    {
        let ghost was = *self;
        let r: bool = match &mut self.kind {
            ExprKind::Ref(r) => match m {
                Move::Shift(sh) => r.shift(&sh),
                Move::Translate { d_col, d_row } => r.translate(d_col, d_row),
            },
            ExprKind::Func { name, args, ws_inside } => move_list(args, m),
            ExprKind::Union(items) => move_list(items, m),
            ExprKind::Unary { op, operand } => operand.visit_refs_mut(m),
            ExprKind::Percent(x) => x.visit_refs_mut(m),
            ExprKind::Paren(x) => x.visit_refs_mut(m),
            ExprKind::Binary { op, lhs, rhs, ws_op } => {
                let a: bool = lhs.visit_refs_mut(m);
                let b: bool = rhs.visit_refs_mut(m);
                a || b
            },
            ExprKind::Array(rows) => move_rows(rows, m),
            _ => false,
        };
        proof {
            assert(tree(was).shape == shape(was.kind));
            assert(tree(*self).shape == shape(self.kind));
        }
        r
    }
}

} // verus!
