//! The shape of parsed programs.
//!
//! Every leaf carries the `Range` of the source text it was parsed from;
//! a `List` is an ordered, possibly empty sequence of sub-expressions that
//! exclusively owns its children.

use vstd::prelude::*;

use crate::range::Range;

verus! {

broadcast use vstd::std_specs::vec::axiom_vec_decreases_to_view, vstd::seq::axiom_seq_index_decreases, vstd::seq::axiom_seq_subrange_decreases;

/// An identifier payload: a plain symbolic name.
pub struct Symbol {
    pub name: String,
}

/// A name bound to its source location.
pub struct Ident {
    pub data: Symbol,
    pub range: Range,
}

/// An expression of the S-expression language.
pub enum Expr {
    /// An unsigned integer literal.
    Int(Range, usize),
    /// A string literal.
    Str(Range, String),
    /// An identifier leaf.
    Atom(Ident),
    /// An ordered sequence of sub-expressions; may be empty.
    List(Vec<Expr>),
}

/// The mathematical shape of an expression tree.
pub enum ExprView {
    Int(Range, nat),
    Str(Range, Seq<char>),
    Atom(Seq<char>, Range),
    List(Seq<ExprView>),
}

/// The view of an expression: leaves keep their payloads and ranges, a
/// list keeps the views of its children in order.
pub open spec fn expr_view(e: Expr) -> ExprView
    decreases e,
{
    match e {
        Expr::Int(r, n) => ExprView::Int(r, n as nat),
        Expr::Str(r, text) => ExprView::Str(r, text@),
        Expr::Atom(id) => ExprView::Atom(id.data.name@, id.range),
        Expr::List(items) => ExprView::List(exprs_view_rec(items@)),
    }
}

/// The views of a sequence of expressions, built back to front so the
/// recursion is structural.
pub open spec fn exprs_view_rec(v: Seq<Expr>) -> Seq<ExprView>
    decreases v,
{
    if v.len() == 0 {
        Seq::empty()
    } else {
        exprs_view_rec(v.subrange(0, v.len() - 1)).push(expr_view(v[v.len() - 1]))
    }
}

impl View for Expr {
    type V = ExprView;

    open spec fn view(&self) -> ExprView {
        expr_view(*self)
    }
}

/// The views of a sequence of expressions, in order.
pub open spec fn exprs_view(v: Seq<Expr>) -> Seq<ExprView> {
    Seq::new(v.len(), |i: int| v[i]@)
}

/// `exprs_view_rec` agrees with the direct index-by-index description.
pub proof fn lemma_exprs_view(v: Seq<Expr>)
    ensures
        exprs_view_rec(v) == exprs_view(v),
    decreases v.len(),
{
    if v.len() > 0 {
        lemma_exprs_view(v.subrange(0, v.len() - 1));
        assert(exprs_view(v.subrange(0, v.len() - 1)).push(expr_view(v[v.len() - 1])) =~= exprs_view(
            v,
        ));
    }
}

impl Symbol {
    pub fn new(name: String) -> (s: Symbol)
        ensures
            s.name == name,
    {
        Symbol { name }
    }
}

impl Ident {
    pub fn from_string(text: String, range: Range) -> (id: Ident)
        ensures
            id.data.name == text,
            id.range == range,
    {
        Ident { data: Symbol::new(text), range }
    }
}

} // verus!
