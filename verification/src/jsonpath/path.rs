//! Path expressions: what they are made of.
//!
//! A path is a sequence of selectors. It is applied to a value from left to
//! right: each selector picks, from every value that the selectors before it
//! arrived at, the values to go on with.
use crate::number::{Number, NumberValue};
use vstd::prelude::*;

verus! {

/// A comparison.
#[derive(Clone, Copy, Debug, PartialEq, Eq, Structural)]
pub enum CompareOp {
    /// `==`
    Equal,
    /// `!=` and `<>`
    NotEqual,
    /// `<`
    Less,
    /// `>`
    Greater,
    /// `<=`
    LessOrEqual,
    /// `>=`
    GreaterOrEqual,
}

/// A literal in a filter. A floating-point literal is kept as it is
/// written, and stands for no value; a caller that needs its value puts the
/// number in its place.
#[derive(Debug, PartialEq)]
pub enum Literal {
    Null,
    Bool(bool),
    Number(Number),
    Float(String),
    String(String),
}

/// A step of a path.
#[derive(Debug, PartialEq)]
pub enum Selector {
    /// `.name` or `."name"`: the member of that name of an object.
    Member(String),
    /// `.*`: every member of an object.
    AnyMember,
    /// `[i]`: the item at `i` of an array, counted from the end where `i`
    /// is negative.
    Index(i64),
    /// `[i to j]`: the items from `i` to `j`, both included.
    Range(i64, i64),
    /// `[i to last]`: the items from `i` on.
    RangeToLast(i64),
    /// `[*]`: every item of an array.
    AnyIndex,
    /// `?(expr)`: the value itself, where the filter holds of it.
    Filter(Expr),
}

/// A filter, or a part of one.
#[derive(Debug, PartialEq)]
pub enum Expr {
    /// `a OR b`
    Or(Box<Expr>, Box<Expr>),
    /// `a AND b`
    And(Box<Expr>, Box<Expr>),
    /// `NOT a`
    Not(Box<Expr>),
    /// `a op b`
    Compare(CompareOp, Box<Expr>, Box<Expr>),
    /// A literal.
    Literal(Literal),
    /// `@` and the selectors behind it: a path from the value that the
    /// filter is asked of.
    Path(Vec<Selector>),
}

/// A path from the root of a document: `$` and the selectors behind it.
#[derive(Debug, PartialEq)]
pub struct JsonPath {
    pub selectors: Vec<Selector>,
}

/// What a literal is.
pub enum LiteralView {
    Null,
    Bool(bool),
    Number(NumberValue),
    Float(Seq<char>),
    String(Seq<char>),
}

/// What a selector is.
pub enum SelectorView {
    Member(Seq<char>),
    AnyMember,
    Index(int),
    Range(int, int),
    RangeToLast(int),
    AnyIndex,
    Filter(ExprView),
}

/// What a filter is.
pub enum ExprView {
    Or(Box<ExprView>, Box<ExprView>),
    And(Box<ExprView>, Box<ExprView>),
    Not(Box<ExprView>),
    Compare(CompareOp, Box<ExprView>, Box<ExprView>),
    Literal(LiteralView),
    Path(Seq<SelectorView>),
}

impl View for Literal {
    type V = LiteralView;

    open spec fn view(&self) -> LiteralView {
        match self {
            Literal::Null => LiteralView::Null,
            Literal::Bool(b) => LiteralView::Bool(*b),
            Literal::Number(n) => LiteralView::Number(n@),
            Literal::Float(text) => LiteralView::Float(text@),
            Literal::String(text) => LiteralView::String(text@),
        }
    }
}

impl View for Selector {
    type V = SelectorView;

    open spec fn view(&self) -> SelectorView
        decreases self, 0int,
    {
        match self {
            Selector::Member(name) => SelectorView::Member(name@),
            Selector::AnyMember => SelectorView::AnyMember,
            Selector::Index(i) => SelectorView::Index(*i as int),
            Selector::Range(i, j) => SelectorView::Range(*i as int, *j as int),
            Selector::RangeToLast(i) => SelectorView::RangeToLast(*i as int),
            Selector::AnyIndex => SelectorView::AnyIndex,
            Selector::Filter(e) => SelectorView::Filter(e@),
        }
    }
}

impl View for Expr {
    type V = ExprView;

    open spec fn view(&self) -> ExprView
        decreases self, 0int,
    {
        match self {
            Expr::Or(a, b) => ExprView::Or(Box::new((**a)@), Box::new((**b)@)),
            Expr::And(a, b) => ExprView::And(Box::new((**a)@), Box::new((**b)@)),
            Expr::Not(a) => ExprView::Not(Box::new((**a)@)),
            Expr::Compare(op, a, b) => ExprView::Compare(
                *op,
                Box::new((**a)@),
                Box::new((**b)@),
            ),
            Expr::Literal(l) => ExprView::Literal(l@),
            Expr::Path(selectors) => ExprView::Path(
                selector_views(*selectors, selectors.len() as int),
            ),
        }
    }
}

/// The first `n` of the selectors as what they are.
pub open spec fn selector_views(selectors: Vec<Selector>, n: int) -> Seq<SelectorView>
    decreases selectors, n,
{
    if 0 < n <= selectors.len() {
        selector_views(selectors, n - 1).push(selectors[n - 1]@)
    } else {
        Seq::empty()
    }
}

impl View for JsonPath {
    type V = Seq<SelectorView>;

    open spec fn view(&self) -> Seq<SelectorView> {
        selector_views(self.selectors, self.selectors.len() as int)
    }
}

/// The views of the first `n` selectors are as many, and each is the view
/// of its selector.
pub proof fn lemma_selector_views(selectors: Vec<Selector>, n: int)
    requires
        0 <= n <= selectors.len(),
    ensures
        selector_views(selectors, n).len() == n,
        forall|k: int| 0 <= k < n ==> #[trigger] selector_views(selectors, n)[k] == selectors[k]@,
    decreases n,
{
    if n > 0 {
        lemma_selector_views(selectors, n - 1);
        assert(selector_views(selectors, n) == selector_views(selectors, n - 1).push(
            selectors[n - 1]@,
        ));
    }
}

} // verus!
