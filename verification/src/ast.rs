//! SQL syntax trees.

use vstd::prelude::*;

verus! {

/// A binary operator.
#[derive(Debug, PartialEq, Eq, Clone, Copy, Structural)]
pub enum BinaryOperator {
    Add,
    And,
    ArrowRight,
    ArrowRightShift,
    BitwiseAnd,
    BitwiseOr,
    Concat,
    Equals,
    Divide,
    Greater,
    GreaterEquals,
    Is,
    IsNot,
    LeftShift,
    Less,
    LessEquals,
    Modulus,
    Multiply,
    NotEquals,
    Or,
    RightShift,
    Subtract,
}

/// A unary operator.
#[derive(Debug, PartialEq, Eq, Clone, Copy, Structural)]
pub enum UnaryOperator {
    BitwiseNot,
    Negative,
    Not,
    Positive,
}

/// A literal, as it is written.
#[derive(Debug, PartialEq, Eq)]
pub enum Literal {
    Numeric(String),
    /// With its quotes.
    String(String),
    Blob(String),
    Null,
    True,
    False,
    CurrentDate,
    CurrentTime,
    CurrentTimestamp,
}

/// What a literal holds.
#[verifier::ext_equal]
pub enum LiteralView {
    Numeric(Seq<char>),
    String(Seq<char>),
    Blob(Seq<char>),
    Null,
    True,
    False,
    CurrentDate,
    CurrentTime,
    CurrentTimestamp,
}

impl View for Literal {
    type V = LiteralView;

    open spec fn view(&self) -> LiteralView {
        match self {
            Literal::Numeric(s) => LiteralView::Numeric(s@),
            Literal::String(s) => LiteralView::String(s@),
            Literal::Blob(s) => LiteralView::Blob(s@),
            Literal::Null => LiteralView::Null,
            Literal::True => LiteralView::True,
            Literal::False => LiteralView::False,
            Literal::CurrentDate => LiteralView::CurrentDate,
            Literal::CurrentTime => LiteralView::CurrentTime,
            Literal::CurrentTimestamp => LiteralView::CurrentTimestamp,
        }
    }
}

/// An expression.
#[allow(inconsistent_fields)]
#[derive(Debug, PartialEq, Eq)]
pub enum Expr {
    Literal(Literal),
    /// A bare name.
    Id(String),
    /// A table and a column.
    Qualified(String, String),
    /// A parameter, as it is written.
    Variable(String),
    /// A column of the input row by its position.
    Register(usize),
    Binary(Box<Expr>, BinaryOperator, Box<Expr>),
    Unary(UnaryOperator, Box<Expr>),
    FunctionCall { name: String, distinct: bool, args: Vec<Expr> },
    FunctionCallStar { name: String },
    IsNull(Box<Expr>),
    NotNull(Box<Expr>),
    InList { lhs: Box<Expr>, not: bool, rhs: Vec<Expr> },
    Like { lhs: Box<Expr>, not: bool, rhs: Box<Expr>, escape: Option<String> },
    Cast { expr: Box<Expr>, cast_type: Option<String> },
    Parenthesized(Box<Expr>),
    /// A query in place of a value, as it is written.
    Subquery(String),
    /// Membership in a query's result.
    InSelect { lhs: Box<Expr>, not: bool, query: String },
    Exists(String),
}

/// What an expression holds.
#[allow(inconsistent_fields)]
#[verifier::ext_equal]
pub enum ExprView {
    Literal(LiteralView),
    Id(Seq<char>),
    Qualified(Seq<char>, Seq<char>),
    Variable(Seq<char>),
    Register(int),
    Binary(Box<ExprView>, BinaryOperator, Box<ExprView>),
    Unary(UnaryOperator, Box<ExprView>),
    FunctionCall { name: Seq<char>, distinct: bool, args: Seq<ExprView> },
    FunctionCallStar { name: Seq<char> },
    IsNull(Box<ExprView>),
    NotNull(Box<ExprView>),
    InList { lhs: Box<ExprView>, not: bool, rhs: Seq<ExprView> },
    Like { lhs: Box<ExprView>, not: bool, rhs: Box<ExprView>, escape: Option<Seq<char>> },
    Cast { expr: Box<ExprView>, cast_type: Option<Seq<char>> },
    Parenthesized(Box<ExprView>),
    Subquery(Seq<char>),
    InSelect { lhs: Box<ExprView>, not: bool, query: Seq<char> },
    Exists(Seq<char>),
}

pub open spec fn text_view(s: Option<String>) -> Option<Seq<char>> {
    match s {
        Some(t) => Some(t@),
        None => None,
    }
}

/// What a list of expressions holds.
pub open spec fn expr_views(list: Seq<Expr>) -> Seq<ExprView>
    decreases list,
{
    Seq::new(
        list.len(),
        |i: int|
            if 0 <= i < list.len() {
                list[i].view()
            } else {
                arbitrary()
            },
    )
}

impl Expr {
    pub open spec fn view(&self) -> ExprView
        decreases self,
    {
        match self {
            Expr::Literal(l) => ExprView::Literal(l@),
            Expr::Id(s) => ExprView::Id(s@),
            Expr::Qualified(t, c) => ExprView::Qualified(t@, c@),
            Expr::Variable(s) => ExprView::Variable(s@),
            Expr::Register(i) => ExprView::Register(*i as int),
            Expr::Binary(l, op, r) => ExprView::Binary(Box::new(l.view()), *op, Box::new(r.view())),
            Expr::Unary(op, e) => ExprView::Unary(*op, Box::new(e.view())),
            Expr::FunctionCall { name, distinct, args } => ExprView::FunctionCall {
                name: name@,
                distinct: *distinct,
                args: expr_views(args@),
            },
            Expr::FunctionCallStar { name } => ExprView::FunctionCallStar { name: name@ },
            Expr::IsNull(e) => ExprView::IsNull(Box::new(e.view())),
            Expr::NotNull(e) => ExprView::NotNull(Box::new(e.view())),
            Expr::InList { lhs, not, rhs } => ExprView::InList {
                lhs: Box::new(lhs.view()),
                not: *not,
                rhs: expr_views(rhs@),
            },
            Expr::Like { lhs, not, rhs, escape } => ExprView::Like {
                lhs: Box::new(lhs.view()),
                not: *not,
                rhs: Box::new(rhs.view()),
                escape: text_view(*escape),
            },
            Expr::Cast { expr, cast_type } => ExprView::Cast {
                expr: Box::new(expr.view()),
                cast_type: text_view(*cast_type),
            },
            Expr::Parenthesized(e) => ExprView::Parenthesized(Box::new(e.view())),
            Expr::Subquery(s) => ExprView::Subquery(s@),
            Expr::InSelect { lhs, not, query } => ExprView::InSelect {
                lhs: Box::new(lhs.view()),
                not: *not,
                query: query@,
            },
            Expr::Exists(s) => ExprView::Exists(s@),
        }
    }
}

pub proof fn lemma_expr_views(list: Seq<Expr>)
    ensures
        expr_views(list).len() == list.len(),
        forall|i: int| 0 <= i < list.len() ==> (#[trigger] expr_views(list)[i]) == list[i].view(),
{
}

} // verus!
