//! The scope of a `REFRESH`: which part of a source a sweep speaks for.
//!
//! A scope is a predicate that is evaluated twice, by the scan against the source and by the
//! retraction bound against the mirror. The two agree only where the predicate is a function of
//! the mirrored row alone, so a scope that is anything else is refused.

use vstd::prelude::*;

use crate::ast::{expr_views, lemma_expr_views, BinaryOperator, Expr, ExprView, Literal, LiteralView, UnaryOperator};
use crate::error::{ErrorView, LimboError};
use crate::text::{
    as_ident, decimal, decimal_usize, identifier, join, joined, lowered, same_ignoring_case, texts,
};

verus! {

/// Which rows a refresh covers.
#[derive(Debug, PartialEq, Eq)]
pub enum RefreshScope {
    /// All of them.
    Full,
    /// Those that satisfy a predicate.
    Where(Expr),
}

/// What a scope covers.
#[verifier::ext_equal]
pub enum ScopeView {
    Full,
    Where(ExprView),
}

impl View for RefreshScope {
    type V = ScopeView;

    open spec fn view(&self) -> ScopeView {
        match self {
            RefreshScope::Full => ScopeView::Full,
            RefreshScope::Where(e) => ScopeView::Where(e@),
        }
    }
}

pub open spec fn operator_text(op: BinaryOperator) -> Seq<char> {
    match op {
        BinaryOperator::Add => "+"@,
        BinaryOperator::And => "AND"@,
        BinaryOperator::ArrowRight => "->"@,
        BinaryOperator::ArrowRightShift => "->>"@,
        BinaryOperator::BitwiseAnd => "&"@,
        BinaryOperator::BitwiseOr => "|"@,
        BinaryOperator::Concat => "||"@,
        BinaryOperator::Equals => "="@,
        BinaryOperator::Divide => "/"@,
        BinaryOperator::Greater => ">"@,
        BinaryOperator::GreaterEquals => ">="@,
        BinaryOperator::Is => "IS"@,
        BinaryOperator::IsNot => "IS NOT"@,
        BinaryOperator::LeftShift => "<<"@,
        BinaryOperator::Less => "<"@,
        BinaryOperator::LessEquals => "<="@,
        BinaryOperator::Modulus => "%"@,
        BinaryOperator::Multiply => "*"@,
        BinaryOperator::NotEquals => "<>"@,
        BinaryOperator::Or => "OR"@,
        BinaryOperator::RightShift => ">>"@,
        BinaryOperator::Subtract => "-"@,
    }
}

fn operator_str(op: BinaryOperator) -> (r: &'static str)
    ensures
        r@ == operator_text(op),
{
    match op {
        BinaryOperator::Add => "+",
        BinaryOperator::And => "AND",
        BinaryOperator::ArrowRight => "->",
        BinaryOperator::ArrowRightShift => "->>",
        BinaryOperator::BitwiseAnd => "&",
        BinaryOperator::BitwiseOr => "|",
        BinaryOperator::Concat => "||",
        BinaryOperator::Equals => "=",
        BinaryOperator::Divide => "/",
        BinaryOperator::Greater => ">",
        BinaryOperator::GreaterEquals => ">=",
        BinaryOperator::Is => "IS",
        BinaryOperator::IsNot => "IS NOT",
        BinaryOperator::LeftShift => "<<",
        BinaryOperator::Less => "<",
        BinaryOperator::LessEquals => "<=",
        BinaryOperator::Modulus => "%",
        BinaryOperator::Multiply => "*",
        BinaryOperator::NotEquals => "<>",
        BinaryOperator::Or => "OR",
        BinaryOperator::RightShift => ">>",
        BinaryOperator::Subtract => "-",
    }
}

pub open spec fn prefix_text(op: UnaryOperator) -> Seq<char> {
    match op {
        UnaryOperator::BitwiseNot => "~"@,
        UnaryOperator::Negative => "-"@,
        UnaryOperator::Not => "NOT "@,
        UnaryOperator::Positive => "+"@,
    }
}

fn prefix_str(op: UnaryOperator) -> (r: &'static str)
    ensures
        r@ == prefix_text(op),
{
    match op {
        UnaryOperator::BitwiseNot => "~",
        UnaryOperator::Negative => "-",
        UnaryOperator::Not => "NOT ",
        UnaryOperator::Positive => "+",
    }
}

pub open spec fn literal_text(l: LiteralView) -> Seq<char> {
    match l {
        LiteralView::Numeric(s) => s,
        LiteralView::String(s) => s,
        LiteralView::Blob(s) => s,
        LiteralView::Null => "NULL"@,
        LiteralView::True => "TRUE"@,
        LiteralView::False => "FALSE"@,
        LiteralView::CurrentDate => "CURRENT_DATE"@,
        LiteralView::CurrentTime => "CURRENT_TIME"@,
        LiteralView::CurrentTimestamp => "CURRENT_TIMESTAMP"@,
    }
}

fn literal_str<'a>(l: &'a Literal) -> (r: &'a str)
    ensures
        r@ == literal_text(l@),
{
    match l {
        Literal::Numeric(s) => s.as_str(),
        Literal::String(s) => s.as_str(),
        Literal::Blob(s) => s.as_str(),
        Literal::Null => "NULL",
        Literal::True => "TRUE",
        Literal::False => "FALSE",
        Literal::CurrentDate => "CURRENT_DATE",
        Literal::CurrentTime => "CURRENT_TIME",
        Literal::CurrentTimestamp => "CURRENT_TIMESTAMP",
    }
}

/// An expression as SQL.
pub open spec fn sql_text(e: ExprView) -> Seq<char>
    decreases e,
{
    match e {
        ExprView::Literal(l) => literal_text(l),
        ExprView::Id(name) => identifier(name),
        ExprView::Qualified(table, column) => identifier(table) + "."@ + identifier(column),
        ExprView::Variable(name) => name,
        ExprView::Register(i) => "$"@ + decimal(i as nat),
        ExprView::Binary(l, op, r) => sql_text(*l) + " "@ + operator_text(op) + " "@ + sql_text(*r),
        ExprView::Unary(op, inner) => prefix_text(op) + sql_text(*inner),
        ExprView::FunctionCall { name, distinct, args } => name + (if distinct {
            "(DISTINCT "@
        } else {
            "("@
        }) + joined(sql_texts(args), ", "@) + ")"@,
        ExprView::FunctionCallStar { name } => name + "(*)"@,
        ExprView::IsNull(inner) => sql_text(*inner) + " IS NULL"@,
        ExprView::NotNull(inner) => sql_text(*inner) + " IS NOT NULL"@,
        ExprView::InList { lhs, not, rhs } => sql_text(*lhs) + (if not {
            " NOT IN ("@
        } else {
            " IN ("@
        }) + joined(sql_texts(rhs), ", "@) + ")"@,
        ExprView::Like { lhs, not, rhs, escape } => sql_text(*lhs) + (if not {
            " NOT LIKE "@
        } else {
            " LIKE "@
        }) + sql_text(*rhs) + (match escape {
            Some(c) => " ESCAPE '"@ + c + "'"@,
            None => ""@,
        }),
        ExprView::Cast { expr, cast_type } => "CAST("@ + sql_text(*expr) + (match cast_type {
            Some(t) => " AS "@ + t + ")"@,
            None => ")"@,
        }),
        ExprView::Parenthesized(inner) => "("@ + sql_text(*inner) + ")"@,
        ExprView::Subquery(query) => "("@ + query + ")"@,
        ExprView::InSelect { lhs, not, query } => sql_text(*lhs) + (if not {
            " NOT IN ("@
        } else {
            " IN ("@
        }) + query + ")"@,
        ExprView::Exists(query) => "EXISTS ("@ + query + ")"@,
    }
}

/// A list of expressions, each as SQL.
pub open spec fn sql_texts(list: Seq<ExprView>) -> Seq<Seq<char>>
    decreases list,
{
    Seq::new(
        list.len(),
        |i: int|
            if 0 <= i < list.len() {
                sql_text(list[i])
            } else {
                arbitrary()
            },
    )
}

/// Writes a list of expressions, each as SQL.
fn list_sql(list: &Vec<Expr>) -> (r: Vec<String>)
    ensures
        r@.len() == list@.len(),
        forall|i: int| 0 <= i < r@.len() ==> (#[trigger] r@[i])@ == sql_text(list@[i]@),
    decreases list,
{
    let mut out: Vec<String> = Vec::new();
    let mut i: usize = 0;
    while i < list.len()
        invariant
            i <= list.len(),
            out@.len() == i,
            forall|j: int| 0 <= j < i ==> (#[trigger] out@[j])@ == sql_text(list@[j]@),
        decreases list.len() - i,
    {
        proof {
            assert(decreases_to!(list => list@[i as int]));
        }
        out.push(to_sql(&list[i]));
        i += 1;
    }
    out
}

/// Writes an expression as SQL.
pub fn to_sql(e: &Expr) -> (r: String)
    ensures
        r@ == sql_text(e@),
    decreases e,
{
    match e {
        Expr::Literal(l) => literal_str(l).to_owned(),
        Expr::Id(name) => as_ident(name.as_str()),
        Expr::Qualified(table, column) => {
            let mut r = as_ident(table.as_str());
            r.append(".");
            let c = as_ident(column.as_str());
            r.append(c.as_str());
            r
        },
        Expr::Variable(name) => name.clone(),
        Expr::Register(i) => {
            let mut r = "$".to_owned();
            let n = decimal_usize(*i);
            r.append(n.as_str());
            r
        },
        Expr::Binary(left, op, right) => {
            let mut r = to_sql(left);
            r.append(" ");
            r.append(operator_str(*op));
            r.append(" ");
            let tail = to_sql(right);
            r.append(tail.as_str());
            r
        },
        Expr::Unary(op, inner) => {
            let mut r = prefix_str(*op).to_owned();
            let tail = to_sql(inner);
            r.append(tail.as_str());
            r
        },
        Expr::FunctionCall { name, distinct, args } => {
            let mut r = name.clone();
            if *distinct {
                r.append("(DISTINCT ");
            } else {
                r.append("(");
            }
            let list = list_sql(args);
            let body = join(&list, ", ");
            r.append(body.as_str());
            r.append(")");
            proof {
                let views = expr_views(args@);
                lemma_expr_views(args@);
                assert(texts(list@) =~= sql_texts(views));
            }
            r
        },
        Expr::FunctionCallStar { name } => {
            let mut r = name.clone();
            r.append("(*)");
            r
        },
        Expr::IsNull(inner) => {
            let mut r = to_sql(inner);
            r.append(" IS NULL");
            r
        },
        Expr::NotNull(inner) => {
            let mut r = to_sql(inner);
            r.append(" IS NOT NULL");
            r
        },
        Expr::InList { lhs, not, rhs } => {
            let mut r = to_sql(lhs);
            if *not {
                r.append(" NOT IN (");
            } else {
                r.append(" IN (");
            }
            let list = list_sql(rhs);
            let body = join(&list, ", ");
            r.append(body.as_str());
            r.append(")");
            proof {
                let views = expr_views(rhs@);
                lemma_expr_views(rhs@);
                assert(texts(list@) =~= sql_texts(views));
            }
            r
        },
        Expr::Like { lhs, not, rhs, escape } => {
            let mut r = to_sql(lhs);
            if *not {
                r.append(" NOT LIKE ");
            } else {
                r.append(" LIKE ");
            }
            let pattern = to_sql(rhs);
            r.append(pattern.as_str());
            match escape {
                Some(c) => {
                    let mut tail = " ESCAPE '".to_owned();
                    tail.append(c.as_str());
                    tail.append("'");
                    r.append(tail.as_str());
                },
                None => {
                    r.append("");
                },
            }
            r
        },
        Expr::Cast { expr, cast_type } => {
            let mut r = "CAST(".to_owned();
            let inner = to_sql(expr);
            r.append(inner.as_str());
            match cast_type {
                Some(t) => {
                    let mut tail = " AS ".to_owned();
                    tail.append(t.as_str());
                    tail.append(")");
                    r.append(tail.as_str());
                },
                None => {
                    r.append(")");
                },
            }
            r
        },
        Expr::Parenthesized(inner) => {
            let mut r = "(".to_owned();
            let body = to_sql(inner);
            r.append(body.as_str());
            r.append(")");
            r
        },
        Expr::Subquery(query) => {
            let mut r = "(".to_owned();
            r.append(query.as_str());
            r.append(")");
            r
        },
        Expr::InSelect { lhs, not, query } => {
            let mut r = to_sql(lhs);
            if *not {
                r.append(" NOT IN (");
            } else {
                r.append(" IN (");
            }
            r.append(query.as_str());
            r.append(")");
            r
        },
        Expr::Exists(query) => {
            let mut r = "EXISTS (".to_owned();
            r.append(query.as_str());
            r.append(")");
            r
        },
    }
}

/// What the engine knows of a function.
#[derive(Debug, PartialEq, Eq, Clone, Copy, Structural)]
pub enum FunctionKind {
    /// A function of its arguments alone.
    Steady,
    /// Answers differently from call to call.
    Moving,
    /// Has no value for a single row.
    Aggregate,
    Unknown,
}

pub open spec fn aggregate_names() -> Seq<Seq<char>> {
    seq![
        "avg"@,
        "count"@,
        "group_concat"@,
        "json_group_array"@,
        "json_group_object"@,
        "string_agg"@,
        "sum"@,
        "total"@,
    ]
}

pub open spec fn moving_names() -> Seq<Seq<char>> {
    seq![
        "changes"@,
        "last_insert_rowid"@,
        "random"@,
        "randomblob"@,
        "sqlite_source_id"@,
        "sqlite_version"@,
        "total_changes"@,
    ]
}

/// Functions of a time value, which read the clock where none is given.
pub open spec fn clock_names() -> Seq<Seq<char>> {
    seq!["date"@, "datetime"@, "julianday"@, "time"@, "unixepoch"@]
}

pub open spec fn steady_names() -> Seq<Seq<char>> {
    seq![
        "abs"@,
        "char"@,
        "coalesce"@,
        "concat"@,
        "concat_ws"@,
        "format"@,
        "glob"@,
        "hex"@,
        "ifnull"@,
        "iif"@,
        "instr"@,
        "json"@,
        "json_extract"@,
        "length"@,
        "like"@,
        "lower"@,
        "ltrim"@,
        "nullif"@,
        "octet_length"@,
        "printf"@,
        "quote"@,
        "replace"@,
        "round"@,
        "rtrim"@,
        "sign"@,
        "soundex"@,
        "substr"@,
        "substring"@,
        "trim"@,
        "typeof"@,
        "unhex"@,
        "unicode"@,
        "upper"@,
    ]
}

/// The literal that stands for the current time.
pub open spec fn is_now(e: ExprView) -> bool {
    e matches ExprView::Literal(LiteralView::String(s)) && lowered(s) == lowered("'now'"@)
}

/// Whether a list of time arguments reads the clock: the time value at `at` is missing, or one
/// of the arguments is `'now'`.
pub open spec fn reads_clock(args: Seq<ExprView>, at: int) -> bool {
    args.len() <= at || exists|i: int| 0 <= i < args.len() && is_now(#[trigger] args[i])
}

/// What a call of a function is.
pub open spec fn call_kind(name: Seq<char>, args: Seq<ExprView>) -> FunctionKind {
    let n = lowered(name);
    if names_column(aggregate_names(), name) || ((n == lowered("max"@) || n == lowered("min"@)) && args.len() == 1) {
        FunctionKind::Aggregate
    } else if names_column(moving_names(), name) {
        FunctionKind::Moving
    } else if names_column(clock_names(), name) {
        if reads_clock(args, 0) {
            FunctionKind::Moving
        } else {
            FunctionKind::Steady
        }
    } else if n == lowered("strftime"@) {
        if reads_clock(args, 1) {
            FunctionKind::Moving
        } else {
            FunctionKind::Steady
        }
    } else if names_column(steady_names(), name) || n == lowered("max"@) || n == lowered("min"@) {
        FunctionKind::Steady
    } else {
        FunctionKind::Unknown
    }
}

pub open spec fn moving_message(what: Seq<char>) -> Seq<char> {
    "'"@ + what
        + "' answers differently each time it runs, but the scan and the retraction bound evaluate the scope separately"@
}

pub open spec fn aggregate_message(what: Seq<char>) -> Seq<char> {
    "a REFRESH scope cannot call the aggregate '"@ + what + "', which has no value for a single row"@
}

pub open spec fn unknown_message(what: Seq<char>) -> Seq<char> {
    "cannot resolve the function '"@ + what + "' in a REFRESH scope"@
}

pub open spec fn subquery_message() -> Seq<char> {
    "a REFRESH scope cannot contain a subquery, which is no bound over the rows of the mirror"@
}

pub open spec fn parameter_message(what: Seq<char>) -> Seq<char> {
    "a REFRESH scope cannot contain the parameter '"@ + what + "', to which nothing is bound"@
}

pub open spec fn qualified_message(table: Seq<char>, column: Seq<char>) -> Seq<char> {
    "the column '"@ + table + "."@ + column
        + "' in a REFRESH scope must be unqualified: the scope is applied to the source and to its mirror"@
}

pub open spec fn column_message(column: Seq<char>, source: Seq<char>) -> Seq<char> {
    "the column '"@ + column + "' in a REFRESH scope is no column of foreign table '"@ + source + "'"@
}

/// Whether a name is one of the columns, up to the case of ASCII letters.
pub open spec fn names_column(columns: Seq<Seq<char>>, name: Seq<char>) -> bool {
    exists|i: int| 0 <= i < columns.len() && lowered(#[trigger] columns[i]) == lowered(name)
}

pub open spec fn either(a: Option<Seq<char>>, b: Option<Seq<char>>) -> Option<Seq<char>> {
    if a is Some {
        a
    } else {
        b
    }
}

/// Why an expression cannot be a scope over some columns of a source: the first reason, read
/// from left to right. `None` where it can.
pub open spec fn refusal(
    e: ExprView,
    columns: Seq<Seq<char>>,
    source: Seq<char>,
) -> Option<Seq<char>>
    decreases e,
{
    match e {
        ExprView::Literal(LiteralView::CurrentDate) => Some(moving_message("CURRENT_DATE"@)),
        ExprView::Literal(LiteralView::CurrentTime) => Some(moving_message("CURRENT_TIME"@)),
        ExprView::Literal(LiteralView::CurrentTimestamp) => Some(
            moving_message("CURRENT_TIMESTAMP"@),
        ),
        ExprView::Literal(_) => None,
        ExprView::Id(name) => if names_column(columns, name) {
            None
        } else {
            Some(column_message(name, source))
        },
        ExprView::Qualified(table, column) => Some(qualified_message(table, column)),
        ExprView::Variable(name) => Some(parameter_message(name)),
        ExprView::Register(_) => None,
        ExprView::Binary(l, _, r) => either(
            refusal(*l, columns, source),
            refusal(*r, columns, source),
        ),
        ExprView::Unary(_, inner) => refusal(*inner, columns, source),
        ExprView::FunctionCall { name, args, .. } => match call_kind(name, args) {
            FunctionKind::Steady => first_refusal(args, columns, source),
            FunctionKind::Moving => Some(moving_message(name)),
            FunctionKind::Aggregate => Some(aggregate_message(name)),
            FunctionKind::Unknown => Some(unknown_message(name)),
        },
        ExprView::FunctionCallStar { name } => if names_column(aggregate_names(), name) {
            Some(aggregate_message(name))
        } else {
            Some(unknown_message(name))
        },
        ExprView::IsNull(inner) => refusal(*inner, columns, source),
        ExprView::NotNull(inner) => refusal(*inner, columns, source),
        ExprView::InList { lhs, rhs, .. } => either(
            refusal(*lhs, columns, source),
            first_refusal(rhs, columns, source),
        ),
        ExprView::Like { lhs, rhs, .. } => either(
            refusal(*lhs, columns, source),
            refusal(*rhs, columns, source),
        ),
        ExprView::Cast { expr, .. } => refusal(*expr, columns, source),
        ExprView::Parenthesized(inner) => refusal(*inner, columns, source),
        ExprView::Subquery(_) => Some(subquery_message()),
        ExprView::InSelect { .. } => Some(subquery_message()),
        ExprView::Exists(_) => Some(subquery_message()),
    }
}

/// The first reason in a list of expressions.
pub open spec fn first_refusal(
    list: Seq<ExprView>,
    columns: Seq<Seq<char>>,
    source: Seq<char>,
) -> Option<Seq<char>>
    decreases list,
{
    if list.len() == 0 {
        None
    } else {
        either(
            first_refusal(list.drop_last(), columns, source),
            refusal(list.last(), columns, source),
        )
    }
}

/// What a list of string slices holds.
pub open spec fn str_views(list: Seq<&str>) -> Seq<Seq<char>> {
    list.map_values(|s: &str| s@)
}

/// Whether a name is in a list, up to the case of ASCII letters.
fn one_of(name: &str, list: &Vec<&'static str>) -> (r: bool)
    ensures
        r == names_column(str_views(list@), name@),
{
    let ghost views = str_views(list@);
    let mut i: usize = 0;
    while i < list.len()
        invariant
            i <= list.len(),
            views == str_views(list@),
            forall|j: int| 0 <= j < i ==> lowered(#[trigger] views[j]) != lowered(name@),
        decreases list.len() - i,
    {
        if same_ignoring_case(name, list[i]) {
            assert(views[i as int] == list@[i as int]@);
            return true;
        }
        i += 1;
    }
    false
}

fn is_aggregate_name(name: &str) -> (r: bool)
    ensures
        r == names_column(aggregate_names(), name@),
{
    let list: Vec<&'static str> = vec![
        "avg",
        "count",
        "group_concat",
        "json_group_array",
        "json_group_object",
        "string_agg",
        "sum",
        "total",
    ];
    assert(str_views(list@) =~= aggregate_names());
    one_of(name, &list)
}

fn is_moving_name(name: &str) -> (r: bool)
    ensures
        r == names_column(moving_names(), name@),
{
    let list: Vec<&'static str> = vec![
        "changes",
        "last_insert_rowid",
        "random",
        "randomblob",
        "sqlite_source_id",
        "sqlite_version",
        "total_changes",
    ];
    assert(str_views(list@) =~= moving_names());
    one_of(name, &list)
}

fn is_clock_name(name: &str) -> (r: bool)
    ensures
        r == names_column(clock_names(), name@),
{
    let list: Vec<&'static str> = vec!["date", "datetime", "julianday", "time", "unixepoch"];
    assert(str_views(list@) =~= clock_names());
    one_of(name, &list)
}

fn is_steady_name(name: &str) -> (r: bool)
    ensures
        r == names_column(steady_names(), name@),
{
    let list: Vec<&'static str> = vec![
        "abs",
        "char",
        "coalesce",
        "concat",
        "concat_ws",
        "format",
        "glob",
        "hex",
        "ifnull",
        "iif",
        "instr",
        "json",
        "json_extract",
        "length",
        "like",
        "lower",
        "ltrim",
        "nullif",
        "octet_length",
        "printf",
        "quote",
        "replace",
        "round",
        "rtrim",
        "sign",
        "soundex",
        "substr",
        "substring",
        "trim",
        "typeof",
        "unhex",
        "unicode",
        "upper",
    ];
    assert(str_views(list@) =~= steady_names());
    one_of(name, &list)
}

fn arguments_read_clock(args: &Vec<Expr>, at: usize) -> (r: bool)
    ensures
        r == reads_clock(expr_views(args@), at as int),
{
    let ghost views = expr_views(args@);
    proof {
        lemma_expr_views(args@);
    }
    if args.len() <= at {
        return true;
    }
    let mut i: usize = 0;
    while i < args.len()
        invariant
            i <= args.len(),
            views.len() == args@.len(),
            views == expr_views(args@),
            forall|j: int| 0 <= j < args@.len() ==> (#[trigger] views[j]) == args@[j]@,
            forall|j: int| 0 <= j < i ==> !is_now(#[trigger] views[j]),
        decreases args.len() - i,
    {
        assert(views[i as int] == args@[i as int]@);
        if let Expr::Literal(Literal::String(s)) = &args[i] {
            if same_ignoring_case(s.as_str(), "'now'") {
                return true;
            }
        }
        i += 1;
    }
    false
}

/// Tells what a call of a function is.
pub fn classify_call(name: &str, args: &Vec<Expr>) -> (r: FunctionKind)
    ensures
        r == call_kind(name@, expr_views(args@)),
{
    proof {
        lemma_expr_views(args@);
    }
    let extremum = same_ignoring_case(name, "max") || same_ignoring_case(name, "min");
    if is_aggregate_name(name) || (extremum && args.len() == 1) {
        FunctionKind::Aggregate
    } else if is_moving_name(name) {
        FunctionKind::Moving
    } else if is_clock_name(name) {
        if arguments_read_clock(args, 0) {
            FunctionKind::Moving
        } else {
            FunctionKind::Steady
        }
    } else if same_ignoring_case(name, "strftime") {
        if arguments_read_clock(args, 1) {
            FunctionKind::Moving
        } else {
            FunctionKind::Steady
        }
    } else if is_steady_name(name) || extremum {
        FunctionKind::Steady
    } else {
        FunctionKind::Unknown
    }
}

fn moving_text(what: &str) -> (r: String)
    ensures
        r@ == moving_message(what@),
{
    let mut r = "'".to_owned();
    r.append(what);
    r.append(
        "' answers differently each time it runs, but the scan and the retraction bound evaluate the scope separately",
    );
    r
}

fn aggregate_text(what: &str) -> (r: String)
    ensures
        r@ == aggregate_message(what@),
{
    let mut r = "a REFRESH scope cannot call the aggregate '".to_owned();
    r.append(what);
    r.append("', which has no value for a single row");
    r
}

fn unknown_text(what: &str) -> (r: String)
    ensures
        r@ == unknown_message(what@),
{
    let mut r = "cannot resolve the function '".to_owned();
    r.append(what);
    r.append("' in a REFRESH scope");
    r
}

fn subquery_text() -> (r: String)
    ensures
        r@ == subquery_message(),
{
    "a REFRESH scope cannot contain a subquery, which is no bound over the rows of the mirror".to_owned()
}

fn is_column(columns: &Vec<String>, name: &str) -> (r: bool)
    ensures
        r == names_column(texts(columns@), name@),
{
    let ghost views = texts(columns@);
    let mut i: usize = 0;
    while i < columns.len()
        invariant
            i <= columns.len(),
            views == texts(columns@),
            forall|j: int| 0 <= j < i ==> lowered(#[trigger] views[j]) != lowered(name@),
        decreases columns.len() - i,
    {
        if same_ignoring_case(columns[i].as_str(), name) {
            assert(views[i as int] == columns@[i as int]@);
            return true;
        }
        i += 1;
    }
    false
}

pub open spec fn message_view(m: Option<String>) -> Option<Seq<char>> {
    match m {
        Some(s) => Some(s@),
        None => None,
    }
}

fn refuse_list(list: &Vec<Expr>, columns: &Vec<String>, source: &str) -> (r: Option<String>)
    ensures
        message_view(r) == first_refusal(expr_views(list@), texts(columns@), source@),
    decreases list,
{
    let ghost views = expr_views(list@);
    proof {
        lemma_expr_views(list@);
        assert(views.take(0) =~= Seq::<ExprView>::empty());
    }
    let mut i: usize = 0;
    while i < list.len()
        invariant
            i <= list.len(),
            views == expr_views(list@),
            views.len() == list@.len(),
            forall|j: int| 0 <= j < list@.len() ==> (#[trigger] views[j]) == list@[j]@,
            first_refusal(views.take(i as int), texts(columns@), source@) is None,
        decreases list.len() - i,
    {
        proof {
            assert(decreases_to!(list => list@[i as int]));
            assert(views.take(i + 1).drop_last() =~= views.take(i as int));
            assert(views.take(i + 1).last() == views[i as int]);
        }
        if let Some(m) = refuse(&list[i], columns, source) {
            proof {
                lemma_first_refusal_prefix(views, i + 1, texts(columns@), source@);
            }
            return Some(m);
        }
        i += 1;
    }
    assert(views.take(i as int) =~= views);
    None
}

/// A reason found in a prefix of a list is the reason of the list.
proof fn lemma_first_refusal_prefix(
    list: Seq<ExprView>,
    n: int,
    columns: Seq<Seq<char>>,
    source: Seq<char>,
)
    requires
        0 <= n <= list.len(),
        first_refusal(list.take(n), columns, source) is Some,
    ensures
        first_refusal(list, columns, source) == first_refusal(list.take(n), columns, source),
    decreases list.len() - n,
{
    if n == list.len() {
        assert(list.take(n) =~= list);
    } else {
        assert(list.take(n + 1).drop_last() =~= list.take(n));
        lemma_first_refusal_prefix(list, n + 1, columns, source);
    }
}

/// Why an expression cannot be a scope, if it cannot.
fn refuse(e: &Expr, columns: &Vec<String>, source: &str) -> (r: Option<String>)
    ensures
        message_view(r) == refusal(e@, texts(columns@), source@),
    decreases e,
{
    match e {
        Expr::Literal(Literal::CurrentDate) => Some(moving_text("CURRENT_DATE")),
        Expr::Literal(Literal::CurrentTime) => Some(moving_text("CURRENT_TIME")),
        Expr::Literal(Literal::CurrentTimestamp) => Some(moving_text("CURRENT_TIMESTAMP")),
        Expr::Literal(_) => None,
        Expr::Id(name) => if is_column(columns, name.as_str()) {
            None
        } else {
            let mut m = "the column '".to_owned();
            m.append(name.as_str());
            m.append("' in a REFRESH scope is no column of foreign table '");
            m.append(source);
            m.append("'");
            Some(m)
        },
        Expr::Qualified(table, column) => {
            let mut m = "the column '".to_owned();
            m.append(table.as_str());
            m.append(".");
            m.append(column.as_str());
            m.append(
                "' in a REFRESH scope must be unqualified: the scope is applied to the source and to its mirror",
            );
            Some(m)
        },
        Expr::Variable(name) => {
            let mut m = "a REFRESH scope cannot contain the parameter '".to_owned();
            m.append(name.as_str());
            m.append("', to which nothing is bound");
            Some(m)
        },
        Expr::Register(_) => None,
        Expr::Binary(left, _, right) => match refuse(left, columns, source) {
            Some(m) => Some(m),
            None => refuse(right, columns, source),
        },
        Expr::Unary(_, inner) => refuse(inner, columns, source),
        Expr::FunctionCall { name, args, .. } => match classify_call(name.as_str(), args) {
            FunctionKind::Steady => refuse_list(args, columns, source),
            FunctionKind::Moving => Some(moving_text(name.as_str())),
            FunctionKind::Aggregate => Some(aggregate_text(name.as_str())),
            FunctionKind::Unknown => Some(unknown_text(name.as_str())),
        },
        Expr::FunctionCallStar { name } => if is_aggregate_name(name.as_str()) {
            Some(aggregate_text(name.as_str()))
        } else {
            Some(unknown_text(name.as_str()))
        },
        Expr::IsNull(inner) => refuse(inner, columns, source),
        Expr::NotNull(inner) => refuse(inner, columns, source),
        Expr::InList { lhs, rhs, .. } => match refuse(lhs, columns, source) {
            Some(m) => Some(m),
            None => refuse_list(rhs, columns, source),
        },
        Expr::Like { lhs, rhs, .. } => match refuse(lhs, columns, source) {
            Some(m) => Some(m),
            None => refuse(rhs, columns, source),
        },
        Expr::Cast { expr, .. } => refuse(expr, columns, source),
        Expr::Parenthesized(inner) => refuse(inner, columns, source),
        Expr::Subquery(_) => Some(subquery_text()),
        Expr::InSelect { .. } => Some(subquery_text()),
        Expr::Exists(_) => Some(subquery_text()),
    }
}

/// Whether a scope can bound both the scan of a source with these columns and the retraction
/// from its mirror.
pub fn validate(scope: &RefreshScope, columns: &Vec<String>, source: &str) -> (r: Result<
    (),
    LimboError,
>)
    ensures
        match scope@ {
            ScopeView::Full => r is Ok,
            ScopeView::Where(e) => match refusal(e, texts(columns@), source@) {
                None => r is Ok,
                Some(m) => r matches Err(err) && err@ == ErrorView::ParseError(m),
            },
        },
{
    match scope {
        RefreshScope::Full => Ok(()),
        RefreshScope::Where(e) => match refuse(e, columns, source) {
            None => Ok(()),
            Some(m) => Err(LimboError::ParseError(m)),
        },
    }
}

/// An expression whose value is fixed by the row: it reads columns of the row by their bare
/// names, literals that do not move, and steady functions of such expressions.
pub open spec fn fixed_by_row(e: ExprView, columns: Seq<Seq<char>>) -> bool
    decreases e,
{
    match e {
        ExprView::Literal(l) => !(l is CurrentDate || l is CurrentTime || l is CurrentTimestamp),
        ExprView::Id(name) => names_column(columns, name),
        ExprView::Register(_) => true,
        ExprView::Binary(l, _, r) => fixed_by_row(*l, columns) && fixed_by_row(*r, columns),
        ExprView::Unary(_, inner) => fixed_by_row(*inner, columns),
        ExprView::FunctionCall { name, args, .. } => call_kind(name, args) is Steady && (forall|
            i: int,
        |
            0 <= i < args.len() ==> fixed_by_row(#[trigger] args[i], columns)),
        ExprView::IsNull(inner) => fixed_by_row(*inner, columns),
        ExprView::NotNull(inner) => fixed_by_row(*inner, columns),
        ExprView::InList { lhs, rhs, .. } => fixed_by_row(*lhs, columns) && (forall|i: int|
            0 <= i < rhs.len() ==> fixed_by_row(#[trigger] rhs[i], columns)),
        ExprView::Like { lhs, rhs, .. } => fixed_by_row(*lhs, columns) && fixed_by_row(
            *rhs,
            columns,
        ),
        ExprView::Cast { expr, .. } => fixed_by_row(*expr, columns),
        ExprView::Parenthesized(inner) => fixed_by_row(*inner, columns),
        _ => false,
    }
}

/// A scope is accepted exactly where its value is fixed by the mirrored row.
pub proof fn law_accepted_scopes_are_fixed_by_the_row(
    e: ExprView,
    columns: Seq<Seq<char>>,
    source: Seq<char>,
)
    ensures
        refusal(e, columns, source) is None <==> fixed_by_row(e, columns),
    decreases e,
{
    match e {
        ExprView::Binary(l, _, r) => {
            law_accepted_scopes_are_fixed_by_the_row(*l, columns, source);
            law_accepted_scopes_are_fixed_by_the_row(*r, columns, source);
        },
        ExprView::Unary(_, inner) => law_accepted_scopes_are_fixed_by_the_row(
            *inner,
            columns,
            source,
        ),
        ExprView::FunctionCall { args, .. } => lemma_accepted_list(args, columns, source),
        ExprView::IsNull(inner) => law_accepted_scopes_are_fixed_by_the_row(
            *inner,
            columns,
            source,
        ),
        ExprView::NotNull(inner) => law_accepted_scopes_are_fixed_by_the_row(
            *inner,
            columns,
            source,
        ),
        ExprView::InList { lhs, rhs, .. } => {
            law_accepted_scopes_are_fixed_by_the_row(*lhs, columns, source);
            lemma_accepted_list(rhs, columns, source);
        },
        ExprView::Like { lhs, rhs, .. } => {
            law_accepted_scopes_are_fixed_by_the_row(*lhs, columns, source);
            law_accepted_scopes_are_fixed_by_the_row(*rhs, columns, source);
        },
        ExprView::Cast { expr, .. } => law_accepted_scopes_are_fixed_by_the_row(
            *expr,
            columns,
            source,
        ),
        ExprView::Parenthesized(inner) => law_accepted_scopes_are_fixed_by_the_row(
            *inner,
            columns,
            source,
        ),
        _ => {},
    }
}

proof fn lemma_accepted_list(list: Seq<ExprView>, columns: Seq<Seq<char>>, source: Seq<char>)
    ensures
        first_refusal(list, columns, source) is None <==> (forall|i: int|
            0 <= i < list.len() ==> fixed_by_row(#[trigger] list[i], columns)),
    decreases list,
{
    if list.len() > 0 {
        let front = list.drop_last();
        lemma_accepted_list(front, columns, source);
        law_accepted_scopes_are_fixed_by_the_row(list.last(), columns, source);
        assert forall|i: int| 0 <= i < front.len() implies front[i] == list[i] by {}
        if first_refusal(list, columns, source) is None {
            assert forall|i: int| 0 <= i < list.len() implies fixed_by_row(
                #[trigger] list[i],
                columns,
            ) by {
                if i < front.len() {
                    assert(front[i] == list[i]);
                }
            }
        } else if forall|i: int| 0 <= i < list.len() ==> fixed_by_row(#[trigger] list[i], columns) {
            assert forall|i: int| 0 <= i < front.len() implies fixed_by_row(
                #[trigger] front[i],
                columns,
            ) by {
                assert(front[i] == list[i]);
            }
            assert(fixed_by_row(list[list.len() - 1], columns));
        }
    }
}

/// An expression is written as SQL reads it: operators between or before their operands, lists with
/// every item in its place, negations where they belong, and parentheses where they stood.
pub proof fn law_expressions_are_written_as_sql_reads_them(e: ExprView, items: Seq<Seq<char>>)
    requires
        e matches ExprView::FunctionCall { args, .. } ==> items.len() == args.len() && forall|i: int|
            0 <= i < args.len() ==> #[trigger] items[i] == sql_text(args[i]),
        e matches ExprView::InList { rhs, .. } ==> items.len() == rhs.len() && forall|i: int|
            0 <= i < rhs.len() ==> #[trigger] items[i] == sql_text(rhs[i]),
    ensures
        match e {
            ExprView::Id(name) => sql_text(e) == identifier(name),
            ExprView::Qualified(table, column) => sql_text(e) == identifier(table) + "."@
                + identifier(column),
            ExprView::Binary(l, op, r) => sql_text(e) == sql_text(*l) + " "@ + (match op {
                BinaryOperator::Or => "OR"@,
                BinaryOperator::And => "AND"@,
                BinaryOperator::Equals => "="@,
                BinaryOperator::NotEquals => "<>"@,
                BinaryOperator::Less => "<"@,
                BinaryOperator::LessEquals => "<="@,
                BinaryOperator::Greater => ">"@,
                BinaryOperator::GreaterEquals => ">="@,
                BinaryOperator::Is => "IS"@,
                BinaryOperator::IsNot => "IS NOT"@,
                BinaryOperator::Add => "+"@,
                BinaryOperator::Subtract => "-"@,
                BinaryOperator::Multiply => "*"@,
                BinaryOperator::Divide => "/"@,
                BinaryOperator::Modulus => "%"@,
                BinaryOperator::Concat => "||"@,
                BinaryOperator::BitwiseAnd => "&"@,
                BinaryOperator::BitwiseOr => "|"@,
                BinaryOperator::LeftShift => "<<"@,
                BinaryOperator::RightShift => ">>"@,
                BinaryOperator::ArrowRight => "->"@,
                BinaryOperator::ArrowRightShift => "->>"@,
            }) + " "@ + sql_text(*r),
            ExprView::Unary(op, inner) => sql_text(e) == (match op {
                UnaryOperator::Not => "NOT "@,
                UnaryOperator::Negative => "-"@,
                UnaryOperator::Positive => "+"@,
                UnaryOperator::BitwiseNot => "~"@,
            }) + sql_text(*inner),
            ExprView::FunctionCall { name, distinct, .. } => sql_text(e) == name + (if distinct {
                "(DISTINCT "@
            } else {
                "("@
            }) + joined(items, ", "@) + ")"@,
            ExprView::IsNull(inner) => sql_text(e) == sql_text(*inner) + " IS NULL"@,
            ExprView::NotNull(inner) => sql_text(e) == sql_text(*inner) + " IS NOT NULL"@,
            ExprView::InList { lhs, not, .. } => sql_text(e) == sql_text(*lhs) + (if not {
                " NOT IN ("@
            } else {
                " IN ("@
            }) + joined(items, ", "@) + ")"@,
            ExprView::Like { lhs, not, rhs, escape: None } => sql_text(e) == sql_text(*lhs) + (
            if not {
                " NOT LIKE "@
            } else {
                " LIKE "@
            }) + sql_text(*rhs) + ""@,
            ExprView::Like { lhs, not, rhs, escape: Some(c) } => sql_text(e) == sql_text(*lhs) + (
            if not {
                " NOT LIKE "@
            } else {
                " LIKE "@
            }) + sql_text(*rhs) + (" ESCAPE '"@ + c + "'"@),
            ExprView::Cast { expr, cast_type: Some(ty) } => sql_text(e) == "CAST("@ + sql_text(
                *expr,
            ) + (" AS "@ + ty + ")"@),
            ExprView::Parenthesized(inner) => sql_text(e) == "("@ + sql_text(*inner) + ")"@,
            _ => true,
        },
{
    match e {
        ExprView::FunctionCall { args, .. } => {
            assert(sql_texts(args) =~= items);
        },
        ExprView::InList { rhs, .. } => {
            assert(sql_texts(rhs) =~= items);
        },
        _ => {},
    }
}

} // verus!
