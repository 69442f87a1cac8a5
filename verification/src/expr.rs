//! Compilation of expressions.

use vstd::prelude::*;

use crate::ast::{
    expr_views, lemma_expr_views, text_view, BinaryOperator, Expr, ExprView, Literal, LiteralView,
    UnaryOperator,
};
use crate::error::{ErrorView, LimboError};
use crate::filter::or_parse_error;
use crate::logical::{
    copy_text, lemma_lexpr_views, lemma_pair_views, lexpr_views, pair_views, AggFunc, Column,
    ColumnInfoView, ColumnRefView, LogicalExpr, LogicalExprView, LogicalSchema,
};
use crate::plan::column_position;
use crate::show::{logical_text, write_logical, write_option};
use crate::text::{
    decimal, decimal_i64, decimal_int, law_decimals_have_the_value_of_their_digits, quoted,
};
use crate::value::{Datum, Numeric, NumericView, Value};

verus! {

/// An expression as a circuit shows it.
#[derive(Debug, PartialEq, Eq)]
pub enum DbspExpr {
    Column(String),
    Literal(Value),
    BinaryExpr { left: Box<DbspExpr>, op: BinaryOperator, right: Box<DbspExpr> },
}

#[verifier::ext_equal]
pub enum DbspExprView {
    Column(Seq<char>),
    Literal(Datum),
    BinaryExpr { left: Box<DbspExprView>, op: BinaryOperator, right: Box<DbspExprView> },
}

impl DbspExpr {
    pub open spec fn view(&self) -> DbspExprView
        decreases self,
    {
        match self {
            DbspExpr::Column(name) => DbspExprView::Column(name@),
            DbspExpr::Literal(v) => DbspExprView::Literal(v@),
            DbspExpr::BinaryExpr { left, op, right } => DbspExprView::BinaryExpr {
                left: Box::new(left.view()),
                op: *op,
                right: Box::new(right.view()),
            },
        }
    }
}

/// What a list of circuit expressions holds.
pub open spec fn dbsp_views(list: Seq<DbspExpr>) -> Seq<DbspExprView> {
    list.map_values(|e: DbspExpr| e.view())
}

/// The circuit expression of an expression. Aliases are looked through; what a circuit cannot
/// show is a NULL placeholder, and is evaluated from the compiled expression.
pub open spec fn dbsp_of(e: LogicalExprView) -> DbspExprView
    decreases e,
{
    match e {
        LogicalExprView::Column(c) => DbspExprView::Column(c.name),
        LogicalExprView::Literal(v) => DbspExprView::Literal(v),
        LogicalExprView::BinaryExpr { left, op, right } => DbspExprView::BinaryExpr {
            left: Box::new(dbsp_of(*left)),
            op,
            right: Box::new(dbsp_of(*right)),
        },
        LogicalExprView::Alias { expr, .. } => dbsp_of(*expr),
        _ => DbspExprView::Literal(Datum::Null),
    }
}

/// Turns an expression into a circuit expression.
pub fn compile_expr(e: &LogicalExpr) -> (r: DbspExpr)
    ensures
        r.view() == dbsp_of(e.view()),
    decreases e,
{
    match e {
        LogicalExpr::Column(c) => DbspExpr::Column(c.name.clone()),
        LogicalExpr::Literal(v) => DbspExpr::Literal(v.clone()),
        LogicalExpr::BinaryExpr { left, op, right } => DbspExpr::BinaryExpr {
            left: Box::new(compile_expr(left)),
            op: *op,
            right: Box::new(compile_expr(right)),
        },
        LogicalExpr::Alias { expr, alias: _ } => compile_expr(expr),
        _ => DbspExpr::Literal(Value::Null),
    }
}

/// Turns a list of expressions into circuit expressions.
pub fn compile_exprs(list: &Vec<LogicalExpr>) -> (r: Vec<DbspExpr>)
    ensures
        dbsp_views(r@) == lexpr_views(list@).map_values(|e: LogicalExprView| dbsp_of(e)),
{
    let mut out: Vec<DbspExpr> = Vec::new();
    let mut i: usize = 0;
    while i < list.len()
        invariant
            i <= list.len(),
            out@.len() == i,
            forall|j: int| 0 <= j < i ==> (#[trigger] out@[j]).view() == dbsp_of(list@[j].view()),
        decreases list.len() - i,
    {
        out.push(compile_expr(&list[i]));
        i += 1;
    }
    proof {
        lemma_lexpr_views(list@);
        assert(dbsp_views(out@) =~= lexpr_views(list@).map_values(
            |e: LogicalExprView| dbsp_of(e),
        ));
    }
    out
}

// Literals.

pub open spec fn hex_digit(d: int) -> char {
    if d == 0 {
        '0'
    } else if d == 1 {
        '1'
    } else if d == 2 {
        '2'
    } else if d == 3 {
        '3'
    } else if d == 4 {
        '4'
    } else if d == 5 {
        '5'
    } else if d == 6 {
        '6'
    } else if d == 7 {
        '7'
    } else if d == 8 {
        '8'
    } else if d == 9 {
        '9'
    } else if d == 10 {
        'a'
    } else if d == 11 {
        'b'
    } else if d == 12 {
        'c'
    } else if d == 13 {
        'd'
    } else if d == 14 {
        'e'
    } else {
        'f'
    }
}

/// Bytes in hexadecimal: two lower-case digits for each, the high one first.
pub open spec fn hex_text(bytes: Seq<u8>) -> Seq<char>
    decreases bytes.len(),
{
    if bytes.len() == 0 {
        Seq::empty()
    } else {
        hex_text(bytes.drop_last()) + seq![
            hex_digit(bytes.last() as int / 16),
            hex_digit(bytes.last() as int % 16),
        ]
    }
}

/// `hex::encode`: the bytes in hexadecimal, in order, two lower-case digits for each.
#[verifier::external_body]
fn hex_encode(bytes: &Vec<u8>) -> (r: String)
    ensures
        r@ == hex_text(bytes@),
{
    hex::encode(bytes)
}

pub open spec fn is_digit(c: char) -> bool {
    '0' <= c <= '9'
}

/// The number that decimal digits stand for.
pub open spec fn digits_value(digits: Seq<char>) -> nat
    decreases digits.len(),
{
    if digits.len() == 0 {
        0
    } else {
        digits_value(digits.drop_last()) * 10 + (digits.last() as nat - '0' as nat) as nat
    }
}

pub open spec fn all_digits(s: Seq<char>) -> bool {
    s.len() > 0 && (forall|i: int| 0 <= i < s.len() ==> is_digit(#[trigger] s[i]))
}

/// Whether a text reads as a 64-bit integer: an optional sign and digits, within range.
pub open spec fn reads_as_i64(s: Seq<char>) -> bool {
    if s.len() > 0 && s[0] == '-' {
        all_digits(s.skip(1)) && digits_value(s.skip(1)) <= 0x8000_0000_0000_0000
    } else if s.len() > 0 && s[0] == '+' {
        all_digits(s.skip(1)) && digits_value(s.skip(1)) <= 0x7fff_ffff_ffff_ffff
    } else {
        all_digits(s) && digits_value(s) <= 0x7fff_ffff_ffff_ffff
    }
}

proof fn lemma_digits_value_grows(digits: Seq<char>, n: int)
    requires
        0 <= n <= digits.len(),
    ensures
        digits_value(digits.take(n)) <= digits_value(digits),
    decreases digits.len() - n,
{
    if n == digits.len() {
        assert(digits.take(n) =~= digits);
    } else {
        assert(digits.take(n + 1).drop_last() =~= digits.take(n));
        lemma_digits_value_grows(digits, n + 1);
    }
}

/// Whether the characters from `from` on are digits of a number no larger than `limit`.
fn digits_within(s: &str, from: usize, limit: u128) -> (r: bool)
    requires
        from <= s@.len(),
        limit <= 0x8000_0000_0000_0000,
    ensures
        r == (all_digits(s@.skip(from as int)) && digits_value(s@.skip(from as int)) <= limit),
{
    let ghost tail = s@.skip(from as int);
    let n: usize = s.unicode_len();
    if from == n {
        return false;
    }
    let mut value: u128 = 0;
    let mut i: usize = from;
    assert(tail.take(0) =~= Seq::<char>::empty());
    while i < n
        invariant
            from <= i <= n,
            n == s@.len(),
            tail == s@.skip(from as int),
            limit <= 0x8000_0000_0000_0000,
            value <= limit,
            value == digits_value(tail.take(i - from)),
            forall|j: int| 0 <= j < i - from ==> is_digit(#[trigger] tail[j]),
        decreases n - i,
    {
        let c = s.get_char(i);
        assert(c == tail[i - from]);
        if c < '0' || c > '9' {
            return false;
        }
        let d: u128 = (c as u32 - '0' as u32) as u128;
        assert(tail.take(i - from + 1).drop_last() =~= tail.take(i - from));
        value = value * 10 + d;
        if value > limit {
            proof {
                lemma_digits_value_grows(tail, i - from + 1);
            }
            return false;
        }
        i += 1;
    }
    assert(tail.take(n - from) =~= tail);
    true
}

fn parses_as_i64(s: &str) -> (r: bool)
    ensures
        r == reads_as_i64(s@),
{
    let n: usize = s.unicode_len();
    if n > 0 && s.get_char(0) == '-' {
        digits_within(s, 1, 0x8000_0000_0000_0000)
    } else if n > 0 && s.get_char(0) == '+' {
        digits_within(s, 1, 0x7fff_ffff_ffff_ffff)
    } else {
        assert(s@.skip(0) =~= s@);
        digits_within(s, 0, 0x7fff_ffff_ffff_ffff)
    }
}

/// The literal of a real: its text, marked as a real where it would read as an integer.
pub open spec fn real_text(text: Seq<char>) -> Seq<char> {
    if reads_as_i64(text) {
        text + ".0"@
    } else {
        text
    }
}

/// Text with every single quote written twice.
pub open spec fn single_quotes_doubled(text: Seq<char>) -> Seq<char>
    decreases text.len(),
{
    if text.len() == 0 {
        Seq::empty()
    } else if text.last() == '\'' {
        single_quotes_doubled(text.drop_last()) + "''"@
    } else {
        single_quotes_doubled(text.drop_last()).push(text.last())
    }
}

/// A value as a literal. Text is quoted; a blob is written in hexadecimal.
pub open spec fn literal_of(d: Datum) -> LiteralView {
    match d {
        Datum::Numeric(NumericView::Integer(i)) => LiteralView::Numeric(decimal_int(i as int)),
        Datum::Numeric(NumericView::Float(f)) => LiteralView::Numeric(real_text(f.text)),
        Datum::Text(t) => LiteralView::String("'"@ + single_quotes_doubled(t) + "'"@),
        Datum::Blob(b) => LiteralView::Blob("X'"@ + hex_text(b) + "'"@),
        Datum::Null => LiteralView::Null,
    }
}

fn quote_text(text: &str) -> (r: String)
    ensures
        r@ == "'"@ + single_quotes_doubled(text@) + "'"@,
{
    let n: usize = text.unicode_len();
    let mut body = String::new();
    let mut i: usize = 0;
    assert(text@.take(0) =~= Seq::<char>::empty());
    while i < n
        invariant
            i <= n,
            n == text@.len(),
            body@ == single_quotes_doubled(text@.take(i as int)),
        decreases n - i,
    {
        let c = text.get_char(i);
        let ghost before = body@;
        assert(text@.take(i + 1).drop_last() =~= text@.take(i as int));
        if c == '\'' {
            body.append("''");
        } else {
            body.append(text.substring_char(i, i + 1));
            assert(body@ =~= before.push(c));
        }
        i += 1;
    }
    assert(text@.take(i as int) =~= text@);
    let mut r = "'".to_owned();
    r.append(body.as_str());
    r.append("'");
    r
}

/// Writes a value as a literal.
pub fn literal(v: &Value) -> (r: Literal)
    ensures
        r@ == literal_of(v@),
{
    match v {
        Value::Numeric(Numeric::Integer(i)) => Literal::Numeric(decimal_i64(*i)),
        Value::Numeric(Numeric::Float(f)) => {
            let mut text = f.text.clone();
            if parses_as_i64(text.as_str()) {
                text.append(".0");
            }
            Literal::Numeric(text)
        },
        Value::Text(t) => Literal::String(quote_text(t.as_str())),
        Value::Blob(b) => {
            let mut text = "X'".to_owned();
            let digits = hex_encode(b);
            text.append(digits.as_str());
            text.append("'");
            Literal::Blob(text)
        },
        Value::Null => Literal::Null,
    }
}

/// A real is never taken for an integer when its literal is read again.
pub proof fn law_real_literals_stay_real(text: Seq<char>)
    ensures
        !reads_as_i64(real_text(text)),
{
    if reads_as_i64(text) {
        let s = text + ".0"@;
        reveal_strlit(".0");
        let at = s.len() - 2;
        assert(s[at] == '.');
        if s[0] == '-' || s[0] == '+' {
            assert(s.skip(1)[at - 1] == '.');
        }
        assert(!is_digit('.'));
    }
}

/// A literal reads back as its value. An integer has the digits of its value, with a minus sign where
/// it is negative. A text stands between single quotes, one character after the other, with every
/// quote in it written twice. A blob stands in hexadecimal between quotes after an X, each byte as the
/// value of its two digits.
pub proof fn law_literals_read_back(i: i64, t: Seq<char>, c: char, b: Seq<u8>, x: u8)
    ensures
        literal_of(Datum::Null) == LiteralView::Null,
        literal_of(Datum::Numeric(NumericView::Integer(i))) matches LiteralView::Numeric(n) && {
            let value = |digits: Seq<char>|
                digits.fold_left(0int, |v: int, d: char| v * 10 + (d as int - '0' as int));
            if i < 0 {
                n.len() > 1 && n[0] == '-' && value(n.skip(1)) == -i
            } else {
                n.len() > 0 && '0' <= n[0] && n[0] <= '9' && value(n) == i
            }
        },
        literal_of(Datum::Text(Seq::empty())) == LiteralView::String(seq!['\'', '\'']),
        literal_of(Datum::Text(t)) matches LiteralView::String(before) && literal_of(
            Datum::Text(t.push(c)),
        ) == LiteralView::String(
            before.drop_last() + (if c == '\'' {
                seq!['\'', '\'']
            } else {
                seq![c]
            }) + seq!['\''],
        ),
        literal_of(Datum::Blob(Seq::empty())) == LiteralView::Blob(seq!['X', '\'', '\'']),
        literal_of(Datum::Blob(b)) matches LiteralView::Blob(before) && (literal_of(
            Datum::Blob(b.push(x)),
        ) matches LiteralView::Blob(after) && {
            let digit = |h: char|
                if '0' <= h <= '9' {
                    h as int - '0' as int
                } else if 'a' <= h <= 'f' {
                    h as int - 'a' as int + 10
                } else {
                    -1
                };
            let n = before.len() as int;
            &&& after.len() == n + 2
            &&& after.take(n - 1) == before.take(n - 1)
            &&& 0 <= digit(after[n - 1]) < 16
            &&& 0 <= digit(after[n]) < 16
            &&& digit(after[n - 1]) * 16 + digit(after[n]) == x
            &&& after[n + 1] == '\''
        }),
{
    if i < 0 {
        law_decimals_have_the_value_of_their_digits((-i) as nat);
        assert(decimal_int(i as int).skip(1) =~= decimal((-i) as nat));
    } else {
        law_decimals_have_the_value_of_their_digits(i as nat);
    }
    reveal_strlit("'");
    reveal_strlit("''");
    reveal_strlit("X'");
    assert("'"@ =~= seq!['\'']);
    assert("''"@ =~= seq!['\'', '\'']);
    assert("X'"@ =~= seq!['X', '\'']);
    assert("'"@ + single_quotes_doubled(Seq::empty()) + "'"@ =~= seq!['\'', '\'']);
    assert("X'"@ + hex_text(Seq::empty()) + "'"@ =~= seq!['X', '\'', '\'']);
    assert(t.push(c).drop_last() =~= t);
    let before = "'"@ + single_quotes_doubled(t) + "'"@;
    let tail = if c == '\'' {
        seq!['\'', '\'']
    } else {
        seq![c]
    };
    assert(single_quotes_doubled(t.push(c)) =~= single_quotes_doubled(t) + tail);
    assert("'"@ + single_quotes_doubled(t.push(c)) + "'"@ =~= before.drop_last() + tail
        + seq!['\'']);
    assert(b.push(x).drop_last() =~= b);
    let first = "X'"@ + hex_text(b) + "'"@;
    let second = "X'"@ + hex_text(b.push(x)) + "'"@;
    assert(second.take(first.len() - 1) =~= first.take(first.len() - 1));
}

// Syntax trees.

/// An optional qualifier, for a message.
pub open spec fn option_text(t: Option<Seq<char>>) -> Seq<char> {
    match t {
        Some(x) => "Some"@ + "("@ + quoted(x) + ")"@,
        None => "None"@,
    }
}

pub open spec fn aggregate_debug(fun: AggFunc) -> Seq<char> {
    match fun {
        AggFunc::Avg => "Avg"@,
        AggFunc::Count => "Count"@,
        AggFunc::Count0 => "Count0"@,
        AggFunc::GroupConcat => "GroupConcat"@,
        AggFunc::Max => "Max"@,
        AggFunc::Min => "Min"@,
        AggFunc::StringAgg => "StringAgg"@,
        AggFunc::Sum => "Sum"@,
        AggFunc::Total => "Total"@,
        AggFunc::JsonGroupArray => "JsonGroupArray"@,
        AggFunc::JsonbGroupArray => "JsonbGroupArray"@,
        AggFunc::JsonGroupObject => "JsonGroupObject"@,
        AggFunc::JsonbGroupObject => "JsonbGroupObject"@,
        AggFunc::ArrayAgg => "ArrayAgg"@,
    }
}

/// The name of an aggregate function, for a message.
pub fn aggregate_debug_str(fun: AggFunc) -> (r: &'static str)
    ensures
        r@ == aggregate_debug(fun),
{
    match fun {
        AggFunc::Avg => "Avg",
        AggFunc::Count => "Count",
        AggFunc::Count0 => "Count0",
        AggFunc::GroupConcat => "GroupConcat",
        AggFunc::Max => "Max",
        AggFunc::Min => "Min",
        AggFunc::StringAgg => "StringAgg",
        AggFunc::Sum => "Sum",
        AggFunc::Total => "Total",
        AggFunc::JsonGroupArray => "JsonGroupArray",
        AggFunc::JsonbGroupArray => "JsonbGroupArray",
        AggFunc::JsonGroupObject => "JsonGroupObject",
        AggFunc::JsonbGroupObject => "JsonbGroupObject",
        AggFunc::ArrayAgg => "ArrayAgg",
    }
}

/// The SQL name of an aggregate function that has one here.
pub open spec fn aggregate_sql(fun: AggFunc) -> Option<Seq<char>> {
    match fun {
        AggFunc::Count => Some("COUNT"@),
        AggFunc::Sum => Some("SUM"@),
        AggFunc::Avg => Some("AVG"@),
        AggFunc::Min => Some("MIN"@),
        AggFunc::Max => Some("MAX"@),
        _ => None,
    }
}

pub open spec fn scalar_subquery_message() -> Seq<char> {
    "Correlated scalar subqueries in materialized view SELECT lists are not yet supported by the IVM compiler. Rewrite as a LEFT OUTER JOIN with GROUP BY for the same hydrated-row semantics, e.g. `(SELECT json_group_array(t.tag) FROM tags t WHERE t.fk = b.id)` \u{2192} `LEFT OUTER JOIN tags t ON t.fk = b.id` + `json_group_array(t.tag) FILTER (WHERE t.tag IS NOT NULL)` + `GROUP BY b.id`."@
}

pub open spec fn binary(a: ExprView, op: BinaryOperator, b: ExprView) -> ExprView {
    ExprView::Binary(Box::new(a), op, Box::new(b))
}

/// `x BETWEEN low AND high` as two comparisons.
pub open spec fn between(x: ExprView, low: ExprView, high: ExprView, negated: bool) -> ExprView {
    if negated {
        binary(
            binary(x, BinaryOperator::Less, low),
            BinaryOperator::Or,
            binary(x, BinaryOperator::Greater, high),
        )
    } else {
        binary(
            binary(x, BinaryOperator::GreaterEquals, low),
            BinaryOperator::And,
            binary(x, BinaryOperator::LessEquals, high),
        )
    }
}

/// The syntax tree of an expression over the rows of a schema: columns become positions, aliases
/// are looked through, BETWEEN is spelled out. Or the first thing that has none.
pub open spec fn tree_of(e: LogicalExprView, schema: Seq<ColumnInfoView>) -> Result<
    ExprView,
    Seq<char>,
>
    decreases e,
{
    match e {
        LogicalExprView::Column(c) => match column_position(schema, c.name, c.table) {
            Some(i) => Ok(ExprView::Register(i)),
            None => Err(
                "Column '"@ + c.name + "' with table "@ + option_text(c.table)
                    + " not found in schema"@,
            ),
        },
        LogicalExprView::Literal(v) => Ok(ExprView::Literal(literal_of(v))),
        LogicalExprView::BinaryExpr { left, op, right } => match (
            tree_of(*left, schema),
            tree_of(*right, schema),
        ) {
            (Err(m), _) => Err(m),
            (_, Err(m)) => Err(m),
            (Ok(a), Ok(b)) => Ok(binary(a, op, b)),
        },
        LogicalExprView::ScalarFunction { name, args } => match trees_of(args, schema) {
            Err(m) => Err(m),
            Ok(list) => Ok(ExprView::FunctionCall { name, distinct: false, args: list }),
        },
        LogicalExprView::Alias { expr, .. } => tree_of(*expr, schema),
        LogicalExprView::AggregateFunction { fun, args, distinct, .. } => match trees_of(
            args,
            schema,
        ) {
            Err(m) => Err(m),
            Ok(list) => match aggregate_sql(fun) {
                Some(name) => Ok(ExprView::FunctionCall { name, distinct, args: list }),
                None => Err("Unsupported aggregate function: "@ + aggregate_debug(fun)),
            },
        },
        LogicalExprView::Between { expr, low, high, negated } => match (
            tree_of(*expr, schema),
            tree_of(*low, schema),
            tree_of(*high, schema),
        ) {
            (Err(m), _, _) => Err(m),
            (_, Err(m), _) => Err(m),
            (_, _, Err(m)) => Err(m),
            (Ok(x), Ok(l), Ok(h)) => Ok(between(x, l, h, negated)),
        },
        LogicalExprView::InList { expr, list, negated } => match (
            tree_of(*expr, schema),
            trees_of(list, schema),
        ) {
            (Err(m), _) => Err(m),
            (_, Err(m)) => Err(m),
            (Ok(x), Ok(l)) => Ok(ExprView::InList { lhs: Box::new(x), not: negated, rhs: l }),
        },
        LogicalExprView::Like { expr, pattern, escape, negated } => match (
            tree_of(*expr, schema),
            tree_of(*pattern, schema),
        ) {
            (Err(m), _) => Err(m),
            (_, Err(m)) => Err(m),
            (Ok(x), Ok(p)) => Ok(
                ExprView::Like { lhs: Box::new(x), not: negated, rhs: Box::new(p), escape },
            ),
        },
        LogicalExprView::IsNull { expr, negated } => match tree_of(*expr, schema) {
            Err(m) => Err(m),
            Ok(x) => if negated {
                Ok(
                    ExprView::Unary(
                        UnaryOperator::Not,
                        Box::new(ExprView::IsNull(Box::new(x))),
                    ),
                )
            } else {
                Ok(ExprView::IsNull(Box::new(x)))
            },
        },
        LogicalExprView::Cast { expr, cast_type } => match tree_of(*expr, schema) {
            Err(m) => Err(m),
            Ok(x) => Ok(ExprView::Cast { expr: Box::new(x), cast_type }),
        },
        LogicalExprView::ScalarSubquery(_) => Err(scalar_subquery_message()),
        _ => Err("Cannot convert LogicalExpr to AST Expr: "@ + logical_text(e)),
    }
}

/// The syntax trees of a list of expressions, or the first thing that has none.
pub open spec fn trees_of(list: Seq<LogicalExprView>, schema: Seq<ColumnInfoView>) -> Result<
    Seq<ExprView>,
    Seq<char>,
>
    decreases list,
{
    if list.len() == 0 {
        Ok(Seq::empty())
    } else {
        match (trees_of(list.drop_last(), schema), tree_of(list.last(), schema)) {
            (Err(m), _) => Err(m),
            (_, Err(m)) => Err(m),
            (Ok(front), Ok(last)) => Ok(front.push(last)),
        }
    }
}

/// What a conversion came to.
pub open spec fn tree_outcome(r: Result<Expr, LimboError>) -> Result<ExprView, ErrorView> {
    match r {
        Ok(e) => Ok(e@),
        Err(e) => Err(e@),
    }
}

pub open spec fn trees_outcome(r: Result<Vec<Expr>, LimboError>) -> Result<
    Seq<ExprView>,
    ErrorView,
> {
    match r {
        Ok(list) => Ok(expr_views(list@)),
        Err(e) => Err(e@),
    }
}

proof fn lemma_trees_of_prefix(
    list: Seq<LogicalExprView>,
    schema: Seq<ColumnInfoView>,
    n: int,
)
    requires
        0 <= n <= list.len(),
        trees_of(list.take(n), schema) is Err,
    ensures
        trees_of(list, schema) == trees_of(list.take(n), schema),
    decreases list.len() - n,
{
    if n == list.len() {
        assert(list.take(n) =~= list);
    } else {
        assert(list.take(n + 1).drop_last() =~= list.take(n));
        lemma_trees_of_prefix(list, schema, n + 1);
    }
}

fn trees(list: &Vec<LogicalExpr>, schema: &LogicalSchema) -> (r: Result<Vec<Expr>, LimboError>)
    ensures
        trees_outcome(r) == or_parse_error(trees_of(lexpr_views(list@), schema@)),
    decreases list,
{
    let ghost views = lexpr_views(list@);
    let mut out: Vec<Expr> = Vec::new();
    let mut i: usize = 0;
    proof {
        lemma_lexpr_views(list@);
        lemma_expr_views(out@);
        assert(views.take(0) =~= Seq::<LogicalExprView>::empty());
        assert(expr_views(out@) =~= Seq::<ExprView>::empty());
    }
    while i < list.len()
        invariant
            i <= list.len(),
            views == lexpr_views(list@),
            views.len() == list@.len(),
            trees_of(views.take(i as int), schema@) == Ok::<Seq<ExprView>, Seq<char>>(
                expr_views(out@),
            ),
        decreases list.len() - i,
    {
        let ghost before = out@;
        proof {
            lemma_lexpr_views(list@);
            assert(decreases_to!(list => list@[i as int]));
            assert(views.take(i + 1).drop_last() =~= views.take(i as int));
            assert(views.take(i + 1).last() == list@[i as int].view());
        }
        match logical_to_ast_expr_with_schema(&list[i], schema) {
            Err(e) => {
                proof {
                    lemma_trees_of_prefix(views, schema@, i + 1);
                }
                return Err(e);
            },
            Ok(x) => {
                out.push(x);
                proof {
                    lemma_expr_views(out@);
                    lemma_expr_views(before);
                    assert(expr_views(out@) =~= expr_views(before).push(x@));
                }
            },
        }
        i += 1;
    }
    assert(views.take(i as int) =~= views);
    Ok(out)
}

fn copy_tree_list(list: &Vec<Expr>) -> (r: Vec<Expr>)
    ensures
        expr_views(r@) == expr_views(list@),
    decreases list,
{
    let mut out: Vec<Expr> = Vec::new();
    let mut i: usize = 0;
    while i < list.len()
        invariant
            i <= list.len(),
            out@.len() == i,
            forall|j: int| 0 <= j < i ==> (#[trigger] out@[j])@ == list@[j]@,
        decreases list.len() - i,
    {
        assert(decreases_to!(list => list@[i as int]));
        out.push(copy_tree(&list[i]));
        i += 1;
    }
    proof {
        lemma_expr_views(out@);
        lemma_expr_views(list@);
        assert(expr_views(out@) =~= expr_views(list@));
    }
    out
}

fn copy_literal(l: &Literal) -> (r: Literal)
    ensures
        r@ == l@,
{
    match l {
        Literal::Numeric(s) => Literal::Numeric(s.clone()),
        Literal::String(s) => Literal::String(s.clone()),
        Literal::Blob(s) => Literal::Blob(s.clone()),
        Literal::Null => Literal::Null,
        Literal::True => Literal::True,
        Literal::False => Literal::False,
        Literal::CurrentDate => Literal::CurrentDate,
        Literal::CurrentTime => Literal::CurrentTime,
        Literal::CurrentTimestamp => Literal::CurrentTimestamp,
    }
}

/// A copy of a syntax tree.
pub fn copy_tree(e: &Expr) -> (r: Expr)
    ensures
        r@ == e@,
    decreases e,
{
    match e {
        Expr::Literal(l) => Expr::Literal(copy_literal(l)),
        Expr::Id(s) => Expr::Id(s.clone()),
        Expr::Qualified(t, c) => Expr::Qualified(t.clone(), c.clone()),
        Expr::Variable(s) => Expr::Variable(s.clone()),
        Expr::Register(i) => Expr::Register(*i),
        Expr::Binary(l, op, r) => Expr::Binary(
            Box::new(copy_tree(l)),
            *op,
            Box::new(copy_tree(r)),
        ),
        Expr::Unary(op, x) => Expr::Unary(*op, Box::new(copy_tree(x))),
        Expr::FunctionCall { name, distinct, args } => Expr::FunctionCall {
            name: name.clone(),
            distinct: *distinct,
            args: copy_tree_list(args),
        },
        Expr::FunctionCallStar { name } => Expr::FunctionCallStar { name: name.clone() },
        Expr::IsNull(x) => Expr::IsNull(Box::new(copy_tree(x))),
        Expr::NotNull(x) => Expr::NotNull(Box::new(copy_tree(x))),
        Expr::InList { lhs, not, rhs } => Expr::InList {
            lhs: Box::new(copy_tree(lhs)),
            not: *not,
            rhs: copy_tree_list(rhs),
        },
        Expr::Like { lhs, not, rhs, escape } => Expr::Like {
            lhs: Box::new(copy_tree(lhs)),
            not: *not,
            rhs: Box::new(copy_tree(rhs)),
            escape: copy_text(escape),
        },
        Expr::Cast { expr, cast_type } => Expr::Cast {
            expr: Box::new(copy_tree(expr)),
            cast_type: copy_text(cast_type),
        },
        Expr::Parenthesized(x) => Expr::Parenthesized(Box::new(copy_tree(x))),
        Expr::Subquery(s) => Expr::Subquery(s.clone()),
        Expr::InSelect { lhs, not, query } => Expr::InSelect {
            lhs: Box::new(copy_tree(lhs)),
            not: *not,
            query: query.clone(),
        },
        Expr::Exists(s) => Expr::Exists(s.clone()),
    }
}

fn missing_column(col: &Column) -> (r: LimboError)
    ensures
        r@ == ErrorView::ParseError(
            "Column '"@ + col@.name + "' with table "@ + option_text(col@.table)
                + " not found in schema"@,
        ),
{
    let mut m = "Column '".to_owned();
    m.append(col.name.as_str());
    m.append("' with table ");
    m.append(write_option(&col.table).as_str());
    m.append(" not found in schema");
    LimboError::ParseError(m)
}

/// Turns an expression into a syntax tree over the rows of a schema.
pub fn logical_to_ast_expr_with_schema(e: &LogicalExpr, schema: &LogicalSchema) -> (r: Result<
    Expr,
    LimboError,
>)
    ensures
        tree_outcome(r) == or_parse_error(tree_of(e.view(), schema@)),
    decreases e,
{
    proof {
        reveal_with_fuel(Expr::view, 3);
    }
    match e {
        LogicalExpr::Column(c) => match schema.find_column(c) {
            Some(idx) => Ok(Expr::Register(idx)),
            None => Err(missing_column(c)),
        },
        LogicalExpr::Literal(v) => Ok(Expr::Literal(literal(v))),
        LogicalExpr::BinaryExpr { left, op, right } => {
            let a = match logical_to_ast_expr_with_schema(left, schema) {
                Ok(x) => x,
                Err(err) => return Err(err),
            };
            let b = match logical_to_ast_expr_with_schema(right, schema) {
                Ok(x) => x,
                Err(err) => return Err(err),
            };
            Ok(Expr::Binary(Box::new(a), *op, Box::new(b)))
        },
        LogicalExpr::ScalarFunction { name, args } => match trees(args, schema) {
            Err(err) => Err(err),
            Ok(list) => Ok(
                Expr::FunctionCall { name: name.clone(), distinct: false, args: list },
            ),
        },
        LogicalExpr::Alias { expr, alias: _ } => logical_to_ast_expr_with_schema(expr, schema),
        LogicalExpr::AggregateFunction { fun, args, distinct, filter: _ } => match trees(
            args,
            schema,
        ) {
            Err(err) => Err(err),
            Ok(list) => {
                let name = match fun {
                    AggFunc::Count => "COUNT",
                    AggFunc::Sum => "SUM",
                    AggFunc::Avg => "AVG",
                    AggFunc::Min => "MIN",
                    AggFunc::Max => "MAX",
                    _ => {
                        let mut m = "Unsupported aggregate function: ".to_owned();
                        m.append(aggregate_debug_str(*fun));
                        return Err(LimboError::ParseError(m));
                    },
                };
                Ok(Expr::FunctionCall { name: name.to_owned(), distinct: *distinct, args: list })
            },
        },
        LogicalExpr::Between { expr, low, high, negated } => {
            let x = match logical_to_ast_expr_with_schema(expr, schema) {
                Ok(x) => x,
                Err(err) => return Err(err),
            };
            let l = match logical_to_ast_expr_with_schema(low, schema) {
                Ok(x) => x,
                Err(err) => return Err(err),
            };
            let h = match logical_to_ast_expr_with_schema(high, schema) {
                Ok(x) => x,
                Err(err) => return Err(err),
            };
            let again = copy_tree(&x);
            if *negated {
                Ok(
                    Expr::Binary(
                        Box::new(Expr::Binary(Box::new(again), BinaryOperator::Less, Box::new(l))),
                        BinaryOperator::Or,
                        Box::new(Expr::Binary(Box::new(x), BinaryOperator::Greater, Box::new(h))),
                    ),
                )
            } else {
                Ok(
                    Expr::Binary(
                        Box::new(
                            Expr::Binary(
                                Box::new(again),
                                BinaryOperator::GreaterEquals,
                                Box::new(l),
                            ),
                        ),
                        BinaryOperator::And,
                        Box::new(
                            Expr::Binary(Box::new(x), BinaryOperator::LessEquals, Box::new(h)),
                        ),
                    ),
                )
            }
        },
        LogicalExpr::InList { expr, list, negated } => {
            let x = match logical_to_ast_expr_with_schema(expr, schema) {
                Ok(x) => x,
                Err(err) => return Err(err),
            };
            match trees(list, schema) {
                Err(err) => Err(err),
                Ok(items) => Ok(Expr::InList { lhs: Box::new(x), not: *negated, rhs: items }),
            }
        },
        LogicalExpr::Like { expr, pattern, escape, negated } => {
            let x = match logical_to_ast_expr_with_schema(expr, schema) {
                Ok(x) => x,
                Err(err) => return Err(err),
            };
            let p = match logical_to_ast_expr_with_schema(pattern, schema) {
                Ok(x) => x,
                Err(err) => return Err(err),
            };
            Ok(
                Expr::Like {
                    lhs: Box::new(x),
                    not: *negated,
                    rhs: Box::new(p),
                    escape: copy_text(escape),
                },
            )
        },
        LogicalExpr::IsNull { expr, negated } => {
            let x = match logical_to_ast_expr_with_schema(expr, schema) {
                Ok(x) => x,
                Err(err) => return Err(err),
            };
            if *negated {
                Ok(Expr::Unary(UnaryOperator::Not, Box::new(Expr::IsNull(Box::new(x)))))
            } else {
                Ok(Expr::IsNull(Box::new(x)))
            }
        },
        LogicalExpr::Cast { expr, cast_type } => {
            let x = match logical_to_ast_expr_with_schema(expr, schema) {
                Ok(x) => x,
                Err(err) => return Err(err),
            };
            Ok(Expr::Cast { expr: Box::new(x), cast_type: copy_text(cast_type) })
        },
        LogicalExpr::ScalarSubquery(_) => Err(
            LimboError::ParseError(
                "Correlated scalar subqueries in materialized view SELECT lists are not yet supported by the IVM compiler. Rewrite as a LEFT OUTER JOIN with GROUP BY for the same hydrated-row semantics, e.g. `(SELECT json_group_array(t.tag) FROM tags t WHERE t.fk = b.id)` \u{2192} `LEFT OUTER JOIN tags t ON t.fk = b.id` + `json_group_array(t.tag) FILTER (WHERE t.tag IS NOT NULL)` + `GROUP BY b.id`.".to_owned(),
            ),
        ),
        _ => {
            let mut m = "Cannot convert LogicalExpr to AST Expr: ".to_owned();
            m.append(write_logical(e).as_str());
            Err(LimboError::ParseError(m))
        },
    }
}

/// An expression ready to be evaluated on the rows of a schema: its syntax tree, and how many
/// columns the rows have.
#[derive(Debug, PartialEq, Eq)]
pub struct CompiledExpression {
    pub tree: Expr,
    pub input_count: usize,
}

#[verifier::ext_equal]
pub struct CompiledView {
    pub tree: ExprView,
    pub input_count: int,
}

impl View for CompiledExpression {
    type V = CompiledView;

    open spec fn view(&self) -> CompiledView {
        CompiledView { tree: self.tree@, input_count: self.input_count as int }
    }
}

pub open spec fn compiled_views(list: Seq<CompiledExpression>) -> Seq<CompiledView> {
    list.map_values(|c: CompiledExpression| c@)
}

/// The column at a position, as it is.
pub open spec fn passthrough(i: int, input_count: int) -> CompiledView {
    CompiledView { tree: ExprView::Register(i), input_count }
}

/// The compiled form of an expression without its aliases, and the outermost alias.
pub open spec fn compiled_of(e: LogicalExprView, schema: Seq<ColumnInfoView>) -> Result<
    (CompiledView, Option<Seq<char>>),
    Seq<char>,
>
    decreases e,
{
    match e {
        LogicalExprView::Alias { expr, alias } => match compiled_of(*expr, schema) {
            Ok(c) => Ok((c.0, Some(alias))),
            Err(m) => Err(m),
        },
        _ => match tree_of(e, schema) {
            Ok(tree) => Ok((CompiledView { tree, input_count: schema.len() as int }, None)),
            Err(m) => Err(m),
        },
    }
}

pub open spec fn compiled_outcome(
    r: Result<(CompiledExpression, Option<String>), LimboError>,
) -> Result<(CompiledView, Option<Seq<char>>), ErrorView> {
    match r {
        Ok(c) => Ok((c.0@, text_view(c.1))),
        Err(e) => Err(e@),
    }
}

/// Compiles an expression, and gives its alias where it has one.
pub fn compile_expression(e: &LogicalExpr, input_schema: &LogicalSchema) -> (r: Result<
    (CompiledExpression, Option<String>),
    LimboError,
>)
    ensures
        compiled_outcome(r) == or_parse_error(compiled_of(e.view(), input_schema@)),
    decreases e,
{
    if let LogicalExpr::Alias { expr, alias } = e {
        return match compile_expression(expr, input_schema) {
            Ok(c) => Ok((c.0, Some(alias.clone()))),
            Err(err) => Err(err),
        };
    }
    match logical_to_ast_expr_with_schema(e, input_schema) {
        Ok(tree) => Ok(
            (CompiledExpression { tree, input_count: input_schema.columns.len() }, None),
        ),
        Err(err) => Err(err),
    }
}

// Which side of a join an expression reads.

/// The columns that an expression reads itself, subqueries left aside.
pub open spec fn refs_of(e: LogicalExprView) -> Seq<ColumnRefView>
    decreases e,
{
    match e {
        LogicalExprView::Column(c) => seq![c],
        LogicalExprView::BinaryExpr { left, right, .. } => refs_of(*left) + refs_of(*right),
        LogicalExprView::UnaryExpr { expr, .. } => refs_of(*expr),
        LogicalExprView::IsNull { expr, .. } => refs_of(*expr),
        LogicalExprView::Like { expr, pattern, .. } => refs_of(*expr) + refs_of(*pattern),
        LogicalExprView::Between { expr, low, high, .. } => refs_of(*expr) + refs_of(*low)
            + refs_of(*high),
        LogicalExprView::InList { expr, list, .. } => refs_of(*expr) + refs_of_list(list),
        LogicalExprView::ScalarFunction { args, .. } => refs_of_list(args),
        LogicalExprView::Cast { expr, .. } => refs_of(*expr),
        LogicalExprView::Alias { expr, .. } => refs_of(*expr),
        LogicalExprView::Case { base, when_then, else_expr } => (match base {
            Some(b) => refs_of(*b),
            None => Seq::empty(),
        }) + refs_of_pairs(when_then) + (match else_expr {
            Some(b) => refs_of(*b),
            None => Seq::empty(),
        }),
        LogicalExprView::AggregateFunction { args, .. } => refs_of_list(args),
        _ => Seq::empty(),
    }
}

pub open spec fn refs_of_list(list: Seq<LogicalExprView>) -> Seq<ColumnRefView>
    decreases list,
{
    if list.len() == 0 {
        Seq::empty()
    } else {
        refs_of_list(list.drop_last()) + refs_of(list.last())
    }
}

pub open spec fn refs_of_pairs(list: Seq<(LogicalExprView, LogicalExprView)>) -> Seq<ColumnRefView>
    decreases list,
{
    if list.len() == 0 {
        Seq::empty()
    } else {
        refs_of_pairs(list.drop_last()) + refs_of(list.last().0) + refs_of(list.last().1)
    }
}

/// What a list of column references holds.
pub open spec fn ref_views(list: Seq<Column>) -> Seq<ColumnRefView> {
    list.map_values(|c: Column| c@)
}

fn collect_into(e: &LogicalExpr, out: &mut Vec<Column>)
    ensures
        ref_views(final(out)@) == ref_views(old(out)@) + refs_of(e.view()),
    decreases e,
{
    let ghost before = ref_views(out@);
    match e {
        LogicalExpr::Column(c) => {
            let ghost listed = out@;
            out.push(c.clone());
            assert(ref_views(out@) =~= ref_views(listed) + seq![c@]);
        },
        LogicalExpr::BinaryExpr { left, op: _, right } => {
            collect_into(left, out);
            collect_into(right, out);
        },
        LogicalExpr::UnaryExpr { op: _, expr } => {
            collect_into(expr, out);
        },
        LogicalExpr::IsNull { expr, negated: _ } => {
            collect_into(expr, out);
        },
        LogicalExpr::Like { expr, pattern, escape: _, negated: _ } => {
            collect_into(expr, out);
            collect_into(pattern, out);
        },
        LogicalExpr::Between { expr, low, high, negated: _ } => {
            collect_into(expr, out);
            collect_into(low, out);
            collect_into(high, out);
        },
        LogicalExpr::InList { expr, list, negated: _ } => {
            collect_into(expr, out);
            collect_list_into(list, out);
        },
        LogicalExpr::ScalarFunction { name: _, args } => {
            collect_list_into(args, out);
        },
        LogicalExpr::Cast { expr, cast_type: _ } => {
            collect_into(expr, out);
        },
        LogicalExpr::Alias { expr, alias: _ } => {
            collect_into(expr, out);
        },
        LogicalExpr::Case { base, when_then, else_expr } => {
            if let Some(b) = base {
                collect_into(b, out);
            }
            collect_pairs_into(when_then, out);
            if let Some(b) = else_expr {
                collect_into(b, out);
            }
        },
        LogicalExpr::AggregateFunction { fun: _, args, distinct: _, filter: _ } => {
            collect_list_into(args, out);
        },
        LogicalExpr::Literal(_) => {},
        LogicalExpr::InSubquery { .. } => {},
        LogicalExpr::Exists { .. } => {},
        LogicalExpr::ScalarSubquery(_) => {},
    }
    assert(ref_views(out@) =~= before + refs_of(e.view()));
}

fn collect_list_into(list: &Vec<LogicalExpr>, out: &mut Vec<Column>)
    ensures
        ref_views(final(out)@) == ref_views(old(out)@) + refs_of_list(lexpr_views(list@)),
    decreases list,
{
    let ghost before = ref_views(out@);
    let ghost views = lexpr_views(list@);
    let mut i: usize = 0;
    proof {
        lemma_lexpr_views(list@);
        assert(views.take(0) =~= Seq::<LogicalExprView>::empty());
        assert(before + Seq::<ColumnRefView>::empty() =~= before);
    }
    while i < list.len()
        invariant
            i <= list.len(),
            views == lexpr_views(list@),
            views.len() == list@.len(),
            ref_views(out@) == before + refs_of_list(views.take(i as int)),
        decreases list.len() - i,
    {
        proof {
            lemma_lexpr_views(list@);
            assert(decreases_to!(list => list@[i as int]));
            assert(views.take(i + 1).drop_last() =~= views.take(i as int));
            assert(views.take(i + 1).last() == list@[i as int].view());
        }
        collect_into(&list[i], out);
        assert(ref_views(out@) =~= before + refs_of_list(views.take(i + 1)));
        i += 1;
    }
    assert(views.take(i as int) =~= views);
}

fn collect_pairs_into(list: &Vec<(LogicalExpr, LogicalExpr)>, out: &mut Vec<Column>)
    ensures
        ref_views(final(out)@) == ref_views(old(out)@) + refs_of_pairs(pair_views(list@)),
    decreases list,
{
    let ghost before = ref_views(out@);
    let ghost views = pair_views(list@);
    let mut i: usize = 0;
    proof {
        lemma_pair_views(list@);
        assert(views.take(0) =~= Seq::<(LogicalExprView, LogicalExprView)>::empty());
        assert(before + Seq::<ColumnRefView>::empty() =~= before);
    }
    while i < list.len()
        invariant
            i <= list.len(),
            views == pair_views(list@),
            views.len() == list@.len(),
            ref_views(out@) == before + refs_of_pairs(views.take(i as int)),
        decreases list.len() - i,
    {
        proof {
            lemma_pair_views(list@);
            assert(decreases_to!(list => list@[i as int]));
            assert(decreases_to!(list@[i as int] => list@[i as int].0));
            assert(decreases_to!(list@[i as int] => list@[i as int].1));
            assert(views.take(i + 1).drop_last() =~= views.take(i as int));
            assert(views.take(i + 1).last() == views[i as int]);
        }
        collect_into(&list[i].0, out);
        collect_into(&list[i].1, out);
        assert(ref_views(out@) =~= before + refs_of_pairs(views.take(i + 1)));
        i += 1;
    }
    assert(views.take(i as int) =~= views);
}

/// Collects the columns that an expression reads itself.
pub fn collect_column_refs(e: &LogicalExpr) -> (r: Vec<Column>)
    ensures
        ref_views(r@) == refs_of(e.view()),
{
    let mut out: Vec<Column> = Vec::new();
    assert(ref_views(out@) =~= Seq::<ColumnRefView>::empty());
    collect_into(e, &mut out);
    assert(ref_views(out@) =~= refs_of(e.view()));
    out
}

/// Which side of a join a filter reads.
#[derive(Debug, PartialEq, Eq, Clone, Copy, Structural)]
pub enum FilterSide {
    LeftOnly,
    RightOnly,
    Cross,
}

/// Whether one of some columns is in a schema.
pub open spec fn some_resolves(refs: Seq<ColumnRefView>, schema: Seq<ColumnInfoView>) -> bool {
    exists|i: int|
        0 <= i < refs.len() && column_position(
            schema,
            (#[trigger] refs[i]).name,
            refs[i].table,
        ) is Some
}

/// The side of a join that an expression reads. One that reads both sides, or neither, crosses.
pub open spec fn side_of(
    e: LogicalExprView,
    left: Seq<ColumnInfoView>,
    right: Seq<ColumnInfoView>,
) -> FilterSide {
    match (some_resolves(refs_of(e), left), some_resolves(refs_of(e), right)) {
        (true, false) => FilterSide::LeftOnly,
        (false, true) => FilterSide::RightOnly,
        _ => FilterSide::Cross,
    }
}

/// Tells which side of a join an expression reads.
pub fn classify_filter_side(
    e: &LogicalExpr,
    left_schema: &LogicalSchema,
    right_schema: &LogicalSchema,
) -> (r: FilterSide)
    ensures
        r == side_of(e.view(), left_schema@, right_schema@),
{
    let cols = collect_column_refs(e);
    let ghost refs = refs_of(e.view());
    let mut refs_left = false;
    let mut refs_right = false;
    let mut i: usize = 0;
    while i < cols.len()
        invariant
            i <= cols.len(),
            refs == ref_views(cols@),
            refs_left == some_resolves(refs.take(i as int), left_schema@),
            refs_right == some_resolves(refs.take(i as int), right_schema@),
        decreases cols.len() - i,
    {
        let in_left = left_schema.find_column(&cols[i]).is_some();
        let in_right = right_schema.find_column(&cols[i]).is_some();
        proof {
            assert(refs[i as int] == cols@[i as int]@);
            lemma_some_resolves_step(refs, left_schema@, i as int);
            lemma_some_resolves_step(refs, right_schema@, i as int);
        }
        if in_left {
            refs_left = true;
        }
        if in_right {
            refs_right = true;
        }
        i += 1;
    }
    assert(refs.take(i as int) =~= refs);
    match (refs_left, refs_right) {
        (true, false) => FilterSide::LeftOnly,
        (false, true) => FilterSide::RightOnly,
        _ => FilterSide::Cross,
    }
}

proof fn lemma_some_resolves_step(
    refs: Seq<ColumnRefView>,
    schema: Seq<ColumnInfoView>,
    i: int,
)
    requires
        0 <= i < refs.len(),
    ensures
        some_resolves(refs.take(i + 1), schema) == (some_resolves(refs.take(i), schema)
            || column_position(schema, refs[i].name, refs[i].table) is Some),
{
    let before = refs.take(i);
    let after = refs.take(i + 1);
    if some_resolves(before, schema) {
        let k = choose|k: int|
            0 <= k < before.len() && column_position(
                schema,
                (#[trigger] before[k]).name,
                before[k].table,
            ) is Some;
        assert(after[k] == before[k]);
    }
    if column_position(schema, refs[i].name, refs[i].table) is Some {
        assert(after[i] == refs[i]);
    }
    if some_resolves(after, schema) {
        let k = choose|k: int|
            0 <= k < after.len() && column_position(
                schema,
                (#[trigger] after[k]).name,
                after[k].table,
            ) is Some;
        if k < i {
            assert(before[k] == after[k]);
        } else {
            assert(after[k] == refs[i]);
        }
    }
}

/// Two columns of a join condition, each with its position on its own side.
#[verifier::ext_equal]
pub struct JoinKeyView {
    pub left: ColumnRefView,
    pub left_idx: int,
    pub right: ColumnRefView,
    pub right_idx: int,
}

/// The sides of the two columns of a join condition: the first on the left and the second on the
/// right where they resolve so, else the other way round, else why neither holds.
pub open spec fn join_key(
    first: ColumnRefView,
    second: ColumnRefView,
    left: Seq<ColumnInfoView>,
    right: Seq<ColumnInfoView>,
) -> Result<JoinKeyView, Seq<char>> {
    let first_left = column_position(left, first.name, first.table);
    let first_right = column_position(right, first.name, first.table);
    let second_left = column_position(left, second.name, second.table);
    let second_right = column_position(right, second.name, second.table);
    if first_left is Some && second_right is Some {
        Ok(
            JoinKeyView {
                left: first,
                left_idx: first_left->Some_0,
                right: second,
                right_idx: second_right->Some_0,
            },
        )
    } else if first_right is Some && second_left is Some {
        Ok(
            JoinKeyView {
                left: second,
                left_idx: second_left->Some_0,
                right: first,
                right_idx: first_right->Some_0,
            },
        )
    } else if first_left is None && first_right is None {
        Err("Join condition column '"@ + first.name + "' not found in either input"@)
    } else if second_left is None && second_right is None {
        Err("Join condition column '"@ + second.name + "' not found in either input"@)
    } else {
        Err(
            "Join condition columns '"@ + first.name + "' and '"@ + second.name
                + "' must come from different input tables"@,
        )
    }
}

fn not_in_either_input(name: &str) -> (r: LimboError)
    ensures
        r@ == ErrorView::ParseError(
            "Join condition column '"@ + name@ + "' not found in either input"@,
        ),
{
    let mut m = "Join condition column '".to_owned();
    m.append(name);
    m.append("' not found in either input");
    LimboError::ParseError(m)
}

pub open spec fn join_key_outcome(r: Result<(Column, usize, Column, usize), LimboError>) -> Result<
    JoinKeyView,
    ErrorView,
> {
    match r {
        Ok(k) => Ok(
            JoinKeyView {
                left: k.0@,
                left_idx: k.1 as int,
                right: k.2@,
                right_idx: k.3 as int,
            },
        ),
        Err(e) => Err(e@),
    }
}

/// Finds the sides of the two columns of a join condition.
pub fn join_columns(
    first_col: &Column,
    second_col: &Column,
    left_schema: &LogicalSchema,
    right_schema: &LogicalSchema,
) -> (r: Result<(Column, usize, Column, usize), LimboError>)
    ensures
        join_key_outcome(r) == or_parse_error(
            join_key(first_col@, second_col@, left_schema@, right_schema@),
        ),
{
    let first_in_left = left_schema.find_column(first_col);
    let first_in_right = right_schema.find_column(first_col);
    let second_in_left = left_schema.find_column(second_col);
    let second_in_right = right_schema.find_column(second_col);
    match (first_in_left, second_in_right) {
        (Some(left_idx), Some(right_idx)) => {
            return Ok((first_col.clone(), left_idx, second_col.clone(), right_idx));
        },
        _ => {},
    }
    match (second_in_left, first_in_right) {
        (Some(left_idx), Some(right_idx)) => {
            return Ok((second_col.clone(), left_idx, first_col.clone(), right_idx));
        },
        _ => {},
    }
    if first_in_left.is_none() && first_in_right.is_none() {
        Err(not_in_either_input(first_col.name.as_str()))
    } else if second_in_left.is_none() && second_in_right.is_none() {
        Err(not_in_either_input(second_col.name.as_str()))
    } else {
        let mut m = "Join condition columns '".to_owned();
        m.append(first_col.name.as_str());
        m.append("' and '");
        m.append(second_col.name.as_str());
        m.append("' must come from different input tables");
        Err(LimboError::ParseError(m))
    }
}

/// The order of a join condition does not matter where only one order resolves.
pub proof fn law_join_conditions_are_symmetric(
    first: ColumnRefView,
    second: ColumnRefView,
    left: Seq<ColumnInfoView>,
    right: Seq<ColumnInfoView>,
)
    requires
        join_key(first, second, left, right) is Ok,
        !(column_position(left, first.name, first.table) is Some && column_position(
            right,
            first.name,
            first.table,
        ) is Some && column_position(left, second.name, second.table) is Some && column_position(
            right,
            second.name,
            second.table,
        ) is Some),
    ensures
        join_key(second, first, left, right) == join_key(first, second, left, right),
{
}

/// A circuit shows an expression as it is: columns by their names, literals, and operators between
/// the two sides that they stand between. It looks through aliases.
pub proof fn law_expressions_are_shown_as_they_are(e: LogicalExprView)
    ensures
        match e {
            LogicalExprView::Column(c) => dbsp_of(e) == DbspExprView::Column(c.name),
            LogicalExprView::Literal(v) => dbsp_of(e) == DbspExprView::Literal(v),
            LogicalExprView::BinaryExpr { left, op, right } => dbsp_of(e) matches
                DbspExprView::BinaryExpr { left: l, op: o, right: r } && *l == dbsp_of(*left) && o
                == op && *r == dbsp_of(*right),
            LogicalExprView::Alias { expr, .. } => dbsp_of(e) == dbsp_of(*expr),
            _ => dbsp_of(e) == DbspExprView::Literal(Datum::Null),
        },
{
}

} // verus!
