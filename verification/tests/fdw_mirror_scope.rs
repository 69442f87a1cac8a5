//! Scoped `REFRESH`: the sweep when the scan speaks for only part of the source.
//!
//! Absence of a row from a scan means "deleted" only within the scan's scope, so a sweep retracts
//! inside its scope and leaves everything else alone.

use incremental::ast::{BinaryOperator, Expr, Literal};
use incremental::mirror::{mirror_table_name, Column, MirrorSpec, MirrorSync, ScanQuery};
use incremental::scope::{to_sql, RefreshScope};

fn col(name: &str, ty: &str) -> Column {
    Column { name: Some(name.to_string()), ty_str: ty.to_string() }
}

const MIRROR: &str = "__turso_internal_fdw_mirror_v1_mv__cc_message_fdw";
const SCAN: &str = "SELECT * FROM cc_message_fdw WHERE session_id = 's1'";

fn sync(identity: Vec<u32>) -> MirrorSync {
    let spec = MirrorSpec {
        source_table: "cc_message_fdw".to_string(),
        mirror_table: mirror_table_name("mv", "cc_message_fdw"),
        columns: vec![col("uuid", "TEXT"), col("session_id", "TEXT"), col("body", "TEXT")],
        identity,
    };
    MirrorSync::new(
        &spec,
        ScanQuery::new(
            "SELECT * FROM cc_message_fdw".to_string(),
            Some("session_id = 's1'".to_string()),
        ),
    )
}

fn id(name: &str) -> Expr {
    Expr::Id(name.to_string())
}

fn number(text: &str) -> Expr {
    Expr::Literal(Literal::Numeric(text.to_string()))
}

fn text(quoted: &str) -> Expr {
    Expr::Literal(Literal::String(quoted.to_string()))
}

fn binary(lhs: Expr, op: BinaryOperator, rhs: Expr) -> Expr {
    Expr::Binary(Box::new(lhs), op, Box::new(rhs))
}

fn greater(lhs: Expr, rhs: Expr) -> Expr {
    binary(lhs, BinaryOperator::Greater, rhs)
}

fn equals(lhs: Expr, rhs: Expr) -> Expr {
    binary(lhs, BinaryOperator::Equals, rhs)
}

fn call(name: &str, args: Vec<Expr>) -> Expr {
    Expr::FunctionCall { name: name.to_string(), distinct: false, args }
}

/// `body > 'w'`
fn above_w() -> RefreshScope {
    RefreshScope::Where(greater(id("body"), text("'w'")))
}

/// The unscoped sweep, pinned to the byte. A scope must be a different bound on the same
/// statements, not a rewrite of them.
#[test]
fn a_full_scope_sweep_is_byte_identical_to_the_sweep_that_had_no_scope() {
    let sql = sync(vec![0]).sweep_sql(&RefreshScope::Full);
    assert_eq!(
        sql,
        vec![
            format!(
                "SELECT CASE WHEN any_null > 0 THEN 'null' ELSE 'duplicate' END \
                 FROM (SELECT max(identity_is_null) AS any_null, max(identity_rows) AS max_rows \
                 FROM (SELECT (uuid IS NULL) AS identity_is_null, count(*) AS identity_rows \
                 FROM ({SCAN}) GROUP BY uuid)) WHERE any_null > 0 OR max_rows > 1"
            ),
            format!(
                "INSERT INTO {MIRROR} SELECT * FROM ({SCAN}) WHERE true \
                 ON CONFLICT(uuid) DO UPDATE SET session_id = excluded.session_id, \
                 body = excluded.body WHERE {MIRROR}.session_id IS NOT excluded.session_id \
                 OR {MIRROR}.body IS NOT excluded.body"
            ),
            format!("DELETE FROM {MIRROR} WHERE (uuid) NOT IN (SELECT uuid FROM ({SCAN}))"),
        ]
    );
}

/// A mirror row that the scan did not cover is not a row the scan says anything about.
#[test]
fn a_scoped_sweep_retracts_only_mirror_rows_inside_the_scope() {
    let sql = sync(vec![0]).sweep_sql(&above_w());
    let delete = sql.last().unwrap();
    assert!(
        delete.starts_with(&format!(
            "DELETE FROM {MIRROR} WHERE (body > 'w') AND (uuid) NOT IN ("
        )),
        "the retraction must be bounded by the scope: {delete}"
    );
}

/// The scope narrows the source's own query block, beside the view's own predicate.
#[test]
fn a_scoped_sweep_reads_the_scope_pushed_into_the_scan() {
    let sql = sync(vec![0]).sweep_sql(&above_w());
    for statement in &sql {
        assert!(
            statement.contains(
                "SELECT * FROM cc_message_fdw WHERE (session_id = 's1') AND (body > 'w')"
            ),
            "every statement reads the scoped scan: {statement}"
        );
        assert!(
            !statement.contains(&format!("({SCAN})")),
            "the unscoped scan must not survive as an inner query block: {statement}"
        );
    }
}

/// Push and sweep share the upsert, and a scope must not touch it.
#[test]
fn a_scope_leaves_the_upsert_tail_byte_identical() {
    let sync = sync(vec![0]);
    let tail = |sql: &str| {
        sql.split_once("ON CONFLICT")
            .expect("the upsert carries a conflict tail")
            .1
            .to_string()
    };
    let full = sync.sweep_sql(&RefreshScope::Full);
    let scoped = sync.sweep_sql(&above_w());
    assert_eq!(tail(&full[full.len() - 2]), tail(&scoped[scoped.len() - 2]));
    assert_eq!(
        tail(&sync.push_upsert_sql()),
        tail(&scoped[scoped.len() - 2]),
        "a scoped sweep must land on the row a push would land on"
    );
}

/// A scoped sweep checks the identity contract over exactly the rows it is about to write.
#[test]
fn a_scoped_sweep_guards_the_scan_it_actually_reads() {
    let sql = sync(vec![0]).sweep_sql(&above_w());
    assert_eq!(sql.len(), 3, "{sql:?}");
    assert!(sql[0].starts_with("SELECT CASE WHEN any_null"), "{}", sql[0]);
    assert_eq!(
        sql[0].matches("FROM cc_message_fdw").count(),
        1,
        "naming the scan twice would scan it twice: {}",
        sql[0]
    );
}

fn rejection(predicate: Expr) -> String {
    sync(vec![0])
        .validate_scope(&RefreshScope::Where(predicate))
        .expect_err("scope must be refused")
        .message()
}

/// The retraction bound is evaluated against the mirror.
#[test]
fn a_scope_over_a_column_the_mirror_does_not_have_is_refused() {
    let message = rejection(greater(id("modified"), number("5")));
    assert!(
        message.contains("modified") && message.contains("cc_message_fdw"),
        "the refusal must name the column and the source: {message}"
    );
}

/// Only a bare column name means the same thing in the mirror and in the scan.
#[test]
fn a_qualified_scope_column_is_refused() {
    let message = rejection(greater(
        Expr::Qualified("cc_message_fdw".to_string(), "body".to_string()),
        text("'w'"),
    ));
    assert!(message.contains("unqualified"), "{message}");
}

/// The sweep prepares its own statements with nothing bound to them.
#[test]
fn a_parameterised_scope_is_refused() {
    let message = rejection(greater(id("body"), Expr::Variable("?".to_string())));
    assert!(message.contains("parameter"), "{message}");
}

/// A subquery could name any table at all.
#[test]
fn a_scope_containing_a_subquery_is_refused() {
    let message = rejection(Expr::InSelect {
        lhs: Box::new(id("body")),
        not: false,
        query: "SELECT body FROM other".to_string(),
    });
    assert!(message.contains("subquer"), "{message}");
}

/// The scope is evaluated by the scan against the source and by the retraction bound against the
/// mirror, and nothing makes the two agree except the predicate being a function of the row.
#[test]
fn a_non_deterministic_scope_is_refused() {
    for predicate in [
        greater(call("random", vec![]), number("0")),
        greater(id("body"), call("randomblob", vec![number("4")])),
        equals(id("session_id"), call("datetime", vec![text("'now'")])),
        greater(id("body"), call("date", vec![])),
        greater(call("changes", vec![]), number("0")),
        equals(
            call("upper", vec![id("body")]),
            call("upper", vec![call("sqlite_version", vec![])]),
        ),
        binary(id("body"), BinaryOperator::Less, Expr::Literal(Literal::CurrentTimestamp)),
    ] {
        let shown = to_sql(&predicate);
        let message = rejection(predicate);
        assert!(
            message.contains("evaluate the scope separately"),
            "{shown} must be refused as non-deterministic: {message}"
        );
    }
}

/// An aggregate has no value for a single row.
#[test]
fn an_aggregate_scope_is_refused() {
    let message = rejection(greater(
        Expr::FunctionCallStar { name: "count".to_string() },
        number("0"),
    ));
    assert!(message.contains("aggregate"), "{message}");
}

/// A name that cannot be resolved cannot be shown deterministic either.
#[test]
fn a_scope_calling_an_unknown_function_is_refused() {
    let message = rejection(equals(call("no_such_fn", vec![id("body")]), number("1")));
    assert!(
        message.contains("no_such_fn") && message.contains("resolve"),
        "{message}"
    );
}

#[test]
fn a_scope_over_mirror_columns_is_accepted() {
    let sync = sync(vec![0]);
    for predicate in [
        greater(id("body"), text("'w'")),
        binary(
            Expr::IsNull(Box::new(id("body"))),
            BinaryOperator::Or,
            equals(id("session_id"), text("'s1'")),
        ),
        binary(id("uuid"), BinaryOperator::Less, text("'z'")),
        // Deterministic calls stay usable: the refusal is of the result that moves, not of
        // function calls as such.
        equals(call("upper", vec![id("body")]), text("'W'")),
        greater(call("length", vec![id("body")]), number("2")),
        equals(call("date", vec![id("session_id")]), text("'2020-01-01'")),
    ] {
        let shown = to_sql(&predicate);
        sync.validate_scope(&RefreshScope::Where(predicate))
            .unwrap_or_else(|err| panic!("{shown} must be a usable scope: {err:?}"));
    }
}

#[test]
fn a_refresh_without_a_scope_is_always_accepted() {
    assert_eq!(sync(vec![0]).validate_scope(&RefreshScope::Full), Ok(()));
}

#[test]
fn a_scope_is_written_as_sql() {
    assert_eq!(to_sql(&greater(id("body"), text("'w'"))), "body > 'w'");
    assert_eq!(to_sql(&call("upper", vec![id("body")])), "upper(body)");
}
