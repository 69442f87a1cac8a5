//! Mirrors of foreign tables: their names, and the statements that create, fill and sweep them.

use incremental::error::LimboError;
use incremental::mirror::{
    mirror_specs_for_view, mirror_table_name, Column, DuplicatePolicy, ForeignWrapper, MirrorSpec,
    MirrorSync, ScanQuery, Schema, Table, TableKind,
};
use incremental::scope::RefreshScope;

fn col(name: &str, ty: &str) -> Column {
    Column { name: Some(name.to_string()), ty_str: ty.to_string() }
}

fn spec(identity: Vec<u32>) -> MirrorSpec {
    MirrorSpec {
        source_table: "cc_message_fdw".to_string(),
        mirror_table: mirror_table_name("mv", "cc_message_fdw"),
        columns: vec![col("uuid", "TEXT"), col("session_id", "TEXT"), col("body", "TEXT")],
        identity,
    }
}

#[test]
fn mirror_name_is_scoped_to_the_view() {
    assert_eq!(
        mirror_table_name("chat_view", "cc_message_fdw"),
        "__turso_internal_fdw_mirror_v1_chat_view__cc_message_fdw"
    );
}

#[test]
fn mirror_name_uses_the_reserved_internal_prefix() {
    assert!(mirror_table_name("v", "t").starts_with("__turso_internal_"));
}

#[test]
fn create_sql_declares_single_column_identity_as_primary_key() {
    let sql = spec(vec![0]).create_sql();
    assert!(sql.contains("PRIMARY KEY (uuid)"), "{sql}");
}

/// A rowid table: the rowid is the input key and must survive updates.
#[test]
fn create_sql_is_a_rowid_table() {
    let sql = spec(vec![0]).create_sql();
    assert!(!sql.contains("WITHOUT ROWID"), "{sql}");
}

/// `PRIMARY KEY` on a rowid table does not imply NOT NULL, so identity columns must say so.
#[test]
fn create_sql_marks_identity_columns_not_null() {
    let sql = spec(vec![0]).create_sql();
    assert!(sql.contains("uuid TEXT NOT NULL"), "{sql}");
    assert!(
        !sql.contains("body TEXT NOT NULL"),
        "non-identity columns must stay nullable: {sql}"
    );
}

#[test]
fn create_sql_supports_composite_identity() {
    let sql = spec(vec![1, 0]).create_sql();
    assert!(sql.contains("PRIMARY KEY (session_id, uuid)"), "{sql}");
    assert!(sql.contains("uuid TEXT NOT NULL"), "{sql}");
    assert!(sql.contains("session_id TEXT NOT NULL"), "{sql}");
}

#[test]
fn create_sql_is_the_whole_statement() {
    assert_eq!(
        spec(vec![0]).create_sql(),
        "CREATE TABLE __turso_internal_fdw_mirror_v1_mv__cc_message_fdw (uuid TEXT NOT NULL, \
         session_id TEXT, body TEXT, PRIMARY KEY (uuid))"
    );
}

fn sync(identity: Vec<u32>) -> MirrorSync {
    MirrorSync::new(
        &spec(identity),
        ScanQuery::new("SELECT * FROM cc_message_fdw WHERE session_id = 's1'".to_string(), None),
    )
}

fn sweep(sync: &MirrorSync) -> Vec<String> {
    sync.sweep_sql(&RefreshScope::Full)
}

/// The sweep's upsert, whatever precedes it.
fn upsert(sync: &MirrorSync) -> String {
    let sql = sweep(sync);
    sql[sql.len() - 2].clone()
}

/// The sweep's anti-join delete.
fn anti_join(sync: &MirrorSync) -> String {
    sweep(sync).last().unwrap().clone()
}

#[test]
fn sweep_upsert_updates_only_the_columns_that_differ() {
    let sql = upsert(&sync(vec![0]));
    assert!(
        sql.contains(
            "ON CONFLICT(uuid) DO UPDATE SET session_id = excluded.session_id, body = excluded.body"
        ),
        "{sql}"
    );
    assert!(
        sql.contains(
            "WHERE __turso_internal_fdw_mirror_v1_mv__cc_message_fdw.session_id IS NOT excluded.session_id"
        ),
        "the update must be guarded, or an unchanged row emits a delta: {sql}"
    );
    assert!(
        !sql.contains("uuid = excluded.uuid"),
        "identity columns are equal by construction: {sql}"
    );
}

/// The scan is wrapped so that `ON CONFLICT` cannot be read as the SELECT's own tail, and it is
/// the view-scoped scan, not a whole-table one.
#[test]
fn sweep_upsert_reads_the_view_scoped_scan() {
    let sql = upsert(&sync(vec![0]));
    assert!(
        sql.contains(
            "SELECT * FROM (SELECT * FROM cc_message_fdw WHERE session_id = 's1') WHERE true"
        ),
        "{sql}"
    );
}

/// Rows that left the source are found by anti-join against the same scan.
#[test]
fn sweep_deletes_rows_the_scan_no_longer_returns() {
    let sql = anti_join(&sync(vec![1, 0]));
    assert!(
        sql.contains("WHERE (session_id, uuid) NOT IN (SELECT session_id, uuid FROM ("),
        "composite identity must compare as a row value: {sql}"
    );
}

/// A mirror that is all identity has nothing to update.
#[test]
fn sweep_upsert_does_nothing_when_every_column_identifies() {
    let sql = upsert(&sync(vec![0, 1, 2]));
    assert!(sql.ends_with("DO NOTHING"), "{sql}");
}

/// The guard runs before the sweep writes anything, or a refusal would leave the mirror
/// half-swept.
#[test]
fn sweep_checks_the_identity_contract_before_it_writes() {
    let sql = sweep(&sync(vec![0]));
    assert_eq!(sql.len(), 3, "{sql:?}");
    assert!(sql[0].starts_with("SELECT CASE WHEN any_null"), "{}", sql[0]);
}

/// A single NULL identity must not read as a duplicate, so the guard counts NULLs apart from
/// repeats and reports them first.
#[test]
fn guard_separates_null_identities_from_repeated_ones() {
    let sql = sweep(&sync(vec![0]))[0].clone();
    assert!(sql.contains("(uuid IS NULL) AS identity_is_null"), "{sql}");
    assert!(
        !sql.contains("count(DISTINCT"),
        "count(DISTINCT) ignores NULLs and would misreport them: {sql}"
    );
    assert!(sql.contains("GROUP BY uuid"), "{sql}");
    assert!(sql.ends_with("WHERE any_null > 0 OR max_rows > 1"), "{sql}");
}

/// The scan is named once.
#[test]
fn guard_reads_the_scan_once() {
    let sql = sweep(&sync(vec![0]))[0].clone();
    assert_eq!(sql.matches("FROM cc_message_fdw").count(), 1, "{sql}");
}

/// A composite identity has to be checked by grouping on every column and flagging a NULL in any
/// of them.
#[test]
fn guard_handles_a_composite_identity() {
    let sql = sweep(&sync(vec![1, 0]))[0].clone();
    assert!(
        sql.contains("(session_id IS NULL OR uuid IS NULL) AS identity_is_null"),
        "{sql}"
    );
    assert!(sql.contains("GROUP BY session_id, uuid"), "{sql}");
}

/// Letting the last row win is exactly the absence of the guard.
#[test]
fn last_wins_omits_the_guard_and_changes_nothing_else() {
    let refusing = sync(vec![0]);
    let mut collapsing = refusing.clone();
    collapsing.policy = DuplicatePolicy::LastWins;

    assert_eq!(collapsing.guard_sql(&RefreshScope::Full), None);
    assert_eq!(sweep(&collapsing), sweep(&refusing)[1..].to_vec());
}

/// The guard's marker decides which broken promise the user is told about.
#[test]
fn a_guard_refusal_names_the_promise_that_broke() {
    let sync = sync(vec![0]);
    assert!(sync.guard_refusal("null").message().contains("is NULL"));
    assert!(sync.guard_refusal("duplicate").message().contains("more than one row"));
}

/// A rebuild clears before it fills, or the identity index rejects the refill.
#[test]
fn rebuild_clears_before_it_fills() {
    let sql = sync(vec![0]).rebuild_sql();
    assert!(sql[0].starts_with("DELETE FROM"), "{}", sql[0]);
    assert!(sql[1].starts_with("INSERT INTO"), "{}", sql[1]);
}

/// A push must land on the row the sweep would have landed on, or its retraction would carry a
/// different identity than its insertion.
#[test]
fn push_upsert_shares_the_sweeps_conflict_handling() {
    let sync = sync(vec![0]);
    let push = sync.push_upsert_sql();
    let sweep = &upsert(&sync);
    let tail = "ON CONFLICT(uuid) DO UPDATE SET";
    let (_, push_tail) = push.split_once(tail).expect("{push}");
    let (_, sweep_tail) = sweep.split_once(tail).expect("{sweep}");
    assert_eq!(push_tail, sweep_tail);
    assert!(push.contains("VALUES (?1, ?2, ?3)"), "{push}");
}

#[test]
fn push_delete_keys_on_every_identity_column() {
    let sql = sync(vec![1, 0]).push_delete_sql();
    assert!(sql.ends_with("WHERE session_id = ?1 AND uuid = ?2"), "{sql}");
}

#[test]
fn a_not_null_violation_is_not_read_as_a_duplicate() {
    let sync = sync(vec![0]);
    let null = sync.identity_violation(LimboError::Constraint(
        "NOT NULL constraint failed: t.uuid (19)".to_string(),
    ));
    assert!(null.message().contains("is NULL"), "{null:?}");
    let duplicate = sync.identity_violation(LimboError::Constraint(
        "UNIQUE constraint failed: t.uuid (19)".to_string(),
    ));
    assert!(duplicate.message().contains("more than one row"), "{duplicate:?}");
}

#[test]
fn another_violation_is_passed_on() {
    let sync = sync(vec![0]);
    let other = sync.identity_violation(LimboError::ParseError("syntax error".to_string()));
    assert_eq!(other, LimboError::ParseError("syntax error".to_string()));
}

#[test]
fn a_constraint_that_is_not_on_the_identity_is_passed_on() {
    let sync = sync(vec![0]);
    let check = LimboError::Constraint("CHECK constraint failed: t (19)".to_string());
    assert_eq!(
        sync.identity_violation(check),
        LimboError::Constraint("CHECK constraint failed: t (19)".to_string())
    );
    let key = sync.identity_violation(LimboError::Constraint(
        "PRIMARY KEY constraint failed: t.uuid (19)".to_string(),
    ));
    assert!(key.message().contains("more than one row"), "{key:?}");
}

fn int_spec(identity: Vec<u32>) -> MirrorSpec {
    MirrorSpec {
        source_table: "msg_fdw".to_string(),
        mirror_table: mirror_table_name("mv", "msg_fdw"),
        columns: vec![col("id", "INTEGER"), col("seq", "INTEGER"), col("body", "TEXT")],
        identity,
    }
}

/// A lone `INTEGER PRIMARY KEY` would alias the rowid.
#[test]
fn create_sql_keeps_a_single_integer_identity_off_the_rowid() {
    let sql = int_spec(vec![0]).create_sql();
    assert!(sql.contains("id INT NOT NULL"), "{sql}");
    assert!(sql.contains("PRIMARY KEY (id)"), "{sql}");
    assert!(sql.contains("seq INTEGER,"), "only the identity moves: {sql}");
}

/// A composite primary key is never a rowid alias, so nothing needs doing.
#[test]
fn create_sql_leaves_composite_integer_identities_alone() {
    let sql = int_spec(vec![0, 1]).create_sql();
    assert!(sql.contains("id INTEGER NOT NULL"), "{sql}");
    assert!(sql.contains("seq INTEGER NOT NULL"), "{sql}");
}

#[test]
fn index_name_matches_the_automatic_primary_key_index() {
    assert_eq!(
        spec(vec![0]).index_name(),
        "sqlite_autoindex___turso_internal_fdw_mirror_v1_mv__cc_message_fdw_1"
    );
}

#[test]
fn a_row_of_the_wrong_width_names_both_widths() {
    let message = sync(vec![0]).width_violation(2).message();
    assert!(message.contains('2') && message.contains('3'), "{message}");
}

fn foreign(name: &str, identity: Option<Vec<u32>>) -> Table {
    Table {
        name: name.to_string(),
        columns: vec![col("uuid", "TEXT"), Column { name: None, ty_str: String::new() }],
        kind: TableKind::Virtual {
            foreign_wrapper: Some(ForeignWrapper { identity_columns: identity }),
        },
    }
}

fn names(list: &[&str]) -> Vec<String> {
    list.iter().map(|n| n.to_string()).collect()
}

#[test]
fn only_foreign_tables_with_an_identity_are_mirrored() {
    let schema = Schema {
        tables: vec![
            foreign("with_id", Some(vec![0])),
            foreign("without_id", None),
            Table {
                name: "plain".to_string(),
                columns: vec![col("a", "INTEGER")],
                kind: TableKind::Btree,
            },
        ],
    };
    let specs =
        mirror_specs_for_view("mv", &names(&["plain", "without_id", "WITH_ID", "absent"]), &schema)
            .unwrap();
    assert_eq!(specs.len(), 1);
    assert_eq!(specs[0].source_table, "WITH_ID");
    assert_eq!(specs[0].mirror_table, mirror_table_name("mv", "WITH_ID"));
    assert_eq!(specs[0].identity, vec![0]);
}

#[test]
fn an_identity_must_name_a_column_with_a_name() {
    let beyond = Schema { tables: vec![foreign("f", Some(vec![2]))] };
    assert_eq!(
        mirror_specs_for_view("mv", &names(&["f"]), &beyond),
        Err(LimboError::ParseError(
            "foreign table 'f' declares identity column 2, but it only has 2 columns".to_string()
        ))
    );
    let unnamed = Schema { tables: vec![foreign("f", Some(vec![1]))] };
    assert_eq!(
        mirror_specs_for_view("mv", &names(&["f"]), &unnamed),
        Err(LimboError::ParseError(
            "foreign table 'f' declares identity column 1, which has no name".to_string()
        ))
    );
}
