//! Mirrors of foreign-table rows that back incremental materialized views.
//!
//! A view cannot be maintained incrementally from a foreign table directly, because a foreign
//! table reports no changes. So each view keeps a mirror: an internal table that shadows the
//! foreign rows the view reads. Bringing the mirror in step with the source is ordinary DML, and
//! that DML is what the view is maintained from.
//!
//! This module decides which mirrors a view has and writes the statements that create them, fill
//! them, sweep them and apply pushed changes to them.

use vstd::prelude::*;

use crate::error::{ErrorView, LimboError};
use crate::scope::{sql_text, to_sql, validate, refusal, RefreshScope, ScopeView};
use crate::text::{
    as_ident, begins_with, copy_texts, decimal, decimal_usize, identifier, join, joined, lowered,
    same_ignoring_case, same_text, starts_with, texts,
};

verus! {

/// A column of a table.
#[derive(Debug, PartialEq, Eq)]
pub struct Column {
    pub name: Option<String>,
    /// The type as it is declared, empty where there is none.
    pub ty_str: String,
}

/// What a column is declared as.
#[verifier::ext_equal]
pub struct ColumnView {
    pub name: Option<Seq<char>>,
    pub ty_str: Seq<char>,
}

impl View for Column {
    type V = ColumnView;

    open spec fn view(&self) -> ColumnView {
        ColumnView {
            name: match self.name {
                Some(n) => Some(n@),
                None => None,
            },
            ty_str: self.ty_str@,
        }
    }
}

impl Clone for Column {
    fn clone(&self) -> (r: Self)
        ensures
            r@ == self@,
    {
        Column {
            name: match &self.name {
                Some(n) => Some(n.clone()),
                None => None,
            },
            ty_str: self.ty_str.clone(),
        }
    }
}

pub open spec fn column_views(columns: Seq<Column>) -> Seq<ColumnView> {
    columns.map_values(|c: Column| c@)
}

/// Everything needed to create and sync one view's mirror of one foreign table.
#[derive(Debug, PartialEq, Eq)]
pub struct MirrorSpec {
    /// The foreign table being shadowed.
    pub source_table: String,
    /// The internal table holding the shadowed rows.
    pub mirror_table: String,
    /// Columns of the foreign table, mirrored verbatim.
    pub columns: Vec<Column>,
    /// Indices into `columns` whose values identify a row across scans.
    pub identity: Vec<u32>,
}

/// The name of the mirror of a source for a view.
pub open spec fn mirror_name(view_name: Seq<char>, source_table: Seq<char>) -> Seq<char> {
    "__turso_internal_fdw_mirror_v1_"@ + view_name + "__"@ + source_table
}

/// Names the mirror of `source_table` for `view_name`.
///
/// Mirrors are per view, because a view's predicate decides which rows are fetched.
pub fn mirror_table_name(view_name: &str, source_table: &str) -> (r: String)
    ensures
        r@ == mirror_name(view_name@, source_table@),
{
    let mut r = "__turso_internal_fdw_mirror_v1_".to_owned();
    r.append(view_name);
    r.append("__");
    r.append(source_table);
    r
}

/// The SQL identifiers of the columns at some positions.
pub open spec fn idents_at(names: Seq<Seq<char>>, at: Seq<int>) -> Seq<Seq<char>> {
    at.map_values(|i: int| identifier(names[i]))
}

impl MirrorSpec {
    /// Every column has a name, and the identity names columns that exist.
    pub open spec fn wf(&self) -> bool {
        &&& forall|i: int| 0 <= i < self.columns@.len() ==> (#[trigger] self.columns@[i]).name is Some
        &&& forall|i: int|
            0 <= i < self.identity@.len() ==> (#[trigger] self.identity@[i]) < self.columns@.len()
    }

    /// The column names.
    pub open spec fn names(&self) -> Seq<Seq<char>> {
        self.columns@.map_values(|c: Column| c.name->Some_0@)
    }

    /// The identity as positions.
    pub open spec fn identity_positions(&self) -> Seq<int> {
        self.identity@.map_values(|i: u32| i as int)
    }

    /// The type that the mirror declares for a column: the source's own, except where that would
    /// make the column an alias of the rowid.
    pub open spec fn type_declared(&self, idx: int) -> Seq<char> {
        let ty = if self.columns@[idx].ty_str@.len() == 0 {
            "TEXT"@
        } else {
            self.columns@[idx].ty_str@
        };
        if self.identity_positions() == seq![idx] && lowered(ty) == lowered("INTEGER"@) {
            "INT"@
        } else {
            ty
        }
    }

    /// The definition of one column.
    pub open spec fn column_def(&self, idx: int) -> Seq<char> {
        identifier(self.names()[idx]) + " "@ + self.type_declared(idx)
            + if self.identity_positions().contains(idx) {
            " NOT NULL"@
        } else {
            ""@
        }
    }

    /// The definitions of all columns, then the primary key.
    pub open spec fn definitions(&self) -> Seq<Seq<char>> {
        Seq::new(self.columns@.len(), |i: int| self.column_def(i)).push(
            "PRIMARY KEY ("@ + joined(
                idents_at(self.names(), self.identity_positions()),
                ", "@,
            ) + ")"@,
        )
    }

    /// The name of the automatic index that a declared PRIMARY KEY gets.
    pub fn index_name(&self) -> (r: String)
        ensures
            r@ == "sqlite_autoindex_"@ + self.mirror_table@ + "_1"@,
    {
        let mut r = "sqlite_autoindex_".to_owned();
        r.append(self.mirror_table.as_str());
        r.append("_1");
        r
    }

    fn identifies(&self, idx: usize) -> (r: bool)
        ensures
            r == self.identity_positions().contains(idx as int),
    {
        let ghost positions = self.identity_positions();
        let mut i: usize = 0;
        while i < self.identity.len()
            invariant
                i <= self.identity.len(),
                positions == self.identity_positions(),
                forall|j: int| 0 <= j < i ==> positions[j] != idx,
            decreases self.identity.len() - i,
        {
            if self.identity[i] as usize == idx {
                assert(positions[i as int] == idx);
                return true;
            }
            i += 1;
        }
        false
    }

    fn declared_type(&self, idx: usize) -> (r: String)
        requires
            idx < self.columns@.len(),
        ensures
            r@ == self.type_declared(idx as int),
    {
        let ty = if self.columns[idx].ty_str.as_str().is_empty() {
            "TEXT".to_owned()
        } else {
            self.columns[idx].ty_str.clone()
        };
        let sole = self.identity.len() == 1 && self.identity[0] as usize == idx;
        proof {
            if sole {
                assert(self.identity_positions() =~= seq![idx as int]);
            } else if self.identity_positions() == seq![idx as int] {
                assert(self.identity_positions().len() == 1);
                assert(self.identity_positions()[0] == idx);
            }
        }
        if sole && same_ignoring_case(ty.as_str(), "INTEGER") {
            return "INT".to_owned();
        }
        ty
    }

    /// `CREATE TABLE` for the mirror.
    ///
    /// A rowid table: the rowid is the row identity that the view's circuit keys on. Identity
    /// columns say `NOT NULL`, because `PRIMARY KEY` on a rowid table does not imply it.
    pub fn create_sql(&self) -> (r: String)
        requires
            self.wf(),
        ensures
            r@ == "CREATE TABLE "@ + identifier(self.mirror_table@) + " ("@ + joined(
                self.definitions(),
                ", "@,
            ) + ")"@,
    {
        let mut defs: Vec<String> = Vec::new();
        let ghost names = self.names();
        let mut idx: usize = 0;
        while idx < self.columns.len()
            invariant
                idx <= self.columns.len(),
                self.wf(),
                names == self.names(),
                texts(defs@) == Seq::new(idx as nat, |i: int| self.column_def(i)),
            decreases self.columns.len() - idx,
        {
            let ghost before = defs@;
            assert(self.columns@[idx as int].name is Some);
            let mut def = String::new();
            if let Some(name) = &self.columns[idx].name {
                assert(names[idx as int] == name@);
                def = as_ident(name.as_str());
            }
            def.append(" ");
            let ty = self.declared_type(idx);
            def.append(ty.as_str());
            if self.identifies(idx) {
                def.append(" NOT NULL");
            } else {
                def.append("");
            }
            defs.push(def);
            idx += 1;
            assert(texts(defs@) =~= texts(before).push(self.column_def(idx - 1)));
            assert(texts(defs@) =~= Seq::new(idx as nat, |i: int| self.column_def(i)));
        }
        let ghost positions = self.identity_positions();
        let mut idents: Vec<String> = Vec::new();
        let mut i: usize = 0;
        while i < self.identity.len()
            invariant
                i <= self.identity.len(),
                self.wf(),
                names == self.names(),
                positions == self.identity_positions(),
                texts(idents@) == idents_at(names, positions.take(i as int)),
            decreases self.identity.len() - i,
        {
            let ghost before = idents@;
            let at: usize = self.identity[i] as usize;
            assert(self.identity@[i as int] < self.columns@.len());
            assert(self.columns@[at as int].name is Some);
            let mut ident = String::new();
            if let Some(name) = &self.columns[at].name {
                assert(names[at as int] == name@);
                ident = as_ident(name.as_str());
            }
            idents.push(ident);
            i += 1;
            assert(texts(idents@) =~= texts(before).push(identifier(names[at as int])));
            assert(texts(idents@) =~= idents_at(names, positions.take(i as int)));
        }
        assert(positions.take(i as int) =~= positions);
        let mut key = "PRIMARY KEY (".to_owned();
        let list = join(&idents, ", ");
        key.append(list.as_str());
        key.append(")");
        let ghost before = defs@;
        defs.push(key);
        assert(texts(defs@) =~= texts(before).push(key@));
        assert(texts(defs@) =~= self.definitions());
        let mut r = "CREATE TABLE ".to_owned();
        let table = as_ident(self.mirror_table.as_str());
        r.append(table.as_str());
        r.append(" (");
        let body = join(&defs, ", ");
        r.append(body.as_str());
        r.append(")");
        r
    }
}

/// What a sweep does with a source that hands it two rows with one identity.
#[derive(Debug, PartialEq, Eq, Clone, Copy, Structural)]
pub enum DuplicatePolicy {
    /// Refuse the sweep, naming the source.
    Refuse,
    /// Let the upsert collapse them; which row survives is scan order.
    LastWins,
}

/// The scan of a foreign table, with the view's own predicate apart, so that a scope can be put
/// beside it.
#[derive(Debug, PartialEq, Eq)]
pub struct ScanQuery {
    pub base: String,
    pub predicate: Option<String>,
}

impl ScanQuery {
    /// The scan under a scope.
    pub open spec fn text(&self, scope: ScopeView) -> Seq<char> {
        match (self.predicate, scope) {
            (None, ScopeView::Full) => self.base@,
            (Some(p), ScopeView::Full) => self.base@ + " WHERE "@ + p@,
            (None, ScopeView::Where(e)) => self.base@ + " WHERE ("@ + sql_text(e) + ")"@,
            (Some(p), ScopeView::Where(e)) => self.base@ + " WHERE ("@ + p@ + ") AND ("@
                + sql_text(e) + ")"@,
        }
    }

    pub fn new(base: String, predicate: Option<String>) -> (r: Self)
        ensures
            r.base == base,
            r.predicate == predicate,
    {
        ScanQuery { base, predicate }
    }

    /// Writes the scan under a scope.
    ///
    /// The scope stands in the source's own query block, beside the view's predicate: one block
    /// further out the driver would never see it.
    pub fn sql(&self, scope: &RefreshScope) -> (r: String)
        ensures
            r@ == self.text(scope@),
    {
        let mut r = self.base.clone();
        match scope {
            RefreshScope::Full => {
                if let Some(p) = &self.predicate {
                    r.append(" WHERE ");
                    r.append(p.as_str());
                }
            },
            RefreshScope::Where(e) => {
                r.append(" WHERE (");
                if let Some(p) = &self.predicate {
                    r.append(p.as_str());
                    r.append(") AND (");
                }
                let bound = to_sql(e);
                r.append(bound.as_str());
                r.append(")");
            },
        }
        r
    }
}

impl Clone for ScanQuery {
    fn clone(&self) -> (r: Self)
        ensures
            r.base@ == self.base@,
            r.predicate is Some == self.predicate is Some,
            r.predicate is Some ==> r.predicate->Some_0@ == self.predicate->Some_0@,
    {
        ScanQuery {
            base: self.base.clone(),
            predicate: match &self.predicate {
                Some(p) => Some(p.clone()),
                None => None,
            },
        }
    }
}

/// One mirror of a live view, with everything needed to keep it in step with the foreign table
/// it shadows.
#[derive(Debug, PartialEq, Eq)]
pub struct MirrorSync {
    /// The foreign table being shadowed, for diagnostics.
    pub source_table: String,
    /// The internal table holding the shadowed rows.
    pub mirror_table: String,
    /// Column names of the mirror, in declaration order.
    pub columns: Vec<String>,
    /// Indices into `columns` whose values identify a row across scans.
    pub identity: Vec<usize>,
    /// Scan of the foreign table.
    pub scan_query: ScanQuery,
    /// How the sweep answers a source that repeats an identity.
    pub policy: DuplicatePolicy,
}

impl Clone for MirrorSync {
    fn clone(&self) -> (r: Self)
        ensures
            r.source_table@ == self.source_table@,
            r.mirror_table@ == self.mirror_table@,
            texts(r.columns@) == texts(self.columns@),
            r.identity@ == self.identity@,
            r.scan_query.base@ == self.scan_query.base@,
            r.scan_query.predicate is Some == self.scan_query.predicate is Some,
            r.scan_query.predicate is Some ==> r.scan_query.predicate->Some_0@
                == self.scan_query.predicate->Some_0@,
            r.policy == self.policy,
    {
        let mut identity: Vec<usize> = Vec::new();
        let mut i: usize = 0;
        while i < self.identity.len()
            invariant
                i <= self.identity.len(),
                identity@ == self.identity@.take(i as int),
            decreases self.identity.len() - i,
        {
            identity.push(self.identity[i]);
            i += 1;
            assert(identity@ =~= self.identity@.take(i as int));
        }
        assert(identity@ =~= self.identity@);
        MirrorSync {
            source_table: self.source_table.clone(),
            mirror_table: self.mirror_table.clone(),
            columns: copy_texts(&self.columns),
            identity,
            scan_query: self.scan_query.clone(),
            policy: self.policy,
        }
    }
}

/// The names that are not at one of some positions, in order.
pub open spec fn others(names: Seq<Seq<char>>, at: Seq<int>) -> Seq<Seq<char>>
    decreases names.len(),
{
    if names.len() == 0 {
        Seq::empty()
    } else {
        let front = others(names.drop_last(), at);
        if at.contains(names.len() - 1) {
            front
        } else {
            front.push(names.last())
        }
    }
}

/// The marker with which the guard reports a NULL identity.
pub open spec fn guard_null() -> Seq<char> {
    "null"@
}

/// The marker with which the guard reports a repeated identity.
pub open spec fn guard_duplicate() -> Seq<char> {
    "duplicate"@
}

impl MirrorSync {
    /// The identity names columns that exist.
    pub open spec fn wf(&self) -> bool {
        forall|i: int|
            0 <= i < self.identity@.len() ==> (#[trigger] self.identity@[i]) < self.columns@.len()
    }

    pub open spec fn names(&self) -> Seq<Seq<char>> {
        texts(self.columns@)
    }

    pub open spec fn positions(&self) -> Seq<int> {
        self.identity@.map_values(|i: usize| i as int)
    }

    pub open spec fn table(&self) -> Seq<char> {
        identifier(self.mirror_table@)
    }

    /// The identity columns as they are named, for a message.
    pub open spec fn identity_names(&self) -> Seq<char> {
        joined(self.positions().map_values(|i: int| self.names()[i]), ", "@)
    }

    /// The identity columns as SQL identifiers.
    pub open spec fn identity_idents(&self) -> Seq<char> {
        joined(idents_at(self.names(), self.positions()), ", "@)
    }

    /// The columns that a row can change without becoming another row.
    pub open spec fn changeable(&self) -> Seq<Seq<char>> {
        others(self.names(), self.positions())
    }

    pub open spec fn null_message(&self) -> Seq<char> {
        "foreign table '"@ + self.source_table@ + "' returned a row whose declared identity ("@
            + self.identity_names()
            + ") is NULL; a NULL identity cannot be matched across scans and is not supported"@
    }

    pub open spec fn duplicate_message(&self) -> Seq<char> {
        "foreign table '"@ + self.source_table@
            + "' returned more than one row with the same identity ("@ + self.identity_names()
            + "); a declared identity must identify a row uniquely within a scan"@
    }

    /// The clause that lands an insert of a mirrored identity on the row it already has.
    pub open spec fn upsert_clause(&self) -> Seq<char> {
        if self.changeable().len() == 0 {
            "ON CONFLICT("@ + self.identity_idents() + ") DO NOTHING"@
        } else {
            "ON CONFLICT("@ + self.identity_idents() + ") DO UPDATE SET "@ + joined(
                self.changeable().map_values(
                    |c: Seq<char>| identifier(c) + " = excluded."@ + identifier(c),
                ),
                ", "@,
            ) + " WHERE "@ + joined(
                self.changeable().map_values(
                    |c: Seq<char>|
                        self.table() + "."@ + identifier(c) + " IS NOT excluded."@ + identifier(c),
                ),
                " OR "@,
            )
        }
    }

    /// The query that returns a row only where a scan breaks the identity contract.
    pub open spec fn guard_query(&self, scope: ScopeView) -> Seq<char> {
        "SELECT CASE WHEN any_null > 0 THEN 'null' ELSE 'duplicate' END FROM (SELECT max(identity_is_null) AS any_null, max(identity_rows) AS max_rows FROM (SELECT ("@
            + joined(
            self.positions().map_values(|i: int| identifier(self.names()[i]) + " IS NULL"@),
            " OR "@,
        ) + ") AS identity_is_null, count(*) AS identity_rows FROM ("@ + self.scan_query.text(scope)
            + ") GROUP BY "@ + self.identity_idents()
            + ")) WHERE any_null > 0 OR max_rows > 1"@
    }

    pub open spec fn sweep_upsert(&self, scope: ScopeView) -> Seq<char> {
        "INSERT INTO "@ + self.table() + " SELECT * FROM ("@ + self.scan_query.text(scope)
            + ") WHERE true "@ + self.upsert_clause()
    }

    /// The retraction: mirror rows within the scope that the scan does not return.
    pub open spec fn sweep_delete(&self, scope: ScopeView) -> Seq<char> {
        "DELETE FROM "@ + self.table() + (match scope {
            ScopeView::Full => " WHERE ("@,
            ScopeView::Where(e) => " WHERE ("@ + sql_text(e) + ") AND ("@,
        }) + self.identity_idents() + ") NOT IN (SELECT "@ + self.identity_idents() + " FROM ("@
            + self.scan_query.text(scope) + "))"@
    }

    /// The statements of a sweep: the guard unless duplicates may collapse, the upsert, the
    /// retraction.
    pub open spec fn sweep(&self, scope: ScopeView) -> Seq<Seq<char>> {
        (if self.policy is Refuse {
            seq![self.guard_query(scope)]
        } else {
            Seq::empty()
        }) + seq![self.sweep_upsert(scope), self.sweep_delete(scope)]
    }

    pub fn new(spec: &MirrorSpec, scan_query: ScanQuery) -> (r: Self)
        requires
            spec.wf(),
        ensures
            r.wf(),
            r.source_table@ == spec.source_table@,
            r.mirror_table@ == spec.mirror_table@,
            r.names() == spec.names(),
            r.positions() == spec.identity_positions(),
            r.scan_query == scan_query,
            r.policy == DuplicatePolicy::Refuse,
    {
        let mut columns: Vec<String> = Vec::new();
        let mut i: usize = 0;
        while i < spec.columns.len()
            invariant
                i <= spec.columns.len(),
                spec.wf(),
                texts(columns@) == spec.names().take(i as int),
            decreases spec.columns.len() - i,
        {
            let ghost before = columns@;
            assert(spec.columns@[i as int].name is Some);
            let mut name = String::new();
            if let Some(n) = &spec.columns[i].name {
                name = n.clone();
            }
            columns.push(name);
            i += 1;
            assert(texts(columns@) =~= texts(before).push(name@));
            assert(texts(columns@) =~= spec.names().take(i as int));
        }
        assert(spec.names().take(i as int) =~= spec.names());
        let mut identity: Vec<usize> = Vec::new();
        let mut k: usize = 0;
        while k < spec.identity.len()
            invariant
                k <= spec.identity.len(),
                identity@.len() == k,
                forall|j: int| 0 <= j < k ==> identity@[j] == spec.identity@[j],
            decreases spec.identity.len() - k,
        {
            identity.push(spec.identity[k] as usize);
            k += 1;
        }
        let r = MirrorSync {
            source_table: spec.source_table.clone(),
            mirror_table: spec.mirror_table.clone(),
            columns,
            identity,
            scan_query,
            policy: DuplicatePolicy::Refuse,
        };
        proof {
            assert(r.positions() =~= spec.identity_positions());
            assert(r.columns@.len() == spec.names().len()) by {
                assert(texts(r.columns@).len() == spec.names().len());
            }
            assert forall|j: int| 0 <= j < r.identity@.len() implies (#[trigger] r.identity@[j])
                < r.columns@.len() by {
                assert(spec.identity@[j] < spec.columns@.len());
            }
        }
        r
    }

    fn table_ident(&self) -> (r: String)
        ensures
            r@ == self.table(),
    {
        as_ident(self.mirror_table.as_str())
    }

    /// Restates a constraint violation on the mirror in terms of the source.
    ///
    /// The mirror carries two constraints, both on the identity: the columns are `NOT NULL` and
    /// together they are the `PRIMARY KEY`, which fails as `UNIQUE`. Anything else is passed through.
    pub fn identity_violation(&self, violation: LimboError) -> (r: LimboError)
        requires
            self.wf(),
        ensures
            match violation@ {
                ErrorView::Constraint(m) => if begins_with(m, "NOT NULL constraint failed"@) {
                    r@ == ErrorView::Constraint(self.null_message())
                } else if begins_with(m, "UNIQUE constraint failed"@) || begins_with(
                    m,
                    "PRIMARY KEY constraint failed"@,
                ) {
                    r@ == ErrorView::Constraint(self.duplicate_message())
                } else {
                    r == violation
                },
                _ => r == violation,
            },
    {
        match &violation {
            LimboError::Constraint(message) => {
                if starts_with(message.as_str(), "NOT NULL constraint failed") {
                    self.null_identity_error()
                } else if starts_with(message.as_str(), "UNIQUE constraint failed")
                    || starts_with(message.as_str(), "PRIMARY KEY constraint failed") {
                    self.duplicate_identity_error()
                } else {
                    violation
                }
            },
            _ => violation,
        }
    }

    fn identity_column_list(&self) -> (r: String)
        requires
            self.wf(),
        ensures
            r@ == self.identity_names(),
    {
        let mut list: Vec<String> = Vec::new();
        let ghost wanted = self.positions().map_values(|i: int| self.names()[i]);
        let mut i: usize = 0;
        while i < self.identity.len()
            invariant
                i <= self.identity.len(),
                self.wf(),
                wanted == self.positions().map_values(|i: int| self.names()[i]),
                texts(list@) == wanted.take(i as int),
            decreases self.identity.len() - i,
        {
            let ghost before = list@;
            assert(self.identity@[i as int] < self.columns@.len());
            list.push(self.columns[self.identity[i]].clone());
            i += 1;
            assert(texts(list@) =~= texts(before).push(wanted[i - 1]));
            assert(texts(list@) =~= wanted.take(i as int));
        }
        assert(wanted.take(i as int) =~= wanted);
        join(&list, ", ")
    }

    /// The driver returned a row with no identity at all.
    pub fn null_identity_error(&self) -> (r: LimboError)
        requires
            self.wf(),
        ensures
            r@ == ErrorView::Constraint(self.null_message()),
    {
        let mut m = "foreign table '".to_owned();
        m.append(self.source_table.as_str());
        m.append("' returned a row whose declared identity (");
        let list = self.identity_column_list();
        m.append(list.as_str());
        m.append(
            ") is NULL; a NULL identity cannot be matched across scans and is not supported",
        );
        LimboError::Constraint(m)
    }

    /// A pushed change carries a different number of values than the table has columns.
    pub fn width_violation(&self, given: usize) -> (r: LimboError)
        ensures
            r@ == ErrorView::InvalidArgument(
                "foreign table '"@ + self.source_table@ + "' pushed a change carrying "@ + decimal(
                    given as nat,
                ) + " value(s), but the table declares "@ + decimal(self.columns@.len())
                    + " column(s) ("@ + joined(self.names(), ", "@)
                    + "); a pushed change must carry one value per declared column"@,
            ),
    {
        let mut m = "foreign table '".to_owned();
        m.append(self.source_table.as_str());
        m.append("' pushed a change carrying ");
        let n = decimal_usize(given);
        m.append(n.as_str());
        m.append(" value(s), but the table declares ");
        let width = decimal_usize(self.columns.len());
        m.append(width.as_str());
        m.append(" column(s) (");
        let list = join(&self.columns, ", ");
        m.append(list.as_str());
        m.append("); a pushed change must carry one value per declared column");
        LimboError::InvalidArgument(m)
    }

    /// The driver returned two rows that cannot be told apart.
    pub fn duplicate_identity_error(&self) -> (r: LimboError)
        requires
            self.wf(),
        ensures
            r@ == ErrorView::Constraint(self.duplicate_message()),
    {
        let mut m = "foreign table '".to_owned();
        m.append(self.source_table.as_str());
        m.append("' returned more than one row with the same identity (");
        let list = self.identity_column_list();
        m.append(list.as_str());
        m.append("); a declared identity must identify a row uniquely within a scan");
        LimboError::Constraint(m)
    }

    /// `c1, c2` over the identity columns.
    fn identity_list(&self) -> (r: String)
        requires
            self.wf(),
        ensures
            r@ == self.identity_idents(),
    {
        let mut list: Vec<String> = Vec::new();
        let ghost wanted = idents_at(self.names(), self.positions());
        let mut i: usize = 0;
        while i < self.identity.len()
            invariant
                i <= self.identity.len(),
                self.wf(),
                wanted == idents_at(self.names(), self.positions()),
                texts(list@) == wanted.take(i as int),
            decreases self.identity.len() - i,
        {
            let ghost before = list@;
            assert(self.identity@[i as int] < self.columns@.len());
            list.push(as_ident(self.columns[self.identity[i]].as_str()));
            i += 1;
            assert(texts(list@) =~= texts(before).push(wanted[i - 1]));
            assert(texts(list@) =~= wanted.take(i as int));
        }
        assert(wanted.take(i as int) =~= wanted);
        join(&list, ", ")
    }

    fn identifies(&self, idx: usize) -> (r: bool)
        ensures
            r == self.positions().contains(idx as int),
    {
        let ghost positions = self.positions();
        let mut i: usize = 0;
        while i < self.identity.len()
            invariant
                i <= self.identity.len(),
                positions == self.positions(),
                forall|j: int| 0 <= j < i ==> positions[j] != idx,
            decreases self.identity.len() - i,
        {
            if self.identity[i] == idx {
                assert(positions[i as int] == idx);
                return true;
            }
            i += 1;
        }
        false
    }

    fn non_identity_columns(&self) -> (r: Vec<String>)
        ensures
            texts(r@) == self.changeable(),
    {
        let mut out: Vec<String> = Vec::new();
        let ghost names = self.names();
        let mut i: usize = 0;
        assert(names.take(0) =~= Seq::<Seq<char>>::empty());
        assert(texts(out@) =~= Seq::<Seq<char>>::empty());
        while i < self.columns.len()
            invariant
                i <= self.columns.len(),
                names == self.names(),
                texts(out@) == others(names.take(i as int), self.positions()),
            decreases self.columns.len() - i,
        {
            let ghost before = out@;
            assert(names.take(i + 1).drop_last() =~= names.take(i as int));
            assert(names.take(i + 1).last() == self.columns@[i as int]@);
            if !self.identifies(i) {
                out.push(self.columns[i].clone());
                assert(texts(out@) =~= texts(before).push(self.columns@[i as int]@));
            }
            i += 1;
        }
        assert(names.take(i as int) =~= names);
        out
    }

    /// Statements that discard the mirror and refill it from the source.
    ///
    /// The clear precedes the fill, because this runs on a mirror that may be full already.
    pub fn rebuild_sql(&self) -> (r: Vec<String>)
        ensures
            texts(r@) == seq![
                "DELETE FROM "@ + self.table(),
                "INSERT INTO "@ + self.table() + " "@ + self.scan_query.text(ScopeView::Full),
            ],
    {
        let table = self.table_ident();
        let mut clear = "DELETE FROM ".to_owned();
        clear.append(table.as_str());
        let mut fill = "INSERT INTO ".to_owned();
        fill.append(table.as_str());
        fill.append(" ");
        let scan = self.scan_query.sql(&RefreshScope::Full);
        fill.append(scan.as_str());
        let mut r: Vec<String> = Vec::new();
        r.push(clear);
        r.push(fill);
        assert(texts(r@) =~= seq![
            "DELETE FROM "@ + self.table(),
            "INSERT INTO "@ + self.table() + " "@ + self.scan_query.text(ScopeView::Full),
        ]);
        r
    }

    /// Statements that bring the mirror in step with the source within a scope, touching only
    /// the rows that differ.
    ///
    /// The guard comes first, so that a source that broke its promise costs nothing but the scan.
    /// The retraction is bounded by the scope: absence from a scan means deletion only within
    /// what the scan covers.
    pub fn sweep_sql(&self, scope: &RefreshScope) -> (r: Vec<String>)
        requires
            self.wf(),
        ensures
            texts(r@) == self.sweep(scope@),
    {
        let table = self.table_ident();
        let identity = self.identity_list();
        let scan = self.scan_query.sql(scope);
        let mut statements: Vec<String> = Vec::new();
        if let Some(guard) = self.guard_sql(scope) {
            statements.push(guard);
        }
        let ghost first = statements@;
        let mut upsert = "INSERT INTO ".to_owned();
        upsert.append(table.as_str());
        upsert.append(" SELECT * FROM (");
        upsert.append(scan.as_str());
        upsert.append(") WHERE true ");
        let tail = self.upsert_tail();
        upsert.append(tail.as_str());
        let mut delete = "DELETE FROM ".to_owned();
        delete.append(table.as_str());
        match scope {
            RefreshScope::Full => {
                delete.append(" WHERE (");
            },
            RefreshScope::Where(e) => {
                let mut bound = " WHERE (".to_owned();
                let predicate = to_sql(e);
                bound.append(predicate.as_str());
                bound.append(") AND (");
                delete.append(bound.as_str());
            },
        }
        delete.append(identity.as_str());
        delete.append(") NOT IN (SELECT ");
        delete.append(identity.as_str());
        delete.append(" FROM (");
        delete.append(scan.as_str());
        delete.append("))");
        statements.push(upsert);
        statements.push(delete);
        assert(texts(statements@) =~= self.sweep(scope@));
        statements
    }

    /// The statement that refuses a scan for which the identity contract no longer holds, or
    /// `None` where duplicates may collapse.
    ///
    /// It returns a row only to refuse, and that row says which promise broke. The scan is named
    /// once, because naming it twice would scan it twice.
    pub fn guard_sql(&self, scope: &RefreshScope) -> (r: Option<String>)
        requires
            self.wf(),
        ensures
            match self.policy {
                DuplicatePolicy::LastWins => r is None,
                DuplicatePolicy::Refuse => r matches Some(s) && s@ == self.guard_query(scope@),
            },
    {
        if self.policy == DuplicatePolicy::LastWins {
            return None;
        }
        let identity = self.identity_list();
        let mut tests: Vec<String> = Vec::new();
        let ghost wanted = self.positions().map_values(
            |i: int| identifier(self.names()[i]) + " IS NULL"@,
        );
        let mut i: usize = 0;
        while i < self.identity.len()
            invariant
                i <= self.identity.len(),
                self.wf(),
                wanted == self.positions().map_values(
                    |i: int| identifier(self.names()[i]) + " IS NULL"@,
                ),
                texts(tests@) == wanted.take(i as int),
            decreases self.identity.len() - i,
        {
            let ghost before = tests@;
            assert(self.identity@[i as int] < self.columns@.len());
            let mut test = as_ident(self.columns[self.identity[i]].as_str());
            test.append(" IS NULL");
            tests.push(test);
            i += 1;
            assert(texts(tests@) =~= texts(before).push(wanted[i - 1]));
            assert(texts(tests@) =~= wanted.take(i as int));
        }
        assert(wanted.take(i as int) =~= wanted);
        let any_null = join(&tests, " OR ");
        let scan = self.scan_query.sql(scope);
        let mut r =
            "SELECT CASE WHEN any_null > 0 THEN 'null' ELSE 'duplicate' END FROM (SELECT max(identity_is_null) AS any_null, max(identity_rows) AS max_rows FROM (SELECT (".to_owned();
        r.append(any_null.as_str());
        r.append(") AS identity_is_null, count(*) AS identity_rows FROM (");
        r.append(scan.as_str());
        r.append(") GROUP BY ");
        r.append(identity.as_str());
        r.append(")) WHERE any_null > 0 OR max_rows > 1");
        Some(r)
    }

    /// Reads the guard's row as the broken promise that it stands for.
    pub fn guard_refusal(&self, marker: &str) -> (r: LimboError)
        requires
            self.wf(),
            marker@ == guard_null() || marker@ == guard_duplicate(),
        ensures
            marker@ == guard_null() ==> r@ == ErrorView::Constraint(self.null_message()),
            marker@ == guard_duplicate() ==> r@ == ErrorView::Constraint(self.duplicate_message()),
    {
        proof {
            reveal_strlit("null");
            reveal_strlit("duplicate");
            assert("null"@.len() != "duplicate"@.len());
        }
        if same_text(marker, "null") {
            self.null_identity_error()
        } else {
            self.duplicate_identity_error()
        }
    }

    /// The `ON CONFLICT` clause that the sweep and a push share.
    ///
    /// The row keeps its rowid, and the update is guarded by a comparison, so that an unchanged
    /// row produces no change.
    pub fn upsert_tail(&self) -> (r: String)
        requires
            self.wf(),
        ensures
            r@ == self.upsert_clause(),
    {
        let identity = self.identity_list();
        let changed = self.non_identity_columns();
        let ghost names = self.changeable();
        assert(changed@.len() == names.len()) by {
            assert(texts(changed@).len() == names.len());
        }
        let mut r = "ON CONFLICT(".to_owned();
        r.append(identity.as_str());
        if changed.len() == 0 {
            r.append(") DO NOTHING");
            return r;
        }
        let table = self.table_ident();
        let ghost sets = names.map_values(
            |c: Seq<char>| identifier(c) + " = excluded."@ + identifier(c),
        );
        let ghost tests = names.map_values(
            |c: Seq<char>|
                self.table() + "."@ + identifier(c) + " IS NOT excluded."@ + identifier(c),
        );
        let mut assignments: Vec<String> = Vec::new();
        let mut differs: Vec<String> = Vec::new();
        let mut i: usize = 0;
        while i < changed.len()
            invariant
                i <= changed.len(),
                names == texts(changed@),
                table@ == self.table(),
                sets == names.map_values(
                    |c: Seq<char>| identifier(c) + " = excluded."@ + identifier(c),
                ),
                tests == names.map_values(
                    |c: Seq<char>|
                        self.table() + "."@ + identifier(c) + " IS NOT excluded."@ + identifier(c),
                ),
                texts(assignments@) == sets.take(i as int),
                texts(differs@) == tests.take(i as int),
            decreases changed.len() - i,
        {
            let ghost before_a = assignments@;
            let ghost before_d = differs@;
            let c = as_ident(changed[i].as_str());
            assert(names[i as int] == changed@[i as int]@);
            let mut a = c.clone();
            a.append(" = excluded.");
            a.append(c.as_str());
            assignments.push(a);
            let mut d = table.clone();
            d.append(".");
            d.append(c.as_str());
            d.append(" IS NOT excluded.");
            d.append(c.as_str());
            differs.push(d);
            i += 1;
            assert(texts(assignments@) =~= texts(before_a).push(sets[i - 1]));
            assert(texts(assignments@) =~= sets.take(i as int));
            assert(texts(differs@) =~= texts(before_d).push(tests[i - 1]));
            assert(texts(differs@) =~= tests.take(i as int));
        }
        assert(sets.take(i as int) =~= sets);
        assert(tests.take(i as int) =~= tests);
        let set_list = join(&assignments, ", ");
        let test_list = join(&differs, " OR ");
        r.append(") DO UPDATE SET ");
        r.append(set_list.as_str());
        r.append(" WHERE ");
        r.append(test_list.as_str());
        r
    }

    /// The statement that applies one pushed row.
    pub open spec fn push_upsert(&self) -> Seq<char> {
        "INSERT INTO "@ + self.table() + " VALUES ("@ + joined(
            Seq::new(self.columns@.len(), |i: int| "?"@ + decimal((i + 1) as nat)),
            ", "@,
        ) + ") "@ + self.upsert_clause()
    }

    /// Applies one pushed row. Takes one parameter per mirror column, in declaration order.
    pub fn push_upsert_sql(&self) -> (r: String)
        requires
            self.wf(),
        ensures
            r@ == self.push_upsert(),
    {
        let ghost wanted = Seq::new(
            self.columns@.len(),
            |i: int| "?"@ + decimal((i + 1) as nat),
        );
        let mut params: Vec<String> = Vec::new();
        let mut i: usize = 0;
        while i < self.columns.len()
            invariant
                i <= self.columns.len(),
                wanted == Seq::new(
                    self.columns@.len(),
                    |i: int| "?"@ + decimal((i + 1) as nat),
                ),
                texts(params@) == wanted.take(i as int),
            decreases self.columns.len() - i,
        {
            let ghost before = params@;
            let mut p = "?".to_owned();
            let n = decimal_usize(i + 1);
            p.append(n.as_str());
            params.push(p);
            i += 1;
            assert(texts(params@) =~= texts(before).push(wanted[i - 1]));
            assert(texts(params@) =~= wanted.take(i as int));
        }
        assert(wanted.take(i as int) =~= wanted);
        let mut r = "INSERT INTO ".to_owned();
        let table = self.table_ident();
        r.append(table.as_str());
        r.append(" VALUES (");
        let list = join(&params, ", ");
        r.append(list.as_str());
        r.append(") ");
        let tail = self.upsert_tail();
        r.append(tail.as_str());
        r
    }

    /// Retracts one pushed row. Takes one parameter per identity column, in identity order.
    pub fn push_delete_sql(&self) -> (r: String)
        requires
            self.wf(),
        ensures
            r@ == "DELETE FROM "@ + self.table() + " WHERE "@ + joined(
                Seq::new(
                    self.identity@.len(),
                    |i: int|
                        identifier(self.names()[self.positions()[i]]) + " = ?"@ + decimal(
                            (i + 1) as nat,
                        ),
                ),
                " AND "@,
            ),
    {
        let ghost wanted = Seq::new(
            self.identity@.len(),
            |i: int|
                identifier(self.names()[self.positions()[i]]) + " = ?"@ + decimal((i + 1) as nat),
        );
        let mut tests: Vec<String> = Vec::new();
        let mut i: usize = 0;
        while i < self.identity.len()
            invariant
                i <= self.identity.len(),
                self.wf(),
                wanted == Seq::new(
                    self.identity@.len(),
                    |i: int|
                        identifier(self.names()[self.positions()[i]]) + " = ?"@ + decimal(
                            (i + 1) as nat,
                        ),
                ),
                texts(tests@) == wanted.take(i as int),
            decreases self.identity.len() - i,
        {
            let ghost before = tests@;
            assert(self.identity@[i as int] < self.columns@.len());
            let mut test = as_ident(self.columns[self.identity[i]].as_str());
            test.append(" = ?");
            let n = decimal_usize(i + 1);
            test.append(n.as_str());
            tests.push(test);
            i += 1;
            assert(texts(tests@) =~= texts(before).push(wanted[i - 1]));
            assert(texts(tests@) =~= wanted.take(i as int));
        }
        assert(wanted.take(i as int) =~= wanted);
        let mut r = "DELETE FROM ".to_owned();
        let table = self.table_ident();
        r.append(table.as_str());
        r.append(" WHERE ");
        let list = join(&tests, " AND ");
        r.append(list.as_str());
        r
    }

    /// Refuses a scope that is no bound over the rows of the mirror.
    pub fn validate_scope(&self, scope: &RefreshScope) -> (r: Result<(), LimboError>)
        ensures
            match scope@ {
                ScopeView::Full => r is Ok,
                ScopeView::Where(e) => match refusal(e, self.names(), self.source_table@) {
                    None => r is Ok,
                    Some(m) => r matches Err(err) && err@ == ErrorView::ParseError(m),
                },
            },
    {
        validate(scope, &self.columns, self.source_table.as_str())
    }
}

/// A driver for foreign tables, as far as mirrors depend on it.
#[derive(Debug, PartialEq, Eq)]
pub struct ForeignWrapper {
    /// The columns by which the driver recognises a row across scans, if it declares any.
    pub identity_columns: Option<Vec<u32>>,
}

#[derive(Debug, PartialEq, Eq)]
pub enum TableKind {
    Btree,
    Virtual { foreign_wrapper: Option<ForeignWrapper> },
}

#[derive(Debug, PartialEq, Eq)]
pub struct Table {
    pub name: String,
    pub columns: Vec<Column>,
    pub kind: TableKind,
}

/// The tables of a database.
#[derive(Debug, PartialEq, Eq)]
pub struct Schema {
    pub tables: Vec<Table>,
}

/// The position of the first table with a name, up to the case of ASCII letters, or the number
/// of tables where there is none.
pub open spec fn table_position(tables: Seq<Table>, name: Seq<char>) -> int
    decreases tables.len(),
{
    if tables.len() == 0 {
        0
    } else {
        let front = table_position(tables.drop_last(), name);
        if front < tables.len() - 1 || lowered(tables.last().name@) == lowered(name) {
            front
        } else {
            tables.len() as int
        }
    }
}

/// The identity that a table declares: it is foreign, and its driver names identity columns.
pub open spec fn declared_identity(table: Table) -> Option<Seq<u32>> {
    match table.kind {
        TableKind::Virtual { foreign_wrapper: Some(w) } => match w.identity_columns {
            Some(ids) => Some(ids@),
            None => None,
        },
        _ => None,
    }
}

/// What is wrong with an identity: the first index that names no column, or one without a name.
pub open spec fn identity_fault(
    source: Seq<char>,
    columns: Seq<ColumnView>,
    identity: Seq<u32>,
) -> Option<Seq<char>>
    decreases identity.len(),
{
    if identity.len() == 0 {
        None
    } else {
        let front = identity_fault(source, columns, identity.drop_last());
        let idx = identity.last();
        if front is Some {
            front
        } else if idx >= columns.len() {
            Some(
                "foreign table '"@ + source + "' declares identity column "@ + decimal(idx as nat)
                    + ", but it only has "@ + decimal(columns.len()) + " columns"@,
            )
        } else if columns[idx as int].name is None {
            Some(
                "foreign table '"@ + source + "' declares identity column "@ + decimal(idx as nat)
                    + ", which has no name"@,
            )
        } else {
            None
        }
    }
}

/// What a mirror spec says.
#[verifier::ext_equal]
pub struct SpecView {
    pub source_table: Seq<char>,
    pub mirror_table: Seq<char>,
    pub columns: Seq<ColumnView>,
    pub identity: Seq<u32>,
}

impl View for MirrorSpec {
    type V = SpecView;

    open spec fn view(&self) -> SpecView {
        SpecView {
            source_table: self.source_table@,
            mirror_table: self.mirror_table@,
            columns: column_views(self.columns@),
            identity: self.identity@,
        }
    }
}

pub open spec fn spec_views(specs: Seq<MirrorSpec>) -> Seq<SpecView> {
    specs.map_values(|s: MirrorSpec| s@)
}

/// The mirrors of a view over some tables, or what is wrong with the first identity that is.
///
/// A table that is not there, is not foreign, or whose driver declares no identity has none.
pub open spec fn mirrors_of(
    view_name: Seq<char>,
    names: Seq<Seq<char>>,
    tables: Seq<Table>,
) -> Result<Seq<SpecView>, Seq<char>>
    decreases names.len(),
{
    if names.len() == 0 {
        Ok(Seq::empty())
    } else {
        match mirrors_of(view_name, names.drop_last(), tables) {
            Err(m) => Err(m),
            Ok(specs) => {
                let source = names.last();
                let at = table_position(tables, source);
                if at >= tables.len() {
                    Ok(specs)
                } else {
                    match declared_identity(tables[at]) {
                        None => Ok(specs),
                        Some(identity) => {
                            let columns = column_views(tables[at].columns@);
                            match identity_fault(source, columns, identity) {
                                Some(m) => Err(m),
                                None => Ok(
                                    specs.push(
                                        SpecView {
                                            source_table: source,
                                            mirror_table: mirror_name(view_name, source),
                                            columns,
                                            identity,
                                        },
                                    ),
                                ),
                            }
                        },
                    }
                }
            },
        }
    }
}

fn find_table(tables: &Vec<Table>, name: &str) -> (r: usize)
    ensures
        r == table_position(tables@, name@),
        r <= tables@.len(),
{
    let mut i: usize = 0;
    assert(tables@.take(0) =~= Seq::<Table>::empty());
    while i < tables.len()
        invariant
            i <= tables.len(),
            table_position(tables@.take(i as int), name@) == i,
        decreases tables.len() - i,
    {
        assert(tables@.take(i + 1).drop_last() =~= tables@.take(i as int));
        if same_ignoring_case(tables[i].name.as_str(), name) {
            proof {
                lemma_table_position_prefix(tables@, i + 1, name@);
            }
            return i;
        }
        i += 1;
    }
    assert(tables@.take(i as int) =~= tables@);
    i
}

proof fn lemma_table_position_prefix(tables: Seq<Table>, n: int, name: Seq<char>)
    requires
        0 <= n <= tables.len(),
        table_position(tables.take(n), name) < n,
    ensures
        table_position(tables, name) == table_position(tables.take(n), name),
    decreases tables.len() - n,
{
    if n == tables.len() {
        assert(tables.take(n) =~= tables);
    } else {
        assert(tables.take(n + 1).drop_last() =~= tables.take(n));
        lemma_table_position_prefix(tables, n + 1, name);
    }
}

proof fn lemma_identity_fault_prefix(
    source: Seq<char>,
    columns: Seq<ColumnView>,
    identity: Seq<u32>,
    n: int,
)
    requires
        0 <= n <= identity.len(),
        identity_fault(source, columns, identity.take(n)) is Some,
    ensures
        identity_fault(source, columns, identity) == identity_fault(
            source,
            columns,
            identity.take(n),
        ),
    decreases identity.len() - n,
{
    if n == identity.len() {
        assert(identity.take(n) =~= identity);
    } else {
        assert(identity.take(n + 1).drop_last() =~= identity.take(n));
        lemma_identity_fault_prefix(source, columns, identity, n + 1);
    }
}

fn check_identity(source: &str, columns: &Vec<Column>, identity: &Vec<u32>) -> (r: Option<String>)
    ensures
        match r {
            Some(m) => identity_fault(source@, column_views(columns@), identity@) == Some(m@),
            None => identity_fault(source@, column_views(columns@), identity@) is None,
        },
{
    let ghost views = column_views(columns@);
    let mut i: usize = 0;
    assert(identity@.take(0) =~= Seq::<u32>::empty());
    while i < identity.len()
        invariant
            i <= identity.len(),
            views == column_views(columns@),
            identity_fault(source@, views, identity@.take(i as int)) is None,
        decreases identity.len() - i,
    {
        let idx: usize = identity[i] as usize;
        proof {
            assert(identity@.take(i + 1).drop_last() =~= identity@.take(i as int));
            assert(identity@.take(i + 1).last() == identity@[i as int]);
        }
        if idx >= columns.len() || columns[idx].name.is_none() {
            let mut m = "foreign table '".to_owned();
            m.append(source);
            m.append("' declares identity column ");
            let n = decimal_usize(idx);
            m.append(n.as_str());
            if idx >= columns.len() {
                m.append(", but it only has ");
                let width = decimal_usize(columns.len());
                m.append(width.as_str());
                m.append(" columns");
            } else {
                m.append(", which has no name");
                assert(views[idx as int].name is None);
            }
            proof {
                lemma_identity_fault_prefix(source@, views, identity@, i + 1);
            }
            return Some(m);
        }
        assert(views[idx as int].name is Some);
        i += 1;
    }
    assert(identity@.take(i as int) =~= identity@);
    None
}

fn copy_columns(columns: &Vec<Column>) -> (r: Vec<Column>)
    ensures
        column_views(r@) == column_views(columns@),
{
    let mut out: Vec<Column> = Vec::new();
    let mut i: usize = 0;
    while i < columns.len()
        invariant
            i <= columns.len(),
            out@.len() == i,
            forall|j: int| 0 <= j < i ==> (#[trigger] out@[j])@ == columns@[j]@,
        decreases columns.len() - i,
    {
        out.push(columns[i].clone());
        i += 1;
    }
    assert(column_views(out@) =~= column_views(columns@));
    out
}

fn copy_ids(ids: &Vec<u32>) -> (r: Vec<u32>)
    ensures
        r@ == ids@,
{
    let mut out: Vec<u32> = Vec::new();
    let mut i: usize = 0;
    while i < ids.len()
        invariant
            i <= ids.len(),
            out@ == ids@.take(i as int),
        decreases ids.len() - i,
    {
        out.push(ids[i]);
        i += 1;
        assert(out@ =~= ids@.take(i as int));
    }
    assert(ids@.take(i as int) =~= ids@);
    out
}

proof fn lemma_mirrors_of_prefix(
    view_name: Seq<char>,
    names: Seq<Seq<char>>,
    tables: Seq<Table>,
    n: int,
)
    requires
        0 <= n <= names.len(),
        mirrors_of(view_name, names.take(n), tables) is Err,
    ensures
        mirrors_of(view_name, names, tables) == mirrors_of(view_name, names.take(n), tables),
    decreases names.len() - n,
{
    if n == names.len() {
        assert(names.take(n) =~= names);
    } else {
        assert(names.take(n + 1).drop_last() =~= names.take(n));
        lemma_mirrors_of_prefix(view_name, names, tables, n + 1);
    }
}

/// Builds the mirror specs for a view over the tables it references.
///
/// No spec means that the view reads no foreign table that declares an identity, and keeps
/// snapshot semantics.
pub fn mirror_specs_for_view(
    view_name: &str,
    referenced_table_names: &Vec<String>,
    schema: &Schema,
) -> (r: Result<Vec<MirrorSpec>, LimboError>)
    ensures
        match mirrors_of(view_name@, texts(referenced_table_names@), schema.tables@) {
            Ok(views) => r matches Ok(specs) && spec_views(specs@) == views,
            Err(m) => r matches Err(e) && e@ == ErrorView::ParseError(m),
        },
{
    let ghost names = texts(referenced_table_names@);
    let ghost tables = schema.tables@;
    let mut specs: Vec<MirrorSpec> = Vec::new();
    let mut i: usize = 0;
    assert(names.take(0) =~= Seq::<Seq<char>>::empty());
    assert(spec_views(specs@) =~= Seq::<SpecView>::empty());
    while i < referenced_table_names.len()
        invariant
            i <= referenced_table_names.len(),
            names == texts(referenced_table_names@),
            tables == schema.tables@,
            mirrors_of(view_name@, names.take(i as int), tables) == Ok::<Seq<SpecView>, Seq<char>>(
                spec_views(specs@),
            ),
        decreases referenced_table_names.len() - i,
    {
        let source = &referenced_table_names[i];
        let ghost before = specs@;
        proof {
            assert(names.take(i + 1).drop_last() =~= names.take(i as int));
            assert(names.take(i + 1).last() == source@);
        }
        let at: usize = find_table(&schema.tables, source.as_str());
        if at < schema.tables.len() {
            let table = &schema.tables[at];
            if let TableKind::Virtual { foreign_wrapper: Some(w) } = &table.kind {
                if let Some(identity) = &w.identity_columns {
                    if let Some(m) = check_identity(source.as_str(), &table.columns, identity) {
                        proof {
                            lemma_mirrors_of_prefix(view_name@, names, tables, i + 1);
                        }
                        return Err(LimboError::ParseError(m));
                    }
                    let spec = MirrorSpec {
                        source_table: source.clone(),
                        mirror_table: mirror_table_name(view_name, source.as_str()),
                        columns: copy_columns(&table.columns),
                        identity: copy_ids(identity),
                    };
                    let ghost view = spec@;
                    specs.push(spec);
                    assert(spec_views(specs@) =~= spec_views(before).push(view));
                }
            }
        }
        i += 1;
    }
    assert(names.take(i as int) =~= names);
    Ok(specs)
}

/// Every mirror has an identity that names columns of it, and each of those has a name.
pub proof fn law_mirrors_have_named_identities(
    view_name: Seq<char>,
    names: Seq<Seq<char>>,
    tables: Seq<Table>,
    i: int,
    j: int,
)
    requires
        mirrors_of(view_name, names, tables) is Ok,
        0 <= i < mirrors_of(view_name, names, tables)->Ok_0.len(),
        0 <= j < mirrors_of(view_name, names, tables)->Ok_0[i].identity.len(),
    ensures
        ({
            let spec = mirrors_of(view_name, names, tables)->Ok_0[i];
            spec.identity[j] < spec.columns.len() && spec.columns[spec.identity[j] as int].name is Some
        }),
    decreases names.len(),
{
    let before = mirrors_of(view_name, names.drop_last(), tables)->Ok_0;
    if i < before.len() {
        law_mirrors_have_named_identities(view_name, names.drop_last(), tables, i, j);
    } else {
        let spec = mirrors_of(view_name, names, tables)->Ok_0[i];
        lemma_faultless(spec.source_table, spec.columns, spec.identity, j);
    }
}

proof fn lemma_faultless(
    source: Seq<char>,
    columns: Seq<ColumnView>,
    identity: Seq<u32>,
    j: int,
)
    requires
        identity_fault(source, columns, identity) is None,
        0 <= j < identity.len(),
    ensures
        identity[j] < columns.len(),
        columns[identity[j] as int].name is Some,
    decreases identity.len(),
{
    if j < identity.len() - 1 {
        lemma_faultless(source, columns, identity.drop_last(), j);
        assert(identity.drop_last()[j] == identity[j]);
    }
}

/// Whether a text ends with another.
pub open spec fn ends_with(text: Seq<char>, tail: Seq<char>) -> bool {
    tail.len() <= text.len() && text.skip(text.len() - tail.len()) == tail
}

/// A push and a sweep end in the same clause, whatever the scope: a pushed row lands on the row
/// that the sweep would land on.
pub proof fn law_push_and_sweep_share_the_upsert(sync: MirrorSync, scope: ScopeView)
    ensures
        ends_with(sync.sweep_upsert(scope), sync.upsert_clause()),
        ends_with(sync.push_upsert(), sync.upsert_clause()),
{
    let tail = sync.upsert_clause();
    let a = sync.sweep_upsert(scope);
    let b = sync.push_upsert();
    assert(a.skip(a.len() - tail.len()) =~= tail);
    assert(b.skip(b.len() - tail.len()) =~= tail);
}

/// Letting duplicates collapse is the absence of the guard and nothing else.
pub proof fn law_last_wins_omits_the_guard(refusing: MirrorSync, scope: ScopeView)
    requires
        refusing.policy is Refuse,
    ensures
        ({
            let collapsing = MirrorSync { policy: DuplicatePolicy::LastWins, ..refusing };
            collapsing.sweep(scope) == refusing.sweep(scope).skip(1)
        }),
{
    let collapsing = MirrorSync { policy: DuplicatePolicy::LastWins, ..refusing };
    assert(collapsing.upsert_clause() == refusing.upsert_clause()) by {
        assert(collapsing.changeable() == refusing.changeable());
        assert(collapsing.identity_idents() == refusing.identity_idents());
        assert(collapsing.changeable().map_values(
            |c: Seq<char>|
                collapsing.table() + "."@ + identifier(c) + " IS NOT excluded."@ + identifier(c),
        ) =~= refusing.changeable().map_values(
            |c: Seq<char>|
                refusing.table() + "."@ + identifier(c) + " IS NOT excluded."@ + identifier(c),
        ));
    }
    assert(collapsing.sweep(scope) =~= refusing.sweep(scope).skip(1));
}

// What the statements of a mirror name.

/// The names of a list at positions that go up, and that are all positions but some, are the others.
proof fn lemma_others(names: Seq<Seq<char>>, at: Seq<int>, rest: Seq<int>)
    requires
        forall|k: int, l: int| 0 <= k < l < rest.len() ==> #[trigger] rest[k] < #[trigger] rest[l],
        forall|p: int| #[trigger]
            rest.contains(p) <==> 0 <= p < names.len() && !at.contains(p),
    ensures
        others(names, at).len() == rest.len(),
        forall|k: int|
            0 <= k < rest.len() ==> 0 <= #[trigger] rest[k] < names.len() && others(names, at)[k]
                == names[rest[k]],
    decreases names.len(),
{
    if names.len() == 0 {
        if rest.len() > 0 {
            assert(rest.contains(rest[0]));
        }
    } else {
        let front = names.drop_last();
        let last = names.len() - 1;
        if at.contains(last) {
            assert forall|p: int| #[trigger] rest.contains(p) <==> 0 <= p < front.len()
                && !at.contains(p) by {}
            lemma_others(front, at, rest);
            assert forall|j: int| 0 <= j < rest.len() implies 0 <= #[trigger] rest[j] < names.len()
                && others(names, at)[j] == names[rest[j]] by {
                assert(others(front, at)[j] == front[rest[j]]);
            }
        } else {
            assert(rest.contains(last));
            let k = choose|k: int| 0 <= k < rest.len() && rest[k] == last;
            if k < rest.len() - 1 {
                assert(rest[k] < rest[rest.len() - 1]);
                assert(rest.contains(rest[rest.len() - 1]));
            }
            let less = rest.drop_last();
            assert forall|p: int| #[trigger] less.contains(p) <==> 0 <= p < front.len()
                && !at.contains(p) by {
                if less.contains(p) {
                    let j = choose|j: int| 0 <= j < less.len() && less[j] == p;
                    assert(rest[j] == p);
                    assert(rest.contains(p));
                    assert(rest[j] < rest[k]);
                }
                if 0 <= p < front.len() && !at.contains(p) {
                    assert(rest.contains(p));
                    let j = choose|j: int| 0 <= j < rest.len() && rest[j] == p;
                    assert(less[j] == p);
                }
            }
            lemma_others(front, at, less);
            assert forall|j: int| 0 <= j < rest.len() implies 0 <= #[trigger] rest[j] < names.len()
                && others(names, at)[j] == names[rest[j]] by {
                assert(rest.contains(rest[j]));
                if j < less.len() {
                    assert(less[j] == rest[j]);
                    assert(others(names, at)[j] == others(front, at)[j]);
                }
            }
        }
    }
}

/// The statements that keep a mirror name every identity column where they match rows, test every one
/// for NULL, and set and compare every other column, each with its own new value.
///
/// `idents` are the identity columns as SQL identifiers in the order of the identity, `rest` are the
/// positions of the other columns from first to last.
pub proof fn law_mirror_statements_name_every_column(
    sync: MirrorSync,
    scope: ScopeView,
    idents: Seq<Seq<char>>,
    nulls: Seq<Seq<char>>,
    rest: Seq<int>,
    sets: Seq<Seq<char>>,
    tests: Seq<Seq<char>>,
    values: Seq<Seq<char>>,
)
    requires
        sync.wf(),
        idents.len() == sync.identity@.len(),
        forall|i: int|
            0 <= i < idents.len() ==> #[trigger] idents[i] == identifier(
                sync.columns@[sync.identity@[i] as int]@,
            ),
        nulls.len() == sync.identity@.len(),
        forall|i: int| 0 <= i < nulls.len() ==> #[trigger] nulls[i] == idents[i] + " IS NULL"@,
        forall|k: int, l: int| 0 <= k < l < rest.len() ==> #[trigger] rest[k] < #[trigger] rest[l],
        forall|p: int| #[trigger]
            rest.contains(p) <==> 0 <= p < sync.columns@.len() && forall|j: int|
                0 <= j < sync.identity@.len() ==> #[trigger] sync.identity@[j] != p,
        sets.len() == rest.len(),
        forall|k: int|
            0 <= k < sets.len() ==> #[trigger] sets[k] == identifier(sync.columns@[rest[k]]@)
                + " = excluded."@ + identifier(sync.columns@[rest[k]]@),
        tests.len() == rest.len(),
        forall|k: int|
            0 <= k < tests.len() ==> #[trigger] tests[k] == identifier(sync.mirror_table@) + "."@
                + identifier(sync.columns@[rest[k]]@) + " IS NOT excluded."@ + identifier(
                sync.columns@[rest[k]]@,
            ),
        values.len() == sync.columns@.len(),
        forall|i: int|
            0 <= i < values.len() ==> #[trigger] values[i] == "?"@ + decimal((i + 1) as nat),
    ensures
        sync.upsert_clause() == (if rest.len() == 0 {
            "ON CONFLICT("@ + joined(idents, ", "@) + ") DO NOTHING"@
        } else {
            "ON CONFLICT("@ + joined(idents, ", "@) + ") DO UPDATE SET "@ + joined(sets, ", "@)
                + " WHERE "@ + joined(tests, " OR "@)
        }),
        sync.sweep_upsert(scope) == "INSERT INTO "@ + identifier(sync.mirror_table@)
            + " SELECT * FROM ("@ + sync.scan_query.text(scope) + ") WHERE true "@
            + sync.upsert_clause(),
        sync.push_upsert() == "INSERT INTO "@ + identifier(sync.mirror_table@) + " VALUES ("@
            + joined(values, ", "@) + ") "@ + sync.upsert_clause(),
        sync.sweep_delete(scope) == "DELETE FROM "@ + identifier(sync.mirror_table@) + (
        match scope {
            ScopeView::Full => " WHERE ("@,
            ScopeView::Where(e) => " WHERE ("@ + sql_text(e) + ") AND ("@,
        }) + joined(idents, ", "@) + ") NOT IN (SELECT "@ + joined(idents, ", "@) + " FROM ("@
            + sync.scan_query.text(scope) + "))"@,
        sync.guard_query(scope)
            == "SELECT CASE WHEN any_null > 0 THEN 'null' ELSE 'duplicate' END FROM (SELECT max(identity_is_null) AS any_null, max(identity_rows) AS max_rows FROM (SELECT ("@
            + joined(nulls, " OR "@) + ") AS identity_is_null, count(*) AS identity_rows FROM ("@
            + sync.scan_query.text(scope) + ") GROUP BY "@ + joined(idents, ", "@)
            + ")) WHERE any_null > 0 OR max_rows > 1"@,
        sync.sweep(scope) == (match sync.policy {
            DuplicatePolicy::Refuse => seq![
                sync.guard_query(scope),
                sync.sweep_upsert(scope),
                sync.sweep_delete(scope),
            ],
            DuplicatePolicy::LastWins => seq![
                sync.sweep_upsert(scope),
                sync.sweep_delete(scope),
            ],
        }),
{
    let names = sync.names();
    let at = sync.positions();
    assert forall|i: int| 0 <= i < idents.len() implies #[trigger] idents_at(names, at)[i]
        == idents[i] by {
        assert(sync.identity@[i] < sync.columns@.len());
    }
    assert(idents_at(names, at) =~= idents);
    let null_tests = at.map_values(|i: int| identifier(names[i]) + " IS NULL"@);
    assert forall|i: int| 0 <= i < nulls.len() implies #[trigger] null_tests[i] == nulls[i] by {
        assert(idents[i] == idents_at(names, at)[i]);
    }
    assert(null_tests =~= nulls);
    assert forall|p: int| #[trigger] rest.contains(p) <==> 0 <= p < names.len() && !at.contains(
        p,
    ) by {
        if at.contains(p) {
            let j = choose|j: int| 0 <= j < at.len() && at[j] == p;
            assert(sync.identity@[j] == p);
        } else {
            assert forall|j: int| 0 <= j < sync.identity@.len() implies #[trigger] sync.identity@[j]
                != p by {
                assert(at[j] == sync.identity@[j]);
            }
        }
    }
    lemma_others(names, at, rest);
    let changeable = sync.changeable();
    let set_list = changeable.map_values(
        |c: Seq<char>| identifier(c) + " = excluded."@ + identifier(c),
    );
    assert forall|k: int| 0 <= k < sets.len() implies #[trigger] set_list[k] == sets[k] by {
        assert(0 <= rest[k] < names.len());
    }
    assert(set_list =~= sets);
    let test_list = changeable.map_values(
        |c: Seq<char>|
            sync.table() + "."@ + identifier(c) + " IS NOT excluded."@ + identifier(c),
    );
    assert forall|k: int| 0 <= k < tests.len() implies #[trigger] test_list[k] == tests[k] by {
        assert(0 <= rest[k] < names.len());
    }
    assert(test_list =~= tests);
    assert(Seq::new(sync.columns@.len(), |i: int| "?"@ + decimal((i + 1) as nat)) =~= values);
    assert(sync.sweep(scope) =~= (match sync.policy {
        DuplicatePolicy::Refuse => seq![
            sync.guard_query(scope),
            sync.sweep_upsert(scope),
            sync.sweep_delete(scope),
        ],
        DuplicatePolicy::LastWins => seq![sync.sweep_upsert(scope), sync.sweep_delete(scope)],
    }));
}

/// A mirror has a column for each of its source, under its name and with its type, and the identity
/// columns, all of them and no others, are NOT NULL and make up the primary key. A column without a
/// type is a text, and a single integer identity is kept from standing for the row id.
pub proof fn law_mirrors_define_every_column(spec: MirrorSpec, idents: Seq<Seq<char>>, i: int)
    requires
        spec.wf(),
        0 <= i < spec.columns@.len(),
        idents.len() == spec.identity@.len(),
        forall|k: int|
            0 <= k < idents.len() ==> #[trigger] idents[k] == identifier(
                spec.columns@[spec.identity@[k] as int].name->Some_0@,
            ),
    ensures
        spec.definitions().len() == spec.columns@.len() + 1,
        spec.definitions().last() == "PRIMARY KEY ("@ + joined(idents, ", "@) + ")"@,
        ({
            let declared = spec.columns@[i].ty_str@;
            let ty = if declared.len() == 0 {
                "TEXT"@
            } else if spec.identity@.len() == 1 && spec.identity@[0] == i && lowered(declared)
                == lowered("INTEGER"@) {
                "INT"@
            } else {
                declared
            };
            let identifies = exists|k: int|
                0 <= k < spec.identity@.len() && #[trigger] spec.identity@[k] == i;
            spec.definitions()[i] == identifier(spec.columns@[i].name->Some_0@) + " "@ + ty + (
            if identifies {
                " NOT NULL"@
            } else {
                ""@
            })
        }),
{
    let positions = spec.identity_positions();
    assert forall|k: int| 0 <= k < idents.len() implies #[trigger] idents_at(
        spec.names(),
        positions,
    )[k] == idents[k] by {
        assert(spec.identity@[k] < spec.columns@.len());
    }
    assert(idents_at(spec.names(), positions) =~= idents);
    if positions.contains(i) {
        let k = choose|k: int| 0 <= k < positions.len() && positions[k] == i;
        assert(spec.identity@[k] == i);
    } else {
        assert forall|k: int| 0 <= k < spec.identity@.len() implies #[trigger] spec.identity@[k]
            != i by {
            assert(positions[k] == spec.identity@[k]);
        }
    }
    if positions == seq![i] {
        assert(positions[0] == i);
    } else if spec.identity@.len() == 1 && spec.identity@[0] == i {
        assert(positions =~= seq![i]);
    }
    reveal_strlit("TEXT");
    reveal_strlit("INTEGER");
    assert(lowered("TEXT"@).len() == 4);
    assert(lowered("INTEGER"@).len() == 7);
}

proof fn lemma_table_position(tables: Seq<Table>, name: Seq<char>)
    ensures
        0 <= table_position(tables, name) <= tables.len(),
        table_position(tables, name) < tables.len() ==> lowered(
            tables[table_position(tables, name)].name@,
        ) == lowered(name),
        forall|i: int|
            0 <= i < table_position(tables, name) ==> lowered((#[trigger] tables[i]).name@)
                != lowered(name),
    decreases tables.len(),
{
    if tables.len() > 0 {
        let front = tables.drop_last();
        lemma_table_position(front, name);
        assert forall|i: int|
            0 <= i < table_position(tables, name) implies lowered((#[trigger] tables[i]).name@)
            != lowered(name) by {
            if i < front.len() {
                assert(front[i] == tables[i]);
            }
        }
    }
}

/// The mirrors of a view are those of the tables that it reads whose driver declares an identity, and
/// of no others: each shadows the first table of its name, up to the case of letters, with its columns
/// and its identity, under a name made of those of the view and of the table.
pub proof fn law_tables_with_an_identity_are_mirrored(
    view_name: Seq<char>,
    names: Seq<Seq<char>>,
    tables: Seq<Table>,
    j: int,
    at: int,
)
    requires
        mirrors_of(view_name, names, tables) is Ok,
        0 <= j < names.len(),
        0 <= at < tables.len(),
        lowered(tables[at].name@) == lowered(names[j]),
        forall|i: int| 0 <= i < at ==> lowered((#[trigger] tables[i]).name@) != lowered(names[j]),
    ensures
        ({
            let mirrors = mirrors_of(view_name, names, tables)->Ok_0;
            let identity = match tables[at].kind {
                TableKind::Virtual { foreign_wrapper: Some(w) } => w.identity_columns,
                _ => None,
            };
            &&& identity is Some ==> mirrors.contains(
                SpecView {
                    source_table: names[j],
                    mirror_table: "__turso_internal_fdw_mirror_v1_"@ + view_name + "__"@
                        + names[j],
                    columns: column_views(tables[at].columns@),
                    identity: identity->Some_0@,
                },
            )
            &&& identity is None ==> forall|k: int|
                0 <= k < mirrors.len() ==> (#[trigger] mirrors[k]).source_table != names[j]
        }),
    decreases names.len(),
{
    let name = names[j];
    let front = names.drop_last();
    let last = names.len() - 1;
    let before = mirrors_of(view_name, front, tables)->Ok_0;
    let mirrors = mirrors_of(view_name, names, tables)->Ok_0;
    let identity = match tables[at].kind {
        TableKind::Virtual { foreign_wrapper: Some(w) } => w.identity_columns,
        _ => None,
    };
    lemma_table_position(tables, name);
    assert(table_position(tables, name) == at) by {
        let p = table_position(tables, name);
        if p < at {
            assert(lowered(tables[p].name@) == lowered(name));
        } else if at < p {
            assert(lowered(tables[at].name@) != lowered(name));
        }
    }
    let mirror = SpecView {
        source_table: name,
        mirror_table: mirror_name(view_name, name),
        columns: column_views(tables[at].columns@),
        identity: identity->Some_0@,
    };
    if identity is None {
        lemma_no_mirror(view_name, names, tables, name);
    } else if j == last {
        assert(mirrors == before.push(mirror));
        assert(mirrors[before.len() as int] == mirror);
    } else {
        assert(front[j] == name);
        law_tables_with_an_identity_are_mirrored(view_name, front, tables, j, at);
        let k = choose|k: int| 0 <= k < before.len() && before[k] == mirror;
        assert(mirrors[k] == mirror);
    }
}

proof fn lemma_no_mirror(
    view_name: Seq<char>,
    names: Seq<Seq<char>>,
    tables: Seq<Table>,
    name: Seq<char>,
)
    requires
        mirrors_of(view_name, names, tables) is Ok,
        0 <= table_position(tables, name) < tables.len(),
        declared_identity(tables[table_position(tables, name)]) is None,
    ensures
        ({
            let mirrors = mirrors_of(view_name, names, tables)->Ok_0;
            forall|k: int| 0 <= k < mirrors.len() ==> (#[trigger] mirrors[k]).source_table != name
        }),
    decreases names.len(),
{
    if names.len() > 0 {
        let before = mirrors_of(view_name, names.drop_last(), tables)->Ok_0;
        let mirrors = mirrors_of(view_name, names, tables)->Ok_0;
        lemma_no_mirror(view_name, names.drop_last(), tables, name);
        assert forall|k: int| 0 <= k < mirrors.len() implies (#[trigger] mirrors[k]).source_table
            != name by {
            if k < before.len() {
                assert(mirrors[k] == before[k]);
            }
        }
    }
}

} // verus!
