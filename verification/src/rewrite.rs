//! Pointing the sources of a statement at their mirrors.

use vstd::prelude::*;

use crate::ast::{text_view, Expr};
use crate::names::NameIndex;

verus! {

/// How two queries of a compound are combined.
#[derive(Debug, PartialEq, Eq, Clone, Copy, Structural)]
pub enum CompoundOperator {
    Union,
    UnionAll,
    Except,
    Intersect,
}

/// A name that a table position is given, with the word AS or without it.
#[derive(Debug, PartialEq, Eq)]
pub enum As {
    As(String),
    Elided(String),
}

/// A table position of a FROM clause.
#[derive(Debug, PartialEq, Eq)]
pub enum SelectTable {
    /// A table by its name, with the schema and the index that are asked for.
    Table { schema: Option<String>, name: String, alias: Option<As>, indexed: Option<String> },
    /// A derived table, as it is written.
    Derived { sql: String, alias: Option<As> },
}

/// A table that is joined, with the operator and the condition, as they are written.
#[derive(Debug, PartialEq, Eq)]
pub struct JoinedTable {
    pub operator: String,
    pub table: SelectTable,
    pub constraint: Option<String>,
}

#[derive(Debug, PartialEq, Eq)]
pub struct FromClause {
    pub select: SelectTable,
    pub joins: Vec<JoinedTable>,
}

/// What a query block holds beside its FROM clause, clause by clause as it is written.
#[derive(Debug, PartialEq, Eq)]
pub struct Clauses {
    pub distinctness: Option<String>,
    /// The columns, each with the name it is given.
    pub columns: Vec<(String, Option<As>)>,
    pub where_clause: Option<Expr>,
    /// GROUP BY, with HAVING.
    pub group_by: Option<String>,
    pub windows: Vec<String>,
}

/// One query block.
#[derive(Debug, PartialEq, Eq)]
pub enum OneSelect {
    Select { clauses: Clauses, from: Option<FromClause> },
    Values(Vec<Vec<Expr>>),
}

#[derive(Debug, PartialEq, Eq)]
pub struct CompoundSelect {
    pub operator: CompoundOperator,
    pub select: OneSelect,
}

#[derive(Debug, PartialEq, Eq)]
pub struct CommonTableExpr {
    pub tbl_name: String,
    pub columns: Vec<String>,
    /// Whether the table is to be materialized, as it is written.
    pub materialized: Option<String>,
    pub select: Select,
}

/// A SELECT statement.
#[derive(Debug, PartialEq, Eq)]
pub struct Select {
    pub recursive: bool,
    pub ctes: Vec<CommonTableExpr>,
    pub select: OneSelect,
    pub compounds: Vec<CompoundSelect>,
    /// The terms of ORDER BY, as they are written.
    pub order_by: Vec<String>,
    /// LIMIT, with OFFSET, as it is written.
    pub limit: Option<String>,
}

#[verifier::ext_equal]
pub enum AsView {
    As(Seq<char>),
    Elided(Seq<char>),
}

#[verifier::ext_equal]
pub enum TableView {
    Table {
        schema: Option<Seq<char>>,
        name: Seq<char>,
        alias: Option<AsView>,
        indexed: Option<Seq<char>>,
    },
    Derived { sql: Seq<char>, alias: Option<AsView> },
}

#[verifier::ext_equal]
pub struct JoinedView {
    pub operator: Seq<char>,
    pub table: TableView,
    pub constraint: Option<Seq<char>>,
}

#[verifier::ext_equal]
pub struct FromView {
    pub select: TableView,
    pub joins: Seq<JoinedView>,
}

#[verifier::ext_equal]
pub enum OneView {
    Select { clauses: Clauses, from: Option<FromView> },
    Values(Vec<Vec<Expr>>),
}

#[verifier::ext_equal]
pub struct CteView {
    pub tbl_name: Seq<char>,
    pub columns: Vec<String>,
    pub materialized: Option<String>,
    pub select: SelectView,
}

/// A statement with its names as text.
#[verifier::ext_equal]
pub struct SelectView {
    pub recursive: bool,
    pub ctes: Seq<CteView>,
    pub select: OneView,
    pub compounds: Seq<(CompoundOperator, OneView)>,
    pub order_by: Vec<String>,
    pub limit: Option<String>,
}

impl View for As {
    type V = AsView;

    open spec fn view(&self) -> AsView {
        match self {
            As::As(name) => AsView::As(name@),
            As::Elided(name) => AsView::Elided(name@),
        }
    }
}

pub open spec fn as_view(alias: Option<As>) -> Option<AsView> {
    match alias {
        Some(a) => Some(a@),
        None => None,
    }
}

impl View for SelectTable {
    type V = TableView;

    open spec fn view(&self) -> TableView {
        match self {
            SelectTable::Table { schema, name, alias, indexed } => TableView::Table {
                schema: text_view(*schema),
                name: name@,
                alias: as_view(*alias),
                indexed: text_view(*indexed),
            },
            SelectTable::Derived { sql, alias } => TableView::Derived {
                sql: sql@,
                alias: as_view(*alias),
            },
        }
    }
}

impl View for JoinedTable {
    type V = JoinedView;

    open spec fn view(&self) -> JoinedView {
        JoinedView {
            operator: self.operator@,
            table: self.table@,
            constraint: text_view(self.constraint),
        }
    }
}

impl View for FromClause {
    type V = FromView;

    open spec fn view(&self) -> FromView {
        FromView {
            select: self.select@,
            joins: self.joins@.map_values(|j: JoinedTable| j@),
        }
    }
}

impl View for OneSelect {
    type V = OneView;

    open spec fn view(&self) -> OneView {
        match self {
            OneSelect::Select { clauses, from } => OneView::Select {
                clauses: *clauses,
                from: match from {
                    Some(f) => Some(f@),
                    None => None,
                },
            },
            OneSelect::Values(v) => OneView::Values(*v),
        }
    }
}

pub open spec fn compound_views(list: Seq<CompoundSelect>) -> Seq<(CompoundOperator, OneView)> {
    list.map_values(|c: CompoundSelect| (c.operator, c.select@))
}

pub open spec fn cte_views(list: Seq<CommonTableExpr>) -> Seq<CteView>
    decreases list,
{
    Seq::new(
        list.len(),
        |i: int|
            if 0 <= i < list.len() {
                CteView {
                    tbl_name: list[i].tbl_name@,
                    columns: list[i].columns,
                    materialized: list[i].materialized,
                    select: list[i].select.view(),
                }
            } else {
                arbitrary()
            },
    )
}

impl Select {
    pub open spec fn view(&self) -> SelectView
        decreases self,
    {
        SelectView {
            recursive: self.recursive,
            ctes: cte_views(self.ctes@),
            select: self.select@,
            compounds: compound_views(self.compounds@),
            order_by: self.order_by,
            limit: self.limit,
        }
    }
}

/// A table position after the rewrite: a source with a mirror becomes its mirror under the
/// source's own name, unless a CTE of that name hides the source.
pub open spec fn rewritten_table(
    table: TableView,
    mirrors: Map<Seq<char>, Seq<char>>,
    hidden: Set<Seq<char>>,
) -> TableView {
    match table {
        TableView::Table { schema, name, alias, indexed } => if hidden.contains(name)
            || !mirrors.dom().contains(name) {
            table
        } else {
            TableView::Table {
                schema,
                name: mirrors[name],
                alias: if alias is None {
                    Some(AsView::As(name))
                } else {
                    alias
                },
                indexed,
            }
        },
        TableView::Derived { .. } => table,
    }
}

pub open spec fn rewritten_from(
    from: FromView,
    mirrors: Map<Seq<char>, Seq<char>>,
    hidden: Set<Seq<char>>,
) -> FromView {
    FromView {
        select: rewritten_table(from.select, mirrors, hidden),
        joins: from.joins.map_values(
            |j: JoinedView| JoinedView { table: rewritten_table(j.table, mirrors, hidden), ..j },
        ),
    }
}

/// A query block after the rewrite: its FROM clause is, and nothing else.
pub open spec fn rewritten_one(
    one: OneView,
    mirrors: Map<Seq<char>, Seq<char>>,
    hidden: Set<Seq<char>>,
) -> OneView {
    match one {
        OneView::Select { clauses, from: Some(f) } => OneView::Select {
            clauses,
            from: Some(rewritten_from(f, mirrors, hidden)),
        },
        _ => one,
    }
}

/// The names of some CTEs.
pub open spec fn cte_names(ctes: Seq<CteView>) -> Set<Seq<char>> {
    Set::new(
        |n: Seq<char>| exists|i: int| 0 <= i < ctes.len() && (#[trigger] ctes[i]).tbl_name == n,
    )
}

/// A statement after the rewrite. The names of its CTEs, and those of the statements around it,
/// hide sources of the same name.
pub open spec fn rewritten(
    s: SelectView,
    mirrors: Map<Seq<char>, Seq<char>>,
    hidden: Set<Seq<char>>,
) -> SelectView
    decreases s,
{
    let inner = hidden.union(cte_names(s.ctes));
    SelectView {
        ctes: rewritten_ctes(s.ctes, mirrors, inner),
        select: rewritten_one(s.select, mirrors, inner),
        compounds: s.compounds.map_values(
            |c: (CompoundOperator, OneView)| (c.0, rewritten_one(c.1, mirrors, inner)),
        ),
        ..s
    }
}

pub open spec fn rewritten_ctes(
    ctes: Seq<CteView>,
    mirrors: Map<Seq<char>, Seq<char>>,
    hidden: Set<Seq<char>>,
) -> Seq<CteView>
    decreases ctes,
{
    Seq::new(
        ctes.len(),
        |i: int|
            if 0 <= i < ctes.len() {
                CteView { select: rewritten(ctes[i].select, mirrors, hidden), ..ctes[i] }
            } else {
                arbitrary()
            },
    )
}

/// The mirror of every source that has one.
#[derive(Debug)]
pub struct MirrorMap {
    pub index: NameIndex,
    pub tables: Vec<String>,
}

impl View for MirrorMap {
    type V = Map<Seq<char>, Seq<char>>;

    open spec fn view(&self) -> Map<Seq<char>, Seq<char>> {
        self.index@.map_values(|at: usize| self.tables@[at as int]@)
    }
}

impl MirrorMap {
    pub open spec fn wf(&self) -> bool {
        forall|n: Seq<char>| self.index@.dom().contains(n) ==> #[trigger] self.index@[n]
            < self.tables@.len()
    }

    pub fn new() -> (r: Self)
        ensures
            r.wf(),
            r@ == Map::<Seq<char>, Seq<char>>::empty(),
    {
        let r = MirrorMap { index: NameIndex::new(), tables: Vec::new() };
        assert(r@ =~= Map::<Seq<char>, Seq<char>>::empty());
        r
    }

    /// Gives a source a mirror.
    pub fn insert(&mut self, source: String, mirror: String)
        requires
            old(self).wf(),
        ensures
            final(self).wf(),
            final(self)@ == old(self)@.insert(source@, mirror@),
    {
        let ghost before = *self;
        let ghost s = source@;
        let ghost m = mirror@;
        let at: usize = self.tables.len();
        self.tables.push(mirror);
        self.index.insert(source, at);
        proof {
            assert forall|n: Seq<char>| self.index@.dom().contains(n) implies #[trigger] self.index@[n]
                < self.tables@.len() by {
                if n != s {
                    assert(before.index@.dom().contains(n));
                    assert(self.index@[n] == before.index@[n]);
                }
            }
            assert forall|n: Seq<char>| #[trigger] self@.dom().contains(n) implies self@[n]
                == before@.insert(s, m)[n] by {
                if n != s {
                    assert(before.index@.dom().contains(n));
                    assert(before.index@[n] < before.tables@.len());
                }
            }
            assert(self@ =~= before@.insert(s, m));
        }
    }

    /// The mirror of a source, if it has one.
    pub fn get(&self, source: &str) -> (r: Option<&String>)
        requires
            self.wf(),
        ensures
            match r {
                Some(m) => self@.dom().contains(source@) && self@[source@] == m@,
                None => !self@.dom().contains(source@),
            },
    {
        match self.index.get(source) {
            Some(at) => {
                assert(self.index@[source@] < self.tables@.len());
                Some(&self.tables[at])
            },
            None => None,
        }
    }
}

fn rewrite_select_table(table: &mut SelectTable, mirrors: &MirrorMap, hidden: &NameIndex)
    requires
        mirrors.wf(),
    ensures
        final(table)@ == rewritten_table(old(table)@, mirrors@, hidden@.dom()),
{
    if let SelectTable::Table { schema: _, name, alias, indexed: _ } = table {
        if hidden.get(name.as_str()).is_none() {
            if let Some(mirror) = mirrors.get(name.as_str()) {
                let source = name.clone();
                *name = mirror.clone();
                if alias.is_none() {
                    *alias = Some(As::As(source));
                }
            }
        }
    }
}

fn rewrite_from(from: &mut FromClause, mirrors: &MirrorMap, hidden: &NameIndex)
    requires
        mirrors.wf(),
    ensures
        final(from)@ == rewritten_from(old(from)@, mirrors@, hidden@.dom()),
{
    let ghost before = from@;
    rewrite_select_table(&mut from.select, mirrors, hidden);
    let mut i: usize = 0;
    while i < from.joins.len()
        invariant
            mirrors.wf(),
            i <= from.joins@.len(),
            from.select@ == rewritten_table(before.select, mirrors@, hidden@.dom()),
            from.joins@.len() == before.joins.len(),
            forall|j: int|
                0 <= j < i ==> (#[trigger] from.joins@[j])@ == (JoinedView {
                    table: rewritten_table(before.joins[j].table, mirrors@, hidden@.dom()),
                    ..before.joins[j]
                }),
            forall|j: int|
                i <= j < before.joins.len() ==> (#[trigger] from.joins@[j])@ == before.joins[j],
        decreases from.joins@.len() - i,
    {
        rewrite_select_table(&mut from.joins[i].table, mirrors, hidden);
        i += 1;
    }
    assert(from@ =~= rewritten_from(before, mirrors@, hidden@.dom()));
}

fn rewrite_one_statement(select: &mut OneSelect, mirrors: &MirrorMap, hidden: &NameIndex)
    requires
        mirrors.wf(),
    ensures
        final(select)@ == rewritten_one(old(select)@, mirrors@, hidden@.dom()),
{
    if let OneSelect::Select { clauses: _, from: Some(f) } = select {
        rewrite_from(f, mirrors, hidden);
    }
}

fn rewrite_select(select: &mut Select, mirrors: &MirrorMap, parent: &NameIndex)
    requires
        mirrors.wf(),
    ensures
        final(select)@ == rewritten(old(select)@, mirrors@, parent@.dom()),
    decreases *old(select),
{
    let ghost whole = *select;
    let ghost before = select@;
    let ghost ctes = select.ctes@;
    let mut hidden = parent.clone();
    let mut i: usize = 0;
    while i < select.ctes.len()
        invariant
            i <= select.ctes@.len(),
            *select == whole,
            ctes == whole.ctes@,
            before == whole@,
            hidden@.dom() =~= parent@.dom().union(
                Set::new(
                    |n: Seq<char>|
                        exists|k: int| 0 <= k < i && (#[trigger] cte_views(ctes)[k]).tbl_name == n,
                ),
            ),
        decreases select.ctes@.len() - i,
    {
        let ghost known = hidden@.dom();
        hidden.insert(select.ctes[i].tbl_name.clone(), 0);
        proof {
            assert(cte_views(ctes)[i as int].tbl_name == ctes[i as int].tbl_name@);
            let name = ctes[i as int].tbl_name@;
            let now = parent@.dom().union(
                Set::new(
                    |n: Seq<char>|
                        exists|k: int| 0 <= k < i + 1 && (#[trigger] cte_views(ctes)[k]).tbl_name == n,
                ),
            );
            assert forall|n: Seq<char>| hidden@.dom().contains(n) <==> now.contains(n) by {
                if n == name {
                    assert(cte_views(ctes)[i as int].tbl_name == n);
                }
                if now.contains(n) && !parent@.dom().contains(n) && n != name {
                    let k = choose|k: int|
                        0 <= k < i + 1 && (#[trigger] cte_views(ctes)[k]).tbl_name == n;
                    assert(k < i);
                    assert(cte_views(ctes)[k].tbl_name == n);
                }
                if known.contains(n) && !parent@.dom().contains(n) {
                    let k = choose|k: int| 0 <= k < i && (#[trigger] cte_views(ctes)[k]).tbl_name == n;
                    assert(cte_views(ctes)[k].tbl_name == n);
                }
            }
            assert(hidden@.dom() =~= now);
        }
        i += 1;
    }
    assert(hidden@.dom() =~= parent@.dom().union(cte_names(before.ctes)));
    let mut k: usize = 0;
    while k < select.ctes.len()
        invariant
            mirrors.wf(),
            *old(select) == whole,
            k <= select.ctes@.len(),
            select.ctes@.len() == ctes.len(),
            ctes == whole.ctes@,
            *select == (Select { ctes: select.ctes, ..whole }),
            forall|j: int|
                0 <= j < k ==> (#[trigger] select.ctes@[j]) == (CommonTableExpr {
                    select: select.ctes@[j].select,
                    ..ctes[j]
                }) && select.ctes@[j].select@ == rewritten(
                    ctes[j].select@,
                    mirrors@,
                    hidden@.dom(),
                ),
            forall|j: int| k <= j < ctes.len() ==> #[trigger] select.ctes@[j] == ctes[j],
        decreases select.ctes@.len() - k,
    {
        proof {
            assert(decreases_to!(whole => whole.ctes));
            assert(decreases_to!(whole.ctes => whole.ctes@));
            assert(decreases_to!(whole.ctes@ => whole.ctes@[k as int]));
            assert(decreases_to!(whole.ctes@[k as int] => whole.ctes@[k as int].select));
            assert(select.ctes@[k as int] == ctes[k as int]);
        }
        rewrite_select(&mut select.ctes[k].select, mirrors, &hidden);
        k += 1;
    }
    rewrite_one_statement(&mut select.select, mirrors, &hidden);
    let mut c: usize = 0;
    let ghost compounds = whole.compounds@;
    let ghost rest = *select;
    while c < select.compounds.len()
        invariant
            mirrors.wf(),
            c <= select.compounds@.len(),
            select.compounds@.len() == compounds.len(),
            *select == (Select { compounds: select.compounds, ..rest }),
            forall|j: int|
                0 <= j < c ==> (#[trigger] select.compounds@[j]).operator == compounds[j].operator
                    && select.compounds@[j].select@ == rewritten_one(
                    compounds[j].select@,
                    mirrors@,
                    hidden@.dom(),
                ),
            forall|j: int| c <= j < compounds.len() ==> #[trigger] select.compounds@[j] == compounds[j],
        decreases select.compounds@.len() - c,
    {
        assert(select.compounds@[c as int] == compounds[c as int]);
        rewrite_one_statement(&mut select.compounds[c].select, mirrors, &hidden);
        c += 1;
    }
    proof {
        let inner = parent@.dom().union(cte_names(before.ctes));
        assert(hidden@.dom() == inner);
        let after = rewritten(before, mirrors@, parent@.dom());
        assert(cte_views(select.ctes@) =~= after.ctes);
        assert(compound_views(select.compounds@) =~= after.compounds);
        assert(select@ =~= after);
    }
}

/// Points every source that has a mirror at it.
///
/// The source's name is kept as an alias, so that columns qualified by it still resolve.
pub fn rewrite_sources_to_mirrors(select: &mut Select, mirrors: &MirrorMap)
    requires
        mirrors.wf(),
    ensures
        final(select)@ == rewritten(old(select)@, mirrors@, Set::empty()),
{
    let none = NameIndex::new();
    assert(none@.dom() =~= Set::<Seq<char>>::empty());
    rewrite_select(select, mirrors, &none);
}

/// The name that a table position is given.
pub open spec fn given_name(alias: Option<AsView>) -> Option<Seq<char>> {
    match alias {
        Some(AsView::As(name)) => Some(name),
        Some(AsView::Elided(name)) => Some(name),
        None => None,
    }
}

/// The name under which the columns of a table position can be qualified.
pub open spec fn exposed_name(table: TableView) -> Option<Seq<char>> {
    match table {
        TableView::Table { name, alias, .. } => if alias is Some {
            given_name(alias)
        } else {
            Some(name)
        },
        TableView::Derived { alias, .. } => given_name(alias),
    }
}

/// Column qualifiers still resolve after the rewrite: every table position keeps its name.
pub proof fn law_exposed_names_survive(
    table: TableView,
    mirrors: Map<Seq<char>, Seq<char>>,
    hidden: Set<Seq<char>>,
)
    ensures
        exposed_name(rewritten_table(table, mirrors, hidden)) == exposed_name(table),
{
}

/// Without mirrors a statement stays as it is.
pub proof fn law_no_mirrors_no_change(s: SelectView, hidden: Set<Seq<char>>)
    ensures
        rewritten(s, Map::empty(), hidden) == s,
    decreases s,
{
    let none = Map::<Seq<char>, Seq<char>>::empty();
    let inner = hidden.union(cte_names(s.ctes));
    let r = rewritten(s, none, hidden);
    assert forall|i: int| 0 <= i < s.ctes.len() implies #[trigger] r.ctes[i] == s.ctes[i] by {
        assert(decreases_to!(s => s.ctes));
        assert(decreases_to!(s.ctes => s.ctes[i]));
        assert(decreases_to!(s.ctes[i] => s.ctes[i].select));
        law_no_mirrors_no_change(s.ctes[i].select, inner);
    }
    assert(r.ctes =~= s.ctes);
    assert forall|o: OneView| #[trigger] rewritten_one(o, none, inner) == o by {
        if let OneView::Select { clauses, from: Some(f) } = o {
            assert(rewritten_from(f, none, inner) =~= f);
        }
    }
    assert(r.compounds =~= s.compounds);
}

/// A statement reads from the mirrors wherever it reads a source that has one: at every position of
/// every FROM clause, in the blocks of a compound and in the CTEs too. Such a position keeps its schema
/// and its hint and gets the name of the source for an alias if it had none. A name that a CTE of the
/// statement or of one around it has stands for that CTE. All else stays.
pub proof fn law_every_source_is_read_from_its_mirror(
    s: SelectView,
    mirrors: Map<Seq<char>, Seq<char>>,
    hidden: Set<Seq<char>>,
)
    ensures
        ({
            let r = rewritten(s, mirrors, hidden);
            let out_of_sight = |n: Seq<char>|
                hidden.contains(n) || exists|i: int|
                    0 <= i < s.ctes.len() && (#[trigger] s.ctes[i]).tbl_name == n;
            let read_instead = |before: TableView, after: TableView|
                match before {
                    TableView::Table { schema, name, alias, indexed } => if !out_of_sight(name)
                        && mirrors.dom().contains(name) {
                        after matches TableView::Table {
                            schema: s2,
                            name: n2,
                            alias: a2,
                            indexed: i2,
                        } && s2 == schema && n2 == mirrors[name] && i2 == indexed && a2 == (
                        match alias {
                            Some(a) => Some(a),
                            None => Some(AsView::As(name)),
                        })
                    } else {
                        after == before
                    },
                    _ => after == before,
                };
            let block_read = |before: OneView, after: OneView|
                match before {
                    OneView::Select { clauses, from: Some(f) } => after matches OneView::Select {
                        clauses: c2,
                        from: Some(f2),
                    } && c2 == clauses && read_instead(f.select, f2.select) && f2.joins.len()
                        == f.joins.len() && forall|k: int|
                        0 <= k < f.joins.len() ==> read_instead(
                            (#[trigger] f.joins[k]).table,
                            f2.joins[k].table,
                        ) && f2.joins[k] == (JoinedView {
                            table: f2.joins[k].table,
                            ..f.joins[k]
                        }),
                    _ => after == before,
                };
            &&& block_read(s.select, r.select)
            &&& r.compounds.len() == s.compounds.len()
            &&& forall|k: int|
                0 <= k < s.compounds.len() ==> r.compounds[k].0 == (#[trigger] s.compounds[k]).0
                    && block_read(s.compounds[k].1, r.compounds[k].1)
            &&& r.ctes.len() == s.ctes.len()
            &&& forall|k: int|
                0 <= k < s.ctes.len() ==> r.ctes[k] == (CteView {
                    select: rewritten(
                        (#[trigger] s.ctes[k]).select,
                        mirrors,
                        Set::new(out_of_sight),
                    ),
                    ..s.ctes[k]
                })
            &&& r == (SelectView {
                ctes: r.ctes,
                select: r.select,
                compounds: r.compounds,
                ..s
            })
        }),
{
    let inner = hidden.union(cte_names(s.ctes));
    let out_of_sight = |n: Seq<char>|
        hidden.contains(n) || exists|i: int|
            0 <= i < s.ctes.len() && (#[trigger] s.ctes[i]).tbl_name == n;
    assert forall|n: Seq<char>| #[trigger] inner.contains(n) == out_of_sight(n) by {}
    assert(Set::new(out_of_sight) =~= inner);
}

} // verus!
