//! Pointing the sources of a statement at their mirrors.

use incremental::ast::Expr;
use incremental::rewrite::{
    rewrite_sources_to_mirrors, As, Clauses, CommonTableExpr, CompoundOperator, CompoundSelect,
    FromClause, JoinedTable, MirrorMap, OneSelect, Select, SelectTable,
};

fn table(name: &str, alias: Option<&str>) -> SelectTable {
    SelectTable::Table {
        schema: None,
        name: name.to_string(),
        alias: alias.map(|a| As::As(a.to_string())),
        indexed: None,
    }
}

fn block(first: SelectTable, joined: Vec<SelectTable>) -> OneSelect {
    OneSelect::Select {
        clauses: Clauses {
            distinctness: None,
            columns: vec![("x".to_string(), None)],
            where_clause: None,
            group_by: None,
            windows: vec![],
        },
        from: Some(FromClause {
            select: first,
            joins: joined
                .into_iter()
                .map(|t| JoinedTable {
                    operator: "LEFT JOIN".to_string(),
                    table: t,
                    constraint: Some("USING (id)".to_string()),
                })
                .collect(),
        }),
    }
}

fn statement(
    ctes: Vec<CommonTableExpr>,
    select: OneSelect,
    compounds: Vec<CompoundSelect>,
) -> Select {
    Select {
        recursive: false,
        ctes,
        select,
        compounds,
        order_by: vec!["x DESC".to_string()],
        limit: Some("10".to_string()),
    }
}

fn select(first: SelectTable, joined: Vec<SelectTable>) -> Select {
    statement(vec![], block(first, joined), vec![])
}

fn mirrors() -> MirrorMap {
    let mut m = MirrorMap::new();
    m.insert("f".to_string(), "wrong".to_string());
    m.insert("f".to_string(), "mirror_f".to_string());
    m
}

/// A source is read from its mirror under the name it had.
#[test]
fn sources_are_read_from_their_mirrors() {
    let mut s = select(table("f", None), vec![table("other", None), table("f", Some("g"))]);
    rewrite_sources_to_mirrors(&mut s, &mirrors());
    assert_eq!(
        s,
        select(
            table("mirror_f", Some("f")),
            vec![table("other", None), table("mirror_f", Some("g"))]
        )
    );
}

/// A name that a CTE defines is not a source.
#[test]
fn a_cte_hides_a_source_of_its_name() {
    let with = |inner: Select| {
        statement(
            vec![CommonTableExpr {
                tbl_name: "f".to_string(),
                columns: vec!["x".to_string()],
                materialized: None,
                select: inner,
            }],
            block(table("f", None), vec![]),
            vec![],
        )
    };
    let mut s = with(select(table("other", None), vec![]));
    rewrite_sources_to_mirrors(&mut s, &mirrors());
    assert_eq!(s, with(select(table("other", None), vec![])));
}

#[test]
fn every_block_of_a_compound_is_rewritten() {
    let compound = |name: SelectTable| {
        statement(
            vec![],
            block(table("other", None), vec![]),
            vec![CompoundSelect {
                operator: CompoundOperator::UnionAll,
                select: block(name, vec![]),
            }],
        )
    };
    let mut s = compound(table("f", None));
    rewrite_sources_to_mirrors(&mut s, &mirrors());
    assert_eq!(s, compound(table("mirror_f", Some("f"))));
}

/// Only the name of the table changes, and a name that it has been given stays as it was written.
#[test]
fn everything_beside_the_table_stays() {
    let written = |name: &str, alias: As| SelectTable::Table {
        schema: Some("main".to_string()),
        name: name.to_string(),
        alias: Some(alias),
        indexed: Some("NOT INDEXED".to_string()),
    };
    let whole = |t: SelectTable| Select {
        recursive: true,
        ctes: vec![CommonTableExpr {
            tbl_name: "c".to_string(),
            columns: vec!["x".to_string()],
            materialized: Some("MATERIALIZED".to_string()),
            select: select(table("other", None), vec![]),
        }],
        select: OneSelect::Select {
            clauses: Clauses {
                distinctness: Some("DISTINCT".to_string()),
                columns: vec![("a + 1".to_string(), Some(As::As("b".to_string())))],
                where_clause: Some(Expr::Id("x".to_string())),
                group_by: Some("GROUP BY a HAVING count(*) > 1".to_string()),
                windows: vec!["w AS ()".to_string()],
            },
            from: Some(FromClause { select: t, joins: vec![] }),
        },
        compounds: vec![],
        order_by: vec!["1".to_string()],
        limit: Some("5 OFFSET 2".to_string()),
    };
    let mut s = whole(written("f", As::Elided("g".to_string())));
    rewrite_sources_to_mirrors(&mut s, &mirrors());
    assert_eq!(s, whole(written("mirror_f", As::Elided("g".to_string()))));
}

#[test]
fn without_mirrors_nothing_changes() {
    let mut s = select(table("f", None), vec![]);
    rewrite_sources_to_mirrors(&mut s, &MirrorMap::new());
    assert_eq!(s, select(table("f", None), vec![]));
}

#[test]
fn a_source_has_the_mirror_it_was_given_last() {
    assert_eq!(mirrors().get("f"), Some(&"mirror_f".to_string()));
    assert_eq!(mirrors().get("F"), None);
}
