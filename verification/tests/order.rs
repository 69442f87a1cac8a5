//! The order of values and of index entries, Z-sets, and what is laid over a view.

use incremental::numbers::Relation;
use incremental::order::{
    compare_entries, Collation, KeyInfo, MatviewOrderBy, SortColumn, SortOrder,
};
use incremental::overlay::{RowKeyZSet, SeekOp};
use incremental::snapshot::materialize_index_snapshot;
use incremental::text::{as_ident, decimal_i64, same_ignoring_case, tail_after_dot};
use incremental::value::{HashableRow, Numeric, Real, Value};
use incremental::zset::Delta;

fn integer(i: i64) -> Value {
    Value::from_i64(i)
}

fn float(x: f64) -> Value {
    Value::Numeric(Numeric::Float(Real { bits: x.to_bits(), text: x.to_string() }))
}

fn text(t: &str) -> Value {
    Value::Text(t.to_string())
}

fn relation(a: &Value, b: &Value) -> Relation {
    a.compare(b, Collation::Binary)
}

/// NULL, numbers, texts, blobs; numbers by what they are, whatever they are stored as.
#[test]
fn values_are_ordered() {
    let ascending = vec![
        Value::Null,
        float(f64::NEG_INFINITY),
        integer(i64::MIN),
        float(-2.5),
        integer(-2),
        integer(0),
        float(0.5),
        integer(1),
        float(1e10),
        integer(9007199254740993),
        float(9223372036854775808.0),
        float(f64::INFINITY),
        text(""),
        text("a"),
        text("ab"),
        text("b"),
        Value::Blob(vec![]),
        Value::Blob(vec![0]),
        Value::Blob(vec![1]),
    ];
    for (i, a) in ascending.iter().enumerate() {
        for (j, b) in ascending.iter().enumerate() {
            let expected = if i < j {
                Relation::Less
            } else if i == j {
                Relation::Equal
            } else {
                Relation::Greater
            };
            assert_eq!(relation(a, b), expected, "{a:?} and {b:?}");
        }
    }
}

/// No precision is lost between integers and reals.
#[test]
fn integers_and_reals_are_compared_exactly() {
    assert_eq!(relation(&integer(1), &float(1.0)), Relation::Equal);
    assert_eq!(relation(&integer(9007199254740993), &float(9007199254740992.0)), Relation::Greater);
    assert_eq!(relation(&integer(i64::MAX), &float(9223372036854775808.0)), Relation::Less);
    assert_eq!(relation(&float(-0.0), &integer(0)), Relation::Equal);
    assert_eq!(relation(&float(0.1), &integer(0)), Relation::Greater);
}

#[test]
fn collations_fold_what_they_say() {
    assert_eq!(text("ABC").compare(&text("abc"), Collation::NoCase), Relation::Equal);
    assert_eq!(text("ABC").compare(&text("abc"), Collation::Binary), Relation::Less);
    assert_eq!(text("a  ").compare(&text("a"), Collation::Rtrim), Relation::Equal);
    assert_eq!(text("a  ").compare(&text("a"), Collation::Binary), Relation::Greater);
}

#[test]
fn entries_are_compared_column_by_column() {
    let info = vec![
        KeyInfo { sort_order: SortOrder::Desc, collation: Collation::Binary },
        KeyInfo { sort_order: SortOrder::Asc, collation: Collation::Binary },
    ];
    let a = vec![integer(2), integer(1)];
    let b = vec![integer(1), integer(5)];
    assert_eq!(compare_entries(&info, &a, &b, 2), Relation::Less);
    assert_eq!(compare_entries(&info, &b, &a, 2), Relation::Greater);
    assert_eq!(compare_entries(&info, &a, &vec![integer(2), integer(9)], 1), Relation::Equal);
    assert_eq!(compare_entries(&info, &a, &vec![integer(2), integer(9)], 2), Relation::Less);
}

#[test]
fn swapped_entries_stand_the_other_way_round() {
    let info = vec![
        KeyInfo { sort_order: SortOrder::Desc, collation: Collation::NoCase },
        KeyInfo { sort_order: SortOrder::Asc, collation: Collation::Binary },
    ];
    let entries = [
        vec![Value::Null, integer(1)],
        vec![text("A"), integer(1)],
        vec![text("a"), integer(2)],
        vec![integer(7), Value::Null],
    ];
    for a in &entries {
        for b in &entries {
            for prefix in 0..=2 {
                let expected = match compare_entries(&info, a, b, prefix) {
                    Relation::Less => Relation::Greater,
                    Relation::Equal => Relation::Equal,
                    Relation::Greater => Relation::Less,
                };
                assert_eq!(compare_entries(&info, b, a, prefix), expected);
            }
        }
    }
}

fn row(id: i64, n: i64) -> HashableRow {
    HashableRow::new(id, vec![integer(id), integer(n)])
}

/// Equal rows are added up, and what cancels is dropped.
#[test]
fn consolidating_adds_up_weights() {
    let mut d = Delta::new();
    d.push(row(2, 1), 1);
    d.push(row(1, 1), 3);
    d.push(row(2, 1), -1);
    d.push(row(1, 1), -1);
    d.push(row(1, 2), 5);
    d.consolidate();
    let mut changes = d.changes;
    changes.sort_by_key(|(r, w)| (r.rowid, format!("{:?}", r.values), *w));
    assert_eq!(changes, vec![(row(1, 1), 2), (row(1, 2), 5)]);
}

#[test]
fn merging_keeps_both() {
    let mut a = Delta::new();
    a.insert(1, vec![integer(1)]);
    let mut b = Delta::new();
    b.delete(1, vec![integer(1)]);
    a.merge(&b);
    assert_eq!(a.len(), 2);
    a.consolidate();
    assert!(a.is_empty());
}

/// A search of the uncommitted changes gives all changes to the row id that it finds.
#[test]
fn an_overlay_is_searched_by_row_id() {
    let mut d = Delta::new();
    d.push(row(3, 30), -1);
    d.push(row(3, 35), 1);
    d.push(row(7, 70), 1);
    let overlay = RowKeyZSet::from_delta(&d);
    assert!(!overlay.is_empty());
    let ids = |target: i64, op: SeekOp| -> Vec<i64> {
        overlay.seek(target, op).changes.iter().map(|(r, _)| r.rowid).collect()
    };
    assert_eq!(ids(1, SeekOp::GT), vec![3, 3]);
    assert_eq!(ids(3, SeekOp::GT), vec![7]);
    assert_eq!(ids(3, SeekOp::GE { eq_only: true }), vec![3, 3]);
    assert_eq!(ids(4, SeekOp::GE { eq_only: true }), Vec::<i64>::new());
    assert_eq!(ids(7, SeekOp::LT), vec![3, 3]);
    assert_eq!(ids(100, SeekOp::LE { eq_only: false }), vec![7]);
    assert!(RowKeyZSet::new().is_empty());
}

/// A listing holds every row as often as its weight says, in the order of the view.
#[test]
fn a_listing_is_in_order() {
    let order_by = MatviewOrderBy {
        columns: vec![SortColumn { column: 1, order: SortOrder::Asc, nulls: None }],
    };
    let mut stored = Delta::new();
    stored.push(row(1, 30), 1);
    stored.push(row(2, 10), 2);
    stored.push(row(3, 20), 1);
    let mut d = Delta::new();
    d.push(row(3, 20), -1);
    d.push(row(4, 10), 1);
    let overlay = RowKeyZSet::from_delta(&d);
    let ids = |full: bool| -> Vec<i64> {
        materialize_index_snapshot(&stored, &overlay, full, &order_by)
            .iter()
            .map(|(id, _)| *id)
            .collect()
    };
    assert_eq!(ids(false), vec![2, 2, 4, 1]);
    assert_eq!(ids(true), vec![4]);
}

#[test]
fn names_are_quoted_where_they_must_be() {
    assert_eq!(as_ident("plain_1"), "plain_1");
    assert_eq!(as_ident("two words"), "\"two words\"");
    assert_eq!(as_ident("a\"b"), "\"a\"\"b\"");
    assert_ne!(as_ident("a"), as_ident("b"));
}

#[test]
fn texts_are_cut_and_compared() {
    assert_eq!(tail_after_dot("main.t"), "t");
    assert_eq!(tail_after_dot("t"), "t");
    assert!(same_ignoring_case("AbC", "aBc"));
    assert!(!same_ignoring_case("ab", "abc"));
    assert_eq!(decimal_i64(-120), "-120");
}
