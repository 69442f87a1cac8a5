//! Reading the rows of a view in their order.

use vstd::prelude::*;

use crate::display::{value_text, write_value};
use crate::error::{ErrorView, LimboError};
use crate::layout::{
    is_logical, rowid_of, seek_key, sort_positions, sort_values, stored_values,
};
use crate::numbers::Relation;
use crate::order::{
    chained, compare_entries, entry_relation, law_entries_are_totally_ordered,
    law_entries_stand_by_their_first_difference, law_values_stand_by_their_kinds, value_relation,
    Collation, KeyInfo, MatviewOrderBy, SortColumn, SortOrder,
};
use crate::overlay::RowKeyZSet;
use crate::seqs::occurrences;
use crate::text::{decimal, decimal_i64, decimal_int, decimal_usize};
use crate::value::{copy_values, data, Datum, HashableRow, Numeric, RowView, Value};
use crate::write_row::stored_weight;
use crate::zset::{
    distinct, equivalent, lemma_weight_absent, lemma_weight_concat, lemma_weight_distinct,
    lemma_weight_push, mass, normal, weight, Change, Delta,
};

verus! {

// One stored row.

/// What a stored row stands for, or why it cannot be read.
pub open spec fn entry_error(record: Seq<Datum>, rowid: Option<i64>, sorts: nat) -> Option<
    Seq<char>,
> {
    let prefix = "Invalid data in materialized view: "@;
    if record.len() == 0 {
        Some(prefix + "no weight column found"@)
    } else {
        match stored_weight(record) {
            None => Some(prefix + "expected integer weight, found "@ + value_text(record.last())),
            Some(w) => if w <= 0 {
                Some(prefix + "expected a positive weight, found "@ + decimal_int(w))
            } else if sorts == 0 {
                if rowid is None {
                    Some(prefix + "found a record, but no rowid!"@)
                } else {
                    None
                }
            } else if record.len() - 1 <= sorts {
                Some(
                    prefix + "expected at least "@ + decimal(sorts) + " columns + rowid, got "@
                        + decimal((record.len() - 1) as nat),
                )
            } else if rowid_of(record[sorts as int]) is None {
                Some(
                    prefix + "expected integer rowid in index record at position "@ + decimal(
                        sorts,
                    ) + ", found "@ + value_text(record[sorts as int]),
                )
            } else {
                None
            },
        }
    }
}

fn invalid(rest: &str) -> (r: String)
    ensures
        r@ == "Invalid data in materialized view: "@ + rest@,
{
    let mut m = "Invalid data in materialized view: ".to_owned();
    m.append(rest);
    m
}

/// Reads a stored row, with its values in the order of the columns. `rowid` is the key that the row
/// is stored under, where it is stored in a table.
pub fn read_view_entry(record: &Vec<Value>, rowid: Option<i64>, order_by: &MatviewOrderBy) -> (r:
    Result<(HashableRow, isize), LimboError>)
    requires
        stored_weight(data(record@)) matches Some(w) ==> w <= isize::MAX,
        forall|k: int|
            0 <= k < order_by.columns@.len() ==> (#[trigger] order_by.columns@[k]).column
                + record@.len() < usize::MAX,
    ensures
        match entry_error(data(record@), rowid, order_by.columns@.len()) {
            Some(m) => r matches Err(e) && e@ == ErrorView::InternalError(m),
            None => {
                &&& r matches Ok(entry)
                &&& Some(entry.1 as int) == stored_weight(data(record@))
                &&& if order_by.columns@.len() == 0 {
                    Some(entry.0@.rowid) == rowid && entry.0@.values == data(record@).drop_last()
                } else {
                    &&& Some(entry.0@.rowid as int) == rowid_of(
                        data(record@)[order_by.columns@.len() as int],
                    )
                    &&& is_logical(
                        stored_values(data(record@), order_by.columns@.len() as int),
                        sort_positions(order_by.columns@),
                        entry.0@.values,
                    )
                }
            },
        },
{
    let sorts: usize = order_by.columns.len();
    if record.len() == 0 {
        return Err(LimboError::InternalError(invalid("no weight column found")));
    }
    let last: usize = record.len() - 1;
    assert(data(record@).last() == record@[last as int]@);
    let w: i64 = match &record[last] {
        Value::Numeric(Numeric::Integer(w)) => *w,
        other => {
            let mut m = invalid("expected integer weight, found ");
            m.append(write_value(other).as_str());
            return Err(LimboError::InternalError(m));
        },
    };
    if w <= 0 {
        let mut m = invalid("expected a positive weight, found ");
        m.append(decimal_i64(w).as_str());
        return Err(LimboError::InternalError(m));
    }
    if sorts == 0 {
        let id: i64 = match rowid {
            Some(id) => id,
            None => return Err(
                LimboError::InternalError(invalid("found a record, but no rowid!")),
            ),
        };
        let mut values: Vec<Value> = Vec::new();
        let mut i: usize = 0;
        while i < last
            invariant
                last == record@.len() - 1,
                i <= last,
                data(values@) == data(record@).take(i as int),
            decreases last - i,
        {
            let ghost before = values@;
            values.push(record[i].clone());
            assert(data(values@) =~= data(before).push(data(record@)[i as int]));
            assert(data(values@) =~= data(record@).take(i + 1));
            i += 1;
        }
        assert(data(record@).take(last as int) =~= data(record@).drop_last());
        return Ok((HashableRow::new(id, values), w as isize));
    }
    if last <= sorts {
        let mut m = invalid("expected at least ");
        m.append(decimal_usize(sorts).as_str());
        m.append(" columns + rowid, got ");
        m.append(decimal_usize(last).as_str());
        return Err(LimboError::InternalError(m));
    }
    let id: i64 = match &record[sorts] {
        Value::Numeric(Numeric::Integer(id)) => *id,
        other => {
            let mut m = invalid("expected integer rowid in index record at position ");
            m.append(decimal_usize(sorts).as_str());
            m.append(", found ");
            m.append(write_value(other).as_str());
            return Err(LimboError::InternalError(m));
        },
    };
    let mut stored: Vec<Value> = Vec::new();
    let mut i: usize = 0;
    while i < last
        invariant
            last == record@.len() - 1,
            i <= last,
            0 < sorts < last,
            data(stored@) == (if i <= sorts {
                data(record@).take(i as int)
            } else {
                data(record@).take(i as int).remove(sorts as int)
            }),
        decreases last - i,
    {
        let ghost before = stored@;
        if i != sorts {
            stored.push(record[i].clone());
            assert(data(stored@) =~= data(before).push(data(record@)[i as int]));
        }
        i += 1;
        proof {
            if i <= sorts {
                assert(data(stored@) =~= data(record@).take(i as int));
            } else {
                assert(data(stored@) =~= data(record@).take(i as int).remove(sorts as int));
            }
        }
    }
    assert(data(record@).take(last as int) =~= data(record@).drop_last());
    Ok((HashableRow::new(id, order_by.permute_storage_to_logical(&stored)), w as isize))
}

// All rows, in their order.

/// How the columns of the index of a view are compared: the sort columns, then the row id.
pub open spec fn index_info(columns: Seq<SortColumn>) -> Seq<KeyInfo> {
    columns.map_values(
        |c: SortColumn| KeyInfo { sort_order: c.order, collation: Collation::Binary },
    ).push(KeyInfo { sort_order: SortOrder::Asc, collation: Collation::Binary })
}

impl MatviewOrderBy {
    /// How the columns of the index of the view are compared.
    pub fn to_index_info(&self) -> (r: Vec<KeyInfo>)
        ensures
            r@ == index_info(self.columns@),
            r@.len() == self.columns@.len() + 1,
            forall|i: int|
                0 <= i < self.columns@.len() ==> (#[trigger] r@[i]).sort_order
                    == self.columns@[i].order && r@[i].collation == Collation::Binary,
            r@.last().sort_order == SortOrder::Asc,
    {
        let mut out: Vec<KeyInfo> = Vec::new();
        let mut i: usize = 0;
        while i < self.columns.len()
            invariant
                i <= self.columns.len(),
                out@.len() == i,
                forall|j: int| 0 <= j < i ==> #[trigger] out@[j] == index_info(self.columns@)[j],
            decreases self.columns.len() - i,
        {
            out.push(
                KeyInfo { sort_order: self.columns[i].order, collation: Collation::Binary },
            );
            i += 1;
        }
        out.push(KeyInfo { sort_order: SortOrder::Asc, collation: Collation::Binary });
        assert(out@ =~= index_info(self.columns@));
        out
    }
}

/// How two rows of a view stand to each other.
pub open spec fn row_relation(columns: Seq<SortColumn>, a: RowView, b: RowView) -> Relation {
    entry_relation(
        index_info(columns),
        seek_key(a.values, a.rowid, sort_positions(columns)),
        seek_key(b.values, b.rowid, sort_positions(columns)),
        columns.len() as int + 1,
    )
}

/// Whether rows stand in the order of a view.
pub open spec fn rows_in_order(columns: Seq<SortColumn>, rows: Seq<RowView>) -> bool {
    forall|i: int, j: int|
        0 <= i < j < rows.len() ==> row_relation(columns, #[trigger] rows[i], #[trigger] rows[j])
            != Relation::Greater
}

proof fn lemma_rows_chain(columns: Seq<SortColumn>, a: RowView, b: RowView, c: RowView)
    ensures
        row_relation(columns, a, a) == Relation::Equal,
        row_relation(columns, b, a) == row_relation(columns, a, b).flipped(),
        chained(
            row_relation(columns, a, b),
            row_relation(columns, b, c),
            row_relation(columns, a, c),
        ),
{
    let order = sort_positions(columns);
    law_entries_are_totally_ordered(
        index_info(columns),
        seek_key(a.values, a.rowid, order),
        seek_key(b.values, b.rowid, order),
        seek_key(c.values, c.rowid, order),
        columns.len() as int + 1,
    );
}

/// What a row is sorted by.
fn composite_key(row: &HashableRow, columns: &Vec<SortColumn>) -> (r: Vec<Value>)
    ensures
        data(r@) == seek_key(row@.values, row@.rowid, sort_positions(columns@)),
{
    let ghost order = sort_positions(columns@);
    let mut key: Vec<Value> = Vec::new();
    let mut i: usize = 0;
    while i < columns.len()
        invariant
            i <= columns.len(),
            order == sort_positions(columns@),
            key@.len() == i,
            forall|j: int|
                0 <= j < i ==> (#[trigger] key@[j])@ == sort_values(row@.values, order)[j],
        decreases columns.len() - i,
    {
        let c: usize = columns[i].column;
        assert(order[i as int] == c);
        let v = if c < row.values.len() {
            row.values[c].clone()
        } else {
            Value::Null
        };
        key.push(v);
        i += 1;
    }
    key.push(Value::from_i64(row.rowid));
    assert(data(key@) =~= seek_key(row@.values, row@.rowid, order));
    key
}

/// The rows of some changes.
pub open spec fn rows_of(changes: Seq<Change>) -> Seq<RowView> {
    changes.map_values(|c: Change| c.0)
}

/// Sorts changes by the order of a view.
fn sort_rows(changes: &Delta, columns: &Vec<SortColumn>, info: &Vec<KeyInfo>) -> (r: Delta)
    requires
        info@ == index_info(columns@),
        columns@.len() < usize::MAX,
        distinct(changes@),
        forall|i: int| 0 <= i < changes@.len() ==> (#[trigger] changes@[i]).1 > 0,
    ensures
        rows_in_order(columns@, rows_of(r@)),
        equivalent(r@, changes@),
        forall|i: int| 0 <= i < r@.len() ==> (#[trigger] r@[i]).1 > 0,
{
    let ghost all = changes@;
    let n: usize = columns.len() + 1;
    let mut sorted = Delta::new();
    let mut keys: Vec<Vec<Value>> = Vec::new();
    let mut i: usize = 0;
    assert(all.take(0) =~= Seq::<Change>::empty());
    while i < changes.changes.len()
        invariant
            i <= changes.changes.len(),
            all == changes@,
            n == columns@.len() + 1,
            info@ == index_info(columns@),
            forall|k: int| 0 <= k < all.len() ==> (#[trigger] all[k]).1 > 0,
            rows_in_order(columns@, rows_of(sorted@)),
            equivalent(sorted@, all.take(i as int)),
            forall|k: int| 0 <= k < sorted@.len() ==> (#[trigger] sorted@[k]).1 > 0,
            keys@.len() == sorted@.len(),
            forall|k: int|
                0 <= k < keys@.len() ==> data((#[trigger] keys@[k])@) == seek_key(
                    sorted@[k].0.values,
                    sorted@[k].0.rowid,
                    sort_positions(columns@),
                ),
        decreases changes.changes.len() - i,
    {
        let ghost before = sorted@;
        let ghost rows = rows_of(before);
        let row = changes.changes[i].0.clone();
        let w: isize = changes.changes[i].1;
        let ghost x = all[i as int];
        assert(x == (row@, w as int));
        let key = composite_key(&row, columns);
        let mut p: usize = keys.len();
        while p > 0 && compare_entries(info, &keys[p - 1], &key, n) == Relation::Greater
            invariant
                p <= keys@.len(),
                keys@.len() == before.len(),
                n == columns@.len() + 1,
                info@ == index_info(columns@),
                rows == rows_of(before),
                data(key@) == seek_key(x.0.values, x.0.rowid, sort_positions(columns@)),
                forall|k: int|
                    0 <= k < keys@.len() ==> data((#[trigger] keys@[k])@) == seek_key(
                        before[k].0.values,
                        before[k].0.rowid,
                        sort_positions(columns@),
                    ),
                forall|k: int|
                    p <= k < before.len() ==> row_relation(columns@, #[trigger] rows[k], x.0)
                        == Relation::Greater,
            decreases p,
        {
            assert(data(keys@[p - 1]@) == seek_key(
                before[p - 1].0.values,
                before[p - 1].0.rowid,
                sort_positions(columns@),
            ));
            assert(rows[p - 1] == before[p - 1].0);
            p -= 1;
        }
        proof {
            if p > 0 {
                assert(data(keys@[p - 1]@) == seek_key(
                    before[p - 1].0.values,
                    before[p - 1].0.rowid,
                    sort_positions(columns@),
                ));
                assert(rows[p - 1] == before[p - 1].0);
                assert(row_relation(columns@, rows[p - 1], x.0) != Relation::Greater);
            }
        }
        let ghost old_keys = keys@;
        sorted.changes.insert(p, (row, w));
        keys.insert(p, key);
        proof {
            let after = sorted@;
            assert(after =~= before.insert(p as int, x));
            lemma_insert_row(columns@, before, p as int, x);
            assert(all.take(i + 1) =~= all.take(i as int).push(x));
            assert forall|r: RowView| #[trigger]
                weight(sorted@, r) == weight(all.take(i + 1), r) by {
                assert(weight(before, r) == weight(all.take(i as int), r));
                lemma_weight_push(all.take(i as int), x, r);
                assert(weight(before.insert(p as int, x), r) == weight(before, r) + (if x.0 == r {
                    x.1
                } else {
                    0
                }));
            }
            assert forall|k: int| 0 <= k < sorted@.len() implies (#[trigger] sorted@[k]).1 > 0 by {
                if k < p {
                    assert(sorted@[k] == before[k]);
                } else if k > p {
                    assert(sorted@[k] == before[k - 1]);
                }
            }
            assert forall|k: int| 0 <= k < keys@.len() implies data((#[trigger] keys@[k])@)
                == seek_key(
                sorted@[k].0.values,
                sorted@[k].0.rowid,
                sort_positions(columns@),
            ) by {
                if k < p {
                    assert(keys@[k] == old_keys[k]);
                } else if k > p {
                    assert(keys@[k] == old_keys[k - 1]);
                }
            }
        }
        i += 1;
    }
    assert(all.take(i as int) =~= all);
    sorted
}

proof fn lemma_insert_row(columns: Seq<SortColumn>, s: Seq<Change>, p: int, x: Change)
    requires
        0 <= p <= s.len(),
        rows_in_order(columns, rows_of(s)),
        p > 0 ==> row_relation(columns, rows_of(s)[p - 1], x.0) != Relation::Greater,
        forall|k: int|
            p <= k < s.len() ==> row_relation(columns, #[trigger] rows_of(s)[k], x.0)
                == Relation::Greater,
    ensures
        rows_in_order(columns, rows_of(s.insert(p, x))),
        forall|r: RowView| #[trigger]
            weight(s.insert(p, x), r) == weight(s, r) + (if x.0 == r {
                x.1
            } else {
                0
            }),
{
    let t = s.insert(p, x);
    let old_rows = rows_of(s);
    let rows = rows_of(t);
    assert forall|i: int, j: int| 0 <= i < j < rows.len() implies row_relation(
        columns,
        #[trigger] rows[i],
        #[trigger] rows[j],
    ) != Relation::Greater by {
        let oi = if i < p {
            i
        } else {
            i - 1
        };
        let oj = if j < p {
            j
        } else {
            j - 1
        };
        if i != p && j != p {
            assert(rows[i] == old_rows[oi] && rows[j] == old_rows[oj]);
        } else if i == p {
            assert(rows[j] == old_rows[oj]);
            assert(row_relation(columns, old_rows[oj], x.0) == Relation::Greater);
            lemma_rows_chain(columns, old_rows[oj], x.0, x.0);
        } else {
            assert(rows[i] == old_rows[i]);
            if i < p - 1 {
                assert(row_relation(columns, old_rows[i], old_rows[p - 1]) != Relation::Greater);
                lemma_rows_chain(columns, old_rows[i], old_rows[p - 1], x.0);
            }
        }
    }
    assert forall|r: RowView| #[trigger] weight(t, r) == weight(s, r) + (if x.0 == r {
        x.1
    } else {
        0
    }) by {
        let a = s.take(p);
        let b = s.skip(p);
        let one = seq![x];
        assert(t =~= a + one + b);
        assert(s =~= a + b);
        lemma_weight_concat(a + one, b, r);
        lemma_weight_concat(a, one, r);
        lemma_weight_concat(a, b, r);
        assert(one.drop_last() =~= Seq::<Change>::empty());
        reveal_with_fuel(weight, 2);
    }
}

/// The changes with positive weights.
fn positive_changes(delta: &Delta) -> (r: Delta)
    requires
        normal(delta@),
    ensures
        distinct(r@),
        forall|i: int| 0 <= i < r@.len() ==> (#[trigger] r@[i]).1 > 0,
        forall|row: RowView| #[trigger]
            weight(r@, row) == (if weight(delta@, row) > 0 {
                weight(delta@, row)
            } else {
                0
            }),
{
    let ghost all = delta@;
    let mut out = Delta::new();
    let mut i: usize = 0;
    while i < delta.changes.len()
        invariant
            i <= delta.changes.len(),
            all == delta@,
            normal(all),
            distinct(out@),
            forall|k: int| 0 <= k < out@.len() ==> (#[trigger] out@[k]).1 > 0,
            forall|k: int|
                0 <= k < out@.len() ==> exists|j: int| 0 <= j < i && all[j] == #[trigger] out@[k],
            forall|j: int|
                0 <= j < i && (#[trigger] all[j]).1 > 0 ==> exists|k: int|
                    0 <= k < out@.len() && #[trigger] out@[k] == all[j],
        decreases delta.changes.len() - i,
    {
        let ghost before = out@;
        let w: isize = delta.changes[i].1;
        assert(all[i as int] == (delta.changes@[i as int].0@, w as int));
        if w > 0 {
            out.push(delta.changes[i].0.clone(), w);
            proof {
                let x = all[i as int];
                assert(out@ == before.push(x));
                assert forall|a: int, b: int|
                    0 <= a < out@.len() && 0 <= b < out@.len() && a != b implies (
                #[trigger] out@[a]).0 != (#[trigger] out@[b]).0 by {
                    if a < before.len() && b < before.len() {
                        assert(out@[a] == before[a] && out@[b] == before[b]);
                    } else {
                        let c = if a < before.len() {
                            a
                        } else {
                            b
                        };
                        assert(out@[c] == before[c]);
                        let j = choose|j: int| 0 <= j < i && all[j] == before[c];
                        assert(all[j].0 != all[i as int].0);
                    }
                }
                assert forall|k: int| 0 <= k < out@.len() implies exists|j: int|
                    0 <= j < i + 1 && all[j] == #[trigger] out@[k] by {
                    if k < before.len() {
                        assert(out@[k] == before[k]);
                        let j = choose|j: int| 0 <= j < i && all[j] == before[k];
                        assert(0 <= j < i + 1 && all[j] == out@[k]);
                    } else {
                        assert(all[i as int] == out@[k]);
                    }
                }
                assert forall|j: int| 0 <= j < i + 1 && (#[trigger] all[j]).1 > 0 implies exists|
                    k: int,
                |
                    0 <= k < out@.len() && #[trigger] out@[k] == all[j] by {
                    if j < i {
                        let k = choose|k: int| 0 <= k < before.len() && #[trigger] before[k] == all[j];
                        assert(out@[k] == all[j]);
                    } else {
                        assert(out@[before.len() as int] == all[j]);
                    }
                }
            }
        }
        i += 1;
    }
    proof {
        assert forall|row: RowView| #[trigger] weight(out@, row) == (if weight(all, row) > 0 {
            weight(all, row)
        } else {
            0
        }) by {
            if exists|j: int| 0 <= j < all.len() && (#[trigger] all[j]).0 == row && all[j].1 > 0 {
                let j = choose|j: int|
                    0 <= j < all.len() && (#[trigger] all[j]).0 == row && all[j].1 > 0;
                let k = choose|k: int| 0 <= k < out@.len() && #[trigger] out@[k] == all[j];
                lemma_weight_distinct(all, j);
                lemma_weight_distinct(out@, k);
            } else {
                assert forall|k: int| 0 <= k < out@.len() implies (#[trigger] out@[k]).0 != row by {
                    let j = choose|j: int| 0 <= j < all.len() && all[j] == out@[k];
                    assert(all[j].1 > 0);
                }
                lemma_weight_absent(out@, row);
                if exists|j: int| 0 <= j < all.len() && (#[trigger] all[j]).0 == row {
                    let j = choose|j: int| 0 <= j < all.len() && (#[trigger] all[j]).0 == row;
                    lemma_weight_distinct(all, j);
                } else {
                    lemma_weight_absent(all, row);
                }
            }
        }
    }
    out
}

/// What some rows are.
pub open spec fn row_list(rows: Seq<(i64, Vec<Value>)>) -> Seq<RowView> {
    rows.map_values(|r: (i64, Vec<Value>)| RowView { rowid: r.0, values: data(r.1@) })
}

/// Repeats every row as often as its weight says.
fn expand(changes: &Delta, Ghost(columns): Ghost<Seq<SortColumn>>) -> (r: Vec<(i64, Vec<Value>)>)
    requires
        rows_in_order(columns, rows_of(changes@)),
        forall|i: int| 0 <= i < changes@.len() ==> (#[trigger] changes@[i]).1 > 0,
    ensures
        rows_in_order(columns, row_list(r@)),
        forall|row: RowView| #[trigger] occurrences(row_list(r@), row) == weight(changes@, row),
{
    let ghost all = changes@;
    let mut out: Vec<(i64, Vec<Value>)> = Vec::new();
    // Where each row of `out` comes from.
    let ghost mut origin: Seq<int> = Seq::empty();
    let mut i: usize = 0;
    proof {
        assert(all.take(0) =~= Seq::<Change>::empty());
        assert(row_list(out@) =~= Seq::<RowView>::empty());
    }
    while i < changes.changes.len()
        invariant
            i <= changes.changes.len(),
            all == changes@,
            forall|k: int| 0 <= k < all.len() ==> (#[trigger] all[k]).1 > 0,
            origin.len() == out@.len(),
            forall|k: int|
                0 <= k < origin.len() ==> 0 <= #[trigger] origin[k] < i && row_list(out@)[k]
                    == all[origin[k]].0,
            forall|k: int, l: int|
                0 <= k < l < origin.len() ==> #[trigger] origin[k] <= #[trigger] origin[l],
            forall|row: RowView| #[trigger]
                occurrences(row_list(out@), row) == weight(all.take(i as int), row),
        decreases changes.changes.len() - i,
    {
        let w: isize = changes.changes[i].1;
        let ghost x = all[i as int];
        assert(x == (changes.changes@[i as int].0@, w as int));
        let mut n: isize = 0;
        while n < w
            invariant
                i < changes.changes.len(),
                all == changes@,
                x == all[i as int],
                x == (changes.changes@[i as int].0@, w as int),
                0 <= n <= w,
                origin.len() == out@.len(),
                forall|k: int|
                    0 <= k < origin.len() ==> 0 <= #[trigger] origin[k] <= i && row_list(out@)[k]
                        == all[origin[k]].0,
                forall|k: int, l: int|
                    0 <= k < l < origin.len() ==> #[trigger] origin[k] <= #[trigger] origin[l],
                forall|row: RowView| #[trigger]
                    occurrences(row_list(out@), row) == weight(all.take(i as int), row) + (if row
                        == x.0 {
                        n as int
                    } else {
                        0
                    }),
            decreases w - n,
        {
            let ghost before = row_list(out@);
            let ghost old_origin = origin;
            out.push((changes.changes[i].0.rowid, copy_values(&changes.changes[i].0.values)));
            proof {
                origin = origin.push(i as int);
                let now = row_list(out@);
                assert(now.last() =~= x.0);
                assert(now =~= before.push(x.0));
                assert(now.drop_last() =~= before);
                assert forall|k: int| 0 <= k < origin.len() implies 0 <= #[trigger] origin[k] <= i
                    && now[k] == all[origin[k]].0 by {
                    if k < old_origin.len() {
                        assert(origin[k] == old_origin[k]);
                        assert(now[k] == before[k]);
                    }
                }
                assert forall|k: int, l: int| 0 <= k < l < origin.len() implies #[trigger] origin[k]
                    <= #[trigger] origin[l] by {
                    assert(origin[k] == old_origin[k]);
                    if l < old_origin.len() {
                        assert(origin[l] == old_origin[l]);
                    }
                }
                assert forall|row: RowView| #[trigger] occurrences(now, row) == weight(
                    all.take(i as int),
                    row,
                ) + (if row == x.0 {
                    n + 1
                } else {
                    0
                }) by {
                    assert(occurrences(before, row) == weight(all.take(i as int), row) + (if row
                        == x.0 {
                        n as int
                    } else {
                        0
                    }));
                }
            }
            n += 1;
        }
        proof {
            assert(all.take(i + 1) =~= all.take(i as int).push(x));
            assert forall|row: RowView| #[trigger] occurrences(row_list(out@), row) == weight(
                all.take(i + 1),
                row,
            ) by {
                lemma_weight_push(all.take(i as int), x, row);
            }
        }
        i += 1;
    }
    proof {
        assert(all.take(i as int) =~= all);
        let rows = row_list(out@);
        let sources = rows_of(all);
        assert forall|k: int, l: int| 0 <= k < l < rows.len() implies row_relation(
            columns,
            #[trigger] rows[k],
            #[trigger] rows[l],
        ) != Relation::Greater by {
            assert(origin[k] <= origin[l]);
            assert(rows[k] == sources[origin[k]]);
            assert(rows[l] == sources[origin[l]]);
            lemma_rows_chain(columns, rows[k], rows[l], rows[l]);
        }
    }
    out
}

/// What a view holds with the changes of a transaction: those of storage and those on top of it,
/// or where these are the whole result, these alone.
pub open spec fn merged(stored: Seq<Change>, uncommitted: Seq<Change>, full_result: bool) -> Seq<
    Change,
> {
    if full_result {
        uncommitted
    } else {
        stored + uncommitted
    }
}

/// Lists the rows of a view with the changes of a transaction, in the order of the view, each as
/// often as it is there.
pub fn materialize_index_snapshot(
    stored: &Delta,
    uncommitted: &RowKeyZSet,
    full_result: bool,
    order_by: &MatviewOrderBy,
) -> (r: Vec<(i64, Vec<Value>)>)
    requires
        order_by.columns@.len() < usize::MAX,
        mass(merged(stored@, uncommitted@, full_result)) <= isize::MAX,
    ensures
        rows_in_order(order_by.columns@, row_list(r@)),
        forall|row: RowView| #[trigger]
            occurrences(row_list(r@), row) == (if weight(
                merged(stored@, uncommitted@, full_result),
                row,
            ) > 0 {
                weight(merged(stored@, uncommitted@, full_result), row)
            } else {
                0
            }),
{
    let ghost total = merged(stored@, uncommitted@, full_result);
    let mut sum = if full_result {
        Delta::new()
    } else {
        stored.clone()
    };
    sum.merge(&uncommitted.delta);
    assert(sum@ =~= total);
    sum.consolidate();
    let ghost added = sum@;
    let kept = positive_changes(&sum);
    let info = order_by.to_index_info();
    let sorted = sort_rows(&kept, &order_by.columns, &info);
    let out = expand(&sorted, Ghost(order_by.columns@));
    proof {
        assert forall|row: RowView| #[trigger] occurrences(row_list(out@), row) == (if weight(
            total,
            row,
        ) > 0 {
            weight(total, row)
        } else {
            0
        }) by {
            assert(weight(sorted@, row) == weight(kept@, row));
            assert(weight(added, row) == weight(total, row));
        }
    }
    out
}

/// Rows of a listing stand by the first sort column in which they differ, in the direction that this
/// very column is declared with: of two rows the earlier has the lesser value where the column is
/// declared ascending, and the greater one where it is declared descending. Rows that agree in every
/// sort column stand by their row ids. A column that a row does not have is NULL.
pub proof fn law_listed_rows_follow_the_declared_directions(
    columns: Seq<SortColumn>,
    rows: Seq<RowView>,
    x: int,
    y: int,
    i: int,
)
    requires
        rows_in_order(columns, rows),
        0 <= x < y < rows.len(),
        0 <= i <= columns.len(),
        forall|j: int|
            0 <= j < i ==> value_relation(
                (if (#[trigger] columns[j]).column < rows[x].values.len() {
                    rows[x].values[columns[j].column as int]
                } else {
                    Datum::Null
                }),
                (if columns[j].column < rows[y].values.len() {
                    rows[y].values[columns[j].column as int]
                } else {
                    Datum::Null
                }),
                Collation::Binary,
            ) == Relation::Equal,
    ensures
        i < columns.len() ==> {
            let first = if columns[i].column < rows[x].values.len() {
                rows[x].values[columns[i].column as int]
            } else {
                Datum::Null
            };
            let second = if columns[i].column < rows[y].values.len() {
                rows[y].values[columns[i].column as int]
            } else {
                Datum::Null
            };
            let r = value_relation(first, second, Collation::Binary);
            r != Relation::Equal ==> match columns[i].order {
                SortOrder::Asc => r == Relation::Less,
                SortOrder::Desc => r == Relation::Greater,
            }
        },
        i == columns.len() ==> rows[x].rowid <= rows[y].rowid,
{
    let order = sort_positions(columns);
    let info = index_info(columns);
    let a = seek_key(rows[x].values, rows[x].rowid, order);
    let b = seek_key(rows[y].values, rows[y].rowid, order);
    assert(row_relation(columns, rows[x], rows[y]) != Relation::Greater);
    assert forall|j: int| 0 <= j < i implies value_relation(
        #[trigger] a[j],
        b[j],
        info[j].collation,
    ) == Relation::Equal by {
        assert(columns[j].column == order[j]);
    }
    law_entries_stand_by_their_first_difference(info, a, b, columns.len() as int + 1, i);
    law_values_stand_by_their_kinds(a[i], b[i], Collation::Binary);
    if i < columns.len() {
        assert(order[i] == columns[i].column);
    }
}

/// What a view holds with the changes of a transaction is, row for row, what is stored and what was
/// changed, or what was changed alone where that is the whole result.
pub proof fn law_a_listing_adds_the_changes_to_what_is_stored(
    stored: Seq<Change>,
    uncommitted: Seq<Change>,
    full_result: bool,
    row: RowView,
)
    ensures
        weight(merged(stored, uncommitted, full_result), row) == weight(uncommitted, row) + (
        if full_result {
            0
        } else {
            weight(stored, row)
        }),
{
    lemma_weight_concat(stored, uncommitted, row);
}

} // verus!
