//! How the rows of a view are laid out in storage.
//!
//! A view without ORDER BY stores its rows under their row ids, each as its values followed by its
//! weight. A view with ORDER BY stores them in an index: the values of the sort columns, the row
//! id, the values of the other columns, and the weight.

use vstd::prelude::*;

use crate::display::{value_text, write_value};
use crate::error::{ErrorView, LimboError};
use crate::order::{MatviewOrderBy, SortColumn};
use crate::text::{decimal, decimal_usize};
use crate::value::{copy_values, data, int_datum, Datum, Numeric, NumericView, Value};

verus! {

/// The columns that a view is sorted by.
pub open spec fn sort_positions(columns: Seq<SortColumn>) -> Seq<int> {
    columns.map_values(|c: SortColumn| c.column as int)
}

/// The values of the sort columns of a row. A column that the row does not have is NULL.
pub open spec fn sort_values(row: Seq<Datum>, order: Seq<int>) -> Seq<Datum> {
    order.map_values(
        |i: int|
            if 0 <= i < row.len() {
                row[i]
            } else {
                Datum::Null
            },
    )
}

/// The values of the first `n` columns of a row without those of the sort columns.
pub open spec fn rest_values(row: Seq<Datum>, order: Seq<int>, n: int) -> Seq<Datum>
    decreases n,
{
    if n <= 0 {
        Seq::empty()
    } else if order.contains(n - 1) {
        rest_values(row, order, n - 1)
    } else {
        rest_values(row, order, n - 1).push(row[n - 1])
    }
}

/// The lesser of two numbers.
pub open spec fn lesser(a: int, b: int) -> int {
    if a < b {
        a
    } else {
        b
    }
}

/// What a row is found by in an index.
pub open spec fn seek_key(row: Seq<Datum>, rowid: i64, order: Seq<int>) -> Seq<Datum> {
    sort_values(row, order).push(int_datum(rowid as int))
}

/// A row of `width` columns as it is stored in an index.
pub open spec fn index_record(
    row: Seq<Datum>,
    rowid: i64,
    order: Seq<int>,
    width: int,
    weight: int,
) -> Seq<Datum> {
    (seek_key(row, rowid, order) + rest_values(row, order, lesser(row.len() as int, width))).push(
        int_datum(weight),
    )
}

/// A row as it is stored in a table.
pub open spec fn table_record(row: Seq<Datum>, weight: int) -> Seq<Datum> {
    row.push(int_datum(weight))
}

fn is_sort_column(columns: &Vec<SortColumn>, i: usize) -> (r: bool)
    ensures
        r == sort_positions(columns@).contains(i as int),
{
    let mut k: usize = 0;
    while k < columns.len()
        invariant
            k <= columns.len(),
            forall|j: int| 0 <= j < k ==> (#[trigger] columns@[j]).column != i,
        decreases columns.len() - k,
    {
        if columns[k].column == i {
            assert(sort_positions(columns@)[k as int] == i);
            return true;
        }
        k += 1;
    }
    proof {
        assert forall|j: int| 0 <= j < columns@.len() implies sort_positions(columns@)[j] != i by {
            assert(columns@[j].column != i);
        }
    }
    false
}

/// Builds what a row is found by in an index, and the row as it is stored there. The output has
/// `num_output_columns` columns, of which the last is the weight.
pub fn build_composite_keys(
    row_values: &Vec<Value>,
    rowid: i64,
    num_output_columns: usize,
    order_by_columns: &Vec<SortColumn>,
    weight: isize,
) -> (r: (Vec<Value>, Vec<Value>))
    requires
        num_output_columns > 0,
    ensures
        data(r.0@) == seek_key(data(row_values@), rowid, sort_positions(order_by_columns@)),
        data(r.1@) == index_record(
            data(row_values@),
            rowid,
            sort_positions(order_by_columns@),
            num_output_columns - 1,
            weight as int,
        ),
{
    let ghost row = data(row_values@);
    let ghost order = sort_positions(order_by_columns@);
    let mut seek: Vec<Value> = Vec::new();
    let mut i: usize = 0;
    while i < order_by_columns.len()
        invariant
            i <= order_by_columns.len(),
            row == data(row_values@),
            order == sort_positions(order_by_columns@),
            seek@.len() == i,
            forall|j: int| 0 <= j < i ==> (#[trigger] seek@[j])@ == sort_values(row, order)[j],
        decreases order_by_columns.len() - i,
    {
        let column: usize = order_by_columns[i].column;
        let v = if column < row_values.len() {
            row_values[column].clone()
        } else {
            Value::Null
        };
        assert(order[i as int] == column);
        seek.push(v);
        i += 1;
    }
    seek.push(Value::from_i64(rowid));
    assert(data(seek@) =~= seek_key(row, rowid, order));
    let mut full = copy_values(&seek);
    let ghost start = data(full@);
    let num_data: usize = num_output_columns - 1;
    let mut k: usize = 0;
    assert(rest_values(row, order, 0) =~= Seq::<Datum>::empty());
    assert(data(full@) =~= start + rest_values(row, order, 0));
    while k < row_values.len()
        invariant
            k <= row_values.len(),
            row == data(row_values@),
            order == sort_positions(order_by_columns@),
            data(full@) == start + rest_values(row, order, lesser(k as int, num_data as int)),
        decreases row_values.len() - k,
    {
        let ghost before = full@;
        if k < num_data && !is_sort_column(order_by_columns, k) {
            full.push(row_values[k].clone());
            proof {
                assert(data(full@) =~= data(before).push(row[k as int]));
                assert(data(full@) =~= start + rest_values(row, order, k + 1));
            }
        }
        k += 1;
    }
    let ghost before = full@;
    full.push(Value::from_i64(weight as i64));
    assert(data(full@) =~= data(before).push(int_datum(weight as int)));
    (seek, full)
}

// Reading rows back.

/// How many of the first `n` columns are no sort columns.
pub open spec fn rank(order: Seq<int>, n: int) -> int
    decreases n,
{
    if n <= 0 {
        0
    } else {
        rank(order, n - 1) + (if order.contains(n - 1) {
            0int
        } else {
            1
        })
    }
}

/// A column of a row, where `stored` holds the values of the sort columns and then the others.
pub open spec fn logical_at(stored: Seq<Datum>, order: Seq<int>, i: int) -> Datum {
    if order.contains(i) {
        stored[order.index_of_first(i)->Some_0]
    } else if order.len() + rank(order, i) < stored.len() {
        stored[order.len() + rank(order, i)]
    } else {
        Datum::Null
    }
}

/// Whether the first `n` columns of a row take in all sort columns and `rest` others.
pub open spec fn covers(order: Seq<int>, rest: int, n: int) -> bool {
    rank(order, n) >= rest && forall|k: int| 0 <= k < order.len() ==> #[trigger] order[k] < n
}

/// Whether a row has `n` columns, where all sort columns and `rest` others were stored of it.
pub open spec fn is_width(order: Seq<int>, rest: int, n: int) -> bool {
    &&& 0 <= n
    &&& covers(order, rest, n)
    &&& forall|m: int| 0 <= m < n ==> !#[trigger] covers(order, rest, m)
}

/// Whether a row is what its stored values stand for.
pub open spec fn is_logical(stored: Seq<Datum>, order: Seq<int>, row: Seq<Datum>) -> bool {
    &&& is_width(order, stored.len() - order.len(), row.len() as int)
    &&& forall|i: int| 0 <= i < row.len() ==> #[trigger] row[i] == logical_at(stored, order, i)
}

fn find_sort_column(columns: &Vec<SortColumn>, i: usize) -> (r: Option<usize>)
    ensures
        match r {
            Some(k) => {
                &&& k < columns@.len()
                &&& sort_positions(columns@).contains(i as int)
                &&& sort_positions(columns@).index_of_first(i as int) == Some(k as int)
            },
            None => !sort_positions(columns@).contains(i as int),
        },
{
    let ghost order = sort_positions(columns@);
    let mut k: usize = 0;
    while k < columns.len()
        invariant
            k <= columns.len(),
            order == sort_positions(columns@),
            forall|j: int| 0 <= j < k ==> #[trigger] order[j] != i,
        decreases columns.len() - k,
    {
        if columns[k].column == i {
            proof {
                assert(order[k as int] == i);
                assert(order.contains(i as int));
                order.index_of_first_ensures(i as int);
                let first = order.index_of_first(i as int)->Some_0;
                if first < k {
                    assert(order[first] != i);
                }
            }
            return Some(k);
        }
        assert(order[k as int] != i);
        k += 1;
    }
    None
}

impl MatviewOrderBy {
    /// Puts the stored values of a row back into the order of its columns.
    pub fn permute_storage_to_logical(&self, stored: &Vec<Value>) -> (r: Vec<Value>)
        requires
            self.columns@.len() <= stored@.len(),
            forall|k: int|
                0 <= k < self.columns@.len() ==> (#[trigger] self.columns@[k]).column
                    + stored@.len() < usize::MAX,
        ensures
            is_logical(data(stored@), sort_positions(self.columns@), data(r@)),
    {
        let ghost order = sort_positions(self.columns@);
        let ghost all = data(stored@);
        let sorts: usize = self.columns.len();
        let rest: usize = stored.len() - sorts;
        let mut bound: usize = 0;
        let mut k: usize = 0;
        while k < sorts
            invariant
                k <= sorts,
                sorts == self.columns@.len(),
                order == sort_positions(self.columns@),
                forall|j: int|
                    0 <= j < self.columns@.len() ==> (#[trigger] self.columns@[j]).column
                        + stored@.len() < usize::MAX,
                forall|j: int| 0 <= j < k ==> #[trigger] order[j] < bound,
                bound > 0 ==> exists|j: int| 0 <= j < k && #[trigger] order[j] == bound - 1,
                bound + stored@.len() <= usize::MAX,
            decreases sorts - k,
        {
            let c: usize = self.columns[k].column;
            assert(order[k as int] == c);
            if c >= bound {
                bound = c + 1;
            }
            k += 1;
        }
        let mut out: Vec<Value> = Vec::new();
        let mut i: usize = 0;
        let mut next: usize = 0;
        while next < rest || i < bound
            invariant
                sorts == self.columns@.len(),
                sorts <= stored@.len(),
                rest == stored@.len() - sorts,
                order == sort_positions(self.columns@),
                order.len() == sorts,
                all == data(stored@),
                forall|j: int| 0 <= j < order.len() ==> #[trigger] order[j] < bound,
                bound > 0 ==> exists|j: int| 0 <= j < order.len() && #[trigger] order[j] == bound
                    - 1,
                bound + stored@.len() <= usize::MAX,
                out@.len() == i,
                next <= rest,
                next <= rank(order, i as int),
                next < rest ==> next == rank(order, i as int),
                next == rest ==> rank(order, i as int) >= rest,
                i <= bound || i <= bound + next,
                forall|m: int| 0 <= m < i ==> !#[trigger] covers(order, rest as int, m),
                forall|m: int| 0 <= m < i ==> (#[trigger] out@[m])@ == logical_at(all, order, m),
            decreases (rest - next) + (if i < bound {
                bound - i
            } else {
                0
            }),
        {
            proof {
                if i < bound {
                    let j = choose|j: int|
                        0 <= j < order.len() && #[trigger] order[j] == bound - 1;
                    assert(order[j] >= i);
                }
                assert(!covers(order, rest as int, i as int));
            }
            match find_sort_column(&self.columns, i) {
                Some(at) => {
                    proof {
                        let j = choose|j: int| 0 <= j < order.len() && order[j] == i;
                        assert(order[j] < bound);
                    }
                    out.push(stored[at].clone());
                },
                None => {
                    if next < rest {
                        out.push(stored[sorts + next].clone());
                        next += 1;
                    } else {
                        out.push(Value::Null);
                    }
                },
            }
            i += 1;
        }
        proof {
            assert(covers(order, rest as int, i as int));
            assert forall|m: int| 0 <= m < data(out@).len() implies #[trigger] data(out@)[m]
                == logical_at(all, order, m) by {
                assert(out@[m]@ == logical_at(all, order, m));
            }
        }
        out
    }
}

/// A value as the row id that it should be.
pub open spec fn rowid_of(d: Datum) -> Option<int> {
    match d {
        Datum::Numeric(NumericView::Integer(i)) => Some(i as int),
        _ => None,
    }
}

pub open spec fn rowid_message(position: nat, found: Datum) -> Seq<char> {
    "expected integer rowid in matview index record at position "@ + decimal(position)
        + ", found "@ + value_text(found)
}

/// The stored values of a row without its row id and its weight.
pub open spec fn stored_values(record: Seq<Datum>, sorts: int) -> Seq<Datum> {
    record.drop_last().remove(sorts)
}

/// Whether the row id of a stored row can be read.
pub open spec fn readable(record: Seq<Datum>, columns: Seq<SortColumn>) -> bool {
    columns.len() > 0 ==> rowid_of(record[columns.len() as int]) is Some
}

/// Whether `rowid` and `values` are a stored row read back.
pub open spec fn is_read_back(
    key: i64,
    record: Seq<Datum>,
    columns: Seq<SortColumn>,
    rowid: i64,
    values: Seq<Datum>,
) -> bool {
    if columns.len() == 0 {
        rowid == key && values == record.drop_last()
    } else {
        &&& rowid_of(record[columns.len() as int]) == Some(rowid as int)
        &&& is_logical(
            stored_values(record, columns.len() as int),
            sort_positions(columns),
            values,
        )
    }
}

/// Why a stored row cannot be read back.
pub open spec fn unreadable_error(record: Seq<Datum>, columns: Seq<SortColumn>) -> ErrorView {
    ErrorView::InternalError(rowid_message(columns.len(), record[columns.len() as int]))
}

/// Whether a stored row has the columns that the order of its view speaks of.
pub open spec fn fits_layout(record: Seq<Datum>, columns: Seq<SortColumn>) -> bool {
    &&& record.len() > 0
    &&& columns.len() > 0 ==> columns.len() + 2 <= record.len()
    &&& forall|k: int|
        0 <= k < columns.len() ==> (#[trigger] columns[k]).column + record.len() < usize::MAX
}

/// Reads a row of a view back: its row id and its values, in the order of the columns. Where the
/// view is stored as a table, `key` is the row id.
pub fn read_view_row(key: i64, record: &Vec<Value>, order_by: &MatviewOrderBy) -> (r: Result<
    (i64, Vec<Value>),
    LimboError,
>)
    requires
        fits_layout(data(record@), order_by.columns@),
    ensures
        if readable(data(record@), order_by.columns@) {
            r matches Ok(row) && is_read_back(
                key,
                data(record@),
                order_by.columns@,
                row.0,
                data(row.1@),
            )
        } else {
            r matches Err(e) && e@ == unreadable_error(data(record@), order_by.columns@)
        },
{
    let sorts: usize = order_by.columns.len();
    let mut values: Vec<Value> = Vec::new();
    let mut i: usize = 0;
    let n: usize = record.len() - 1;
    while i < n
        invariant
            n == record@.len() - 1,
            i <= n,
            sorts == order_by.columns@.len(),
            sorts > 0 ==> sorts + 2 <= record@.len(),
            data(values@) == (if sorts == 0 || i <= sorts {
                data(record@).take(i as int)
            } else {
                data(record@).take(i as int).remove(sorts as int)
            }),
        decreases n - i,
    {
        let ghost before = values@;
        if sorts == 0 || i != sorts {
            values.push(record[i].clone());
            assert(data(values@) =~= data(before).push(data(record@)[i as int]));
        }
        i += 1;
        proof {
            if sorts == 0 || i <= sorts {
                assert(data(values@) =~= data(record@).take(i as int));
            } else {
                assert(data(values@) =~= data(record@).take(i as int).remove(sorts as int));
            }
        }
    }
    assert(data(record@).take(n as int) =~= data(record@).drop_last());
    if sorts == 0 {
        return Ok((key, values));
    }
    let rowid: i64 = match &record[sorts] {
        Value::Numeric(Numeric::Integer(id)) => *id,
        other => {
            let mut m = "expected integer rowid in matview index record at position ".to_owned();
            m.append(decimal_usize(sorts).as_str());
            m.append(", found ");
            m.append(write_value(other).as_str());
            return Err(LimboError::InternalError(m));
        },
    };
    Ok((rowid, order_by.permute_storage_to_logical(&values)))
}

/// Whether a stored row is the first that cannot be read back.
pub open spec fn first_unreadable(
    stored: Seq<(i64, Vec<Value>)>,
    columns: Seq<SortColumn>,
    i: int,
) -> bool {
    &&& 0 <= i < stored.len()
    &&& !readable(data(stored[i].1@), columns)
    &&& forall|j: int| 0 <= j < i ==> readable(data((#[trigger] stored[j]).1@), columns)
}

/// Reads all rows of a view back from the records that are stored, each with its key.
pub fn read_btree_rows(stored: &Vec<(i64, Vec<Value>)>, order_by: &MatviewOrderBy) -> (r: Result<
    Vec<(i64, Vec<Value>)>,
    LimboError,
>)
    requires
        forall|i: int|
            0 <= i < stored@.len() ==> fits_layout(
                data((#[trigger] stored@[i]).1@),
                order_by.columns@,
            ),
    ensures
        match r {
            Ok(rows) => {
                &&& rows@.len() == stored@.len()
                &&& forall|i: int|
                    0 <= i < rows@.len() ==> is_read_back(
                        stored@[i].0,
                        data(stored@[i].1@),
                        order_by.columns@,
                        (#[trigger] rows@[i]).0,
                        data(rows@[i].1@),
                    )
            },
            Err(e) => exists|i: int| #[trigger]
                first_unreadable(stored@, order_by.columns@, i) && e@ == unreadable_error(
                    data(stored@[i].1@),
                    order_by.columns@,
                ),
        },
        r is Ok <==> forall|i: int|
            0 <= i < stored@.len() ==> readable(
                data((#[trigger] stored@[i]).1@),
                order_by.columns@,
            ),
{
    let mut rows: Vec<(i64, Vec<Value>)> = Vec::new();
    let mut i: usize = 0;
    while i < stored.len()
        invariant
            i <= stored.len(),
            rows@.len() == i,
            forall|j: int|
                0 <= j < stored@.len() ==> fits_layout(
                    data((#[trigger] stored@[j]).1@),
                    order_by.columns@,
                ),
            forall|j: int|
                0 <= j < i ==> readable(data((#[trigger] stored@[j]).1@), order_by.columns@),
            forall|j: int|
                0 <= j < i ==> is_read_back(
                    stored@[j].0,
                    data(stored@[j].1@),
                    order_by.columns@,
                    (#[trigger] rows@[j]).0,
                    data(rows@[j].1@),
                ),
        decreases stored.len() - i,
    {
        assert(fits_layout(data(stored@[i as int].1@), order_by.columns@));
        match read_view_row(stored[i].0, &stored[i].1, order_by) {
            Ok(row) => {
                rows.push(row);
            },
            Err(e) => {
                assert(first_unreadable(stored@, order_by.columns@, i as int));
                return Err(e);
            },
        }
        i += 1;
    }
    Ok(rows)
}

proof fn lemma_rest_len(row: Seq<Datum>, order: Seq<int>, n: int)
    requires
        0 <= n <= row.len(),
    ensures
        rest_values(row, order, n).len() == rank(order, n),
        0 <= rank(order, n),
    decreases n,
{
    if n > 0 {
        lemma_rest_len(row, order, n - 1);
    }
}

proof fn lemma_rest_at(row: Seq<Datum>, order: Seq<int>, n: int, i: int)
    requires
        0 <= i < n <= row.len(),
        !order.contains(i),
    ensures
        rank(order, i) < rank(order, n),
        rest_values(row, order, n)[rank(order, i)] == row[i],
    decreases n,
{
    lemma_rest_len(row, order, n - 1);
    lemma_rest_len(row, order, n);
    lemma_rest_len(row, order, i);
    if i < n - 1 {
        lemma_rest_at(row, order, n - 1, i);
    }
}

proof fn lemma_rank_grows(order: Seq<int>, m: int, n: int)
    requires
        0 <= m <= n,
        forall|k: int| 0 <= k < order.len() ==> #[trigger] order[k] < m,
    ensures
        rank(order, n) == rank(order, m) + (n - m),
    decreases n,
{
    if m < n {
        lemma_rank_grows(order, m, n - 1);
        if order.contains(n - 1) {
            let k = choose|k: int| 0 <= k < order.len() && order[k] == n - 1;
            assert(order[k] < m);
        }
    }
}

/// What is stored of a row in an index stands for that row: reading a stored row back gives its
/// row id and its values.
pub proof fn law_index_rows_read_back(
    row: Seq<Datum>,
    rowid: i64,
    order: Seq<int>,
    weight: int,
    read: Seq<Datum>,
)
    requires
        forall|k: int| 0 <= k < order.len() ==> 0 <= #[trigger] order[k] < row.len(),
        is_logical(
            stored_values(
                index_record(row, rowid, order, row.len() as int, weight),
                order.len() as int,
            ),
            order,
            read,
        ),
    ensures
        rowid_of(
            index_record(row, rowid, order, row.len() as int, weight)[order.len() as int],
        ) == Some(rowid as int),
        read == row,
{
    let n = row.len() as int;
    let record = index_record(row, rowid, order, n, weight);
    let sorts = order.len() as int;
    let stored = stored_values(record, sorts);
    let rest = rest_values(row, order, n);
    lemma_rest_len(row, order, n);
    assert(lesser(n, n) == n);
    assert(record.drop_last() =~= seek_key(row, rowid, order) + rest);
    assert(stored =~= sort_values(row, order) + rest);
    assert(record[sorts] == int_datum(rowid as int));
    // The width is right: fewer columns would not take in all that was stored.
    assert(covers(order, rest.len() as int, n));
    let m = read.len() as int;
    assert(stored.len() - order.len() == rest.len());
    if n < m {
        assert(!covers(order, rest.len() as int, n));
    } else if m < n {
        assert(covers(order, rest.len() as int, m));
        lemma_rank_grows(order, m, n);
    }
    assert forall|i: int| 0 <= i < n implies read[i] == row[i] by {
        assert(read[i] == logical_at(stored, order, i));
        if order.contains(i) {
            order.index_of_first_ensures(i);
            let k = order.index_of_first(i)->Some_0;
            assert(stored[k] == sort_values(row, order)[k]);
        } else {
            lemma_rest_at(row, order, n, i);
            lemma_rest_len(row, order, i);
            assert(stored[sorts + rank(order, i)] == rest[rank(order, i)]);
        }
    }
    assert(read =~= row);
}

/// Two rows are found by one key only where they have one row id.
pub proof fn law_index_keys_hold_the_rowid(
    a: Seq<Datum>,
    a_id: i64,
    b: Seq<Datum>,
    b_id: i64,
    order: Seq<int>,
)
    requires
        seek_key(a, a_id, order) == seek_key(b, b_id, order),
    ensures
        a_id == b_id,
{
    assert(seek_key(a, a_id, order).last() == seek_key(b, b_id, order).last());
}

/// A row is stored in an index with the values of its sort columns first, one for one in the order of
/// the sort columns, then its row id, then the other columns from first to last, and its weight last.
/// It is found by the part up to the row id. `rest` are the positions of the other columns.
pub proof fn law_index_records_begin_with_the_sort_columns(
    row: Seq<Datum>,
    rowid: i64,
    order: Seq<int>,
    weight: int,
    rest: Seq<int>,
)
    requires
        forall|k: int, l: int| 0 <= k < l < rest.len() ==> #[trigger] rest[k] < #[trigger] rest[l],
        forall|p: int| #[trigger]
            rest.contains(p) <==> 0 <= p < row.len() && forall|k: int|
                0 <= k < order.len() ==> #[trigger] order[k] != p,
    ensures
        ({
            let record = index_record(row, rowid, order, row.len() as int, weight);
            let n = order.len() as int;
            &&& record.len() == n + 1 + rest.len() + 1
            &&& forall|k: int|
                0 <= k < n ==> #[trigger] record[k] == (if 0 <= order[k] < row.len() {
                    row[order[k]]
                } else {
                    Datum::Null
                })
            &&& record[n] == int_datum(rowid as int)
            &&& forall|k: int| 0 <= k < rest.len() ==> record[n + 1 + k] == row[#[trigger] rest[k]]
            &&& record.last() == int_datum(weight)
            &&& seek_key(row, rowid, order) == record.take(n + 1)
        }),
{
    let n = row.len() as int;
    let record = index_record(row, rowid, order, n, weight);
    assert forall|p: int| #[trigger] rest.contains(p) <==> 0 <= p < n && !order.contains(p) by {
        if order.contains(p) {
            let k = choose|k: int| 0 <= k < order.len() && order[k] == p;
            assert(order[k] == p);
        }
    }
    lemma_rest_values(row, order, n, rest);
    assert(lesser(n, n) == n);
    assert(record.take(order.len() as int + 1) =~= seek_key(row, rowid, order));
}

proof fn lemma_rest_values(row: Seq<Datum>, order: Seq<int>, n: int, rest: Seq<int>)
    requires
        0 <= n <= row.len(),
        forall|k: int, l: int| 0 <= k < l < rest.len() ==> #[trigger] rest[k] < #[trigger] rest[l],
        forall|p: int| #[trigger] rest.contains(p) <==> 0 <= p < n && !order.contains(p),
    ensures
        rest_values(row, order, n).len() == rest.len(),
        forall|k: int|
            0 <= k < rest.len() ==> rest_values(row, order, n)[k] == row[#[trigger] rest[k]],
    decreases n,
{
    if n == 0 {
        if rest.len() > 0 {
            assert(rest.contains(rest[0]));
        }
    } else if order.contains(n - 1) {
        assert forall|p: int| #[trigger] rest.contains(p) <==> 0 <= p < n - 1 && !order.contains(
            p,
        ) by {}
        lemma_rest_values(row, order, n - 1, rest);
    } else {
        assert(rest.contains(n - 1));
        let k = choose|k: int| 0 <= k < rest.len() && rest[k] == n - 1;
        if k < rest.len() - 1 {
            assert(rest[k] < rest[rest.len() - 1]);
            assert(rest.contains(rest[rest.len() - 1]));
        }
        let less = rest.drop_last();
        assert forall|p: int| #[trigger] less.contains(p) <==> 0 <= p < n - 1 && !order.contains(
            p,
        ) by {
            if less.contains(p) {
                let j = choose|j: int| 0 <= j < less.len() && less[j] == p;
                assert(rest[j] == p);
                assert(rest.contains(p));
                assert(rest[j] < rest[k]);
            }
            if 0 <= p < n - 1 && !order.contains(p) {
                assert(rest.contains(p));
                let j = choose|j: int| 0 <= j < rest.len() && rest[j] == p;
                assert(less[j] == p);
            }
        }
        lemma_rest_values(row, order, n - 1, less);
        assert forall|j: int| 0 <= j < rest.len() implies rest_values(row, order, n)[j]
            == row[#[trigger] rest[j]] by {
            if j < less.len() {
                assert(less[j] == rest[j]);
            }
        }
    }
}

} // verus!
