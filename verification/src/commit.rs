//! Committing changes to a view.
//!
//! The changes that a run puts out are added up, sorted so that rows leave before rows come, and
//! written to the view one by one.

use vstd::prelude::*;

use crate::circuit::{DbspCircuit, NodeView};
use crate::deltas::{no_changes, InputDeltas};
use crate::error::{parse_error, ErrorView, LimboError};
use crate::execute::{
    action_of, asks_for_state, moved, restorable, settled, Action, ActionView, Event, ExecuteState,
    PassView,
};
use crate::layout::{build_composite_keys, index_record, seek_key, sort_positions};
use crate::value::{data, Datum, HashableRow, NumericView, RowView, Value};
use crate::write_row::{
    index_step, summed, table_step, weights_fit, RowAction, RowActionView, RowEvent, RowEventView,
    WriteRowView, WriteRowViewIndex, WriteRowViewIndexView,
};
use crate::zset::{
    added_up, distinct, equivalent, lemma_mass_concat, lemma_weight_concat,
    lemma_weight_distinct, lemma_weight_absent, mass, nonzero, normal, weight, Change, Delta,
};

verus! {

// The order in which changes are written.

/// Whether a change is written no later than another: by weight, then by row id.
pub open spec fn not_after(a: Change, b: Change) -> bool {
    a.1 < b.1 || (a.1 == b.1 && a.0.rowid <= b.0.rowid)
}

/// Whether changes stand in the order in which they are written.
pub open spec fn in_order(changes: Seq<Change>) -> bool {
    forall|i: int, j: int|
        0 <= i < j < changes.len() ==> not_after(#[trigger] changes[i], #[trigger] changes[j])
}

/// The changes with a weight and a row id.
pub open spec fn ranked(weight: int, rowid: i64) -> spec_fn(Change) -> bool {
    |c: Change| c.1 == weight && c.0.rowid == rowid
}

/// Whether changes are those of another list in another order, and those that the order of writing
/// does not tell apart stand as they stood.
pub open spec fn rearranged(after: Seq<Change>, before: Seq<Change>) -> bool {
    forall|w: int, id: i64| #[trigger]
        after.filter(ranked(w, id)) == before.filter(ranked(w, id))
}

proof fn lemma_filter_none(s: Seq<Change>, f: spec_fn(Change) -> bool)
    requires
        forall|k: int| 0 <= k < s.len() ==> !f(#[trigger] s[k]),
    ensures
        s.filter(f).len() == 0,
    decreases s.len(),
{
    reveal(Seq::filter);
    if s.len() > 0 {
        assert forall|k: int| 0 <= k < s.drop_last().len() implies !f(
            #[trigger] s.drop_last()[k],
        ) by {
            assert(s.drop_last()[k] == s[k]);
        }
        lemma_filter_none(s.drop_last(), f);
        assert(!f(s[s.len() - 1]));
    }
}

proof fn lemma_insert(s: Seq<Change>, p: int, x: Change)
    requires
        0 <= p <= s.len(),
        in_order(s),
        forall|i: int| 0 <= i < p ==> not_after(#[trigger] s[i], x),
        forall|i: int| p <= i < s.len() ==> !not_after(#[trigger] s[i], x),
    ensures
        in_order(s.insert(p, x)),
        rearranged(s.insert(p, x), s.push(x)),
        forall|row: RowView| #[trigger]
            weight(s.insert(p, x), row) == weight(s.push(x), row),
        mass(s.insert(p, x)) == mass(s.push(x)),
{
    let a = s.take(p);
    let b = s.skip(p);
    let one = seq![x];
    let t = s.insert(p, x);
    assert(t =~= a + one + b);
    assert(s.push(x) =~= a + b + one);
    assert forall|i: int, j: int| 0 <= i < j < t.len() implies not_after(
        #[trigger] t[i],
        #[trigger] t[j],
    ) by {
        let old_i = if i < p {
            i
        } else {
            i - 1
        };
        let old_j = if j < p {
            j
        } else {
            j - 1
        };
        if i != p && j != p {
            assert(t[i] == s[old_i] && t[j] == s[old_j]);
        } else if i == p {
            assert(!not_after(s[old_j], x));
        } else {
            assert(not_after(s[i], x));
        }
    }
    assert forall|w: int, id: i64| #[trigger]
        t.filter(ranked(w, id)) == s.push(x).filter(ranked(w, id)) by {
        let f = ranked(w, id);
        Seq::filter_distributes_over_add(a + one, b, f);
        Seq::filter_distributes_over_add(a, one, f);
        Seq::filter_distributes_over_add(a + b, one, f);
        Seq::filter_distributes_over_add(a, b, f);
        reveal_with_fuel(Seq::filter, 2);
        assert(one.drop_last() =~= Seq::<Change>::empty());
        if f(x) {
            assert forall|k: int| 0 <= k < b.len() implies !f(#[trigger] b[k]) by {
                assert(!not_after(s[p + k], x));
            }
            lemma_filter_none(b, f);
            assert(b.filter(f) =~= Seq::<Change>::empty());
            assert(t.filter(f) =~= s.push(x).filter(f));
        } else {
            assert(one.filter(f) =~= Seq::<Change>::empty());
            assert(t.filter(f) =~= s.push(x).filter(f));
        }
    }
    assert forall|row: RowView| #[trigger] weight(t, row) == weight(s.push(x), row) by {
        lemma_weight_concat(a + one, b, row);
        lemma_weight_concat(a, one, row);
        lemma_weight_concat(a + b, one, row);
        lemma_weight_concat(a, b, row);
    }
    lemma_mass_concat(a + one, b);
    lemma_mass_concat(a, one);
    lemma_mass_concat(a + b, one);
    lemma_mass_concat(a, b);
}

proof fn lemma_insert_distinct(s: Seq<Change>, p: int, x: Change, rest: Seq<Change>)
    requires
        0 <= p <= s.len(),
        distinct(s + seq![x] + rest),
    ensures
        distinct(s.insert(p, x) + rest),
{
    let before = s + seq![x] + rest;
    let after = s.insert(p, x) + rest;
    assert forall|i: int, j: int|
        0 <= i < after.len() && 0 <= j < after.len() && i != j implies (#[trigger] after[i]).0 != (
    #[trigger] after[j]).0 by {
        let oi = if i < p || i > s.len() {
            i
        } else if i == p {
            s.len() as int
        } else {
            i - 1
        };
        let oj = if j < p || j > s.len() {
            j
        } else if j == p {
            s.len() as int
        } else {
            j - 1
        };
        assert(after[i] == before[oi]);
        assert(after[j] == before[oj]);
    }
}

fn goes_after(c: &(HashableRow, isize), weight: isize, rowid: i64) -> (r: bool)
    ensures
        r == !(c.1 < weight || (c.1 == weight && c.0.rowid <= rowid)),
{
    !(c.1 < weight || (c.1 == weight && c.0.rowid <= rowid))
}

/// Sorts changes for writing.
pub fn sort_changes(delta: &mut Delta)
    ensures
        in_order(final(delta)@),
        rearranged(final(delta)@, old(delta)@),
        equivalent(final(delta)@, old(delta)@),
        mass(final(delta)@) == mass(old(delta)@),
        final(delta)@.len() == old(delta)@.len(),
        distinct(old(delta)@) ==> distinct(final(delta)@),
        nonzero(old(delta)@) ==> nonzero(final(delta)@),
{
    let ghost all = delta@;
    let mut sorted = Delta::new();
    let mut i: usize = 0;
    proof {
        assert(all.take(0) =~= Seq::<Change>::empty());
        assert(sorted@ + all.skip(0) =~= all);
    }
    while i < delta.changes.len()
        invariant
            i <= delta.changes.len(),
            delta@ == all,
            sorted@.len() == i,
            in_order(sorted@),
            rearranged(sorted@, all.take(i as int)),
            equivalent(sorted@, all.take(i as int)),
            mass(sorted@) == mass(all.take(i as int)),
            distinct(all) ==> distinct(sorted@ + all.skip(i as int)),
            nonzero(all) ==> nonzero(sorted@),
        decreases delta.changes.len() - i,
    {
        let ghost before = sorted@;
        let row = delta.changes[i].0.clone();
        let w: isize = delta.changes[i].1;
        let ghost x = all[i as int];
        assert(x == (row@, w as int));
        let mut p: usize = sorted.changes.len();
        while p > 0 && goes_after(&sorted.changes[p - 1], w, row.rowid)
            invariant
                p <= sorted.changes@.len(),
                sorted@ == before,
                x == (row@, w as int),
                forall|j: int| p <= j < before.len() ==> !not_after(#[trigger] before[j], x),
            decreases p,
        {
            assert(before[p - 1] == (
                sorted.changes@[p - 1].0@,
                sorted.changes@[p - 1].1 as int,
            ));
            p -= 1;
        }
        proof {
            if p > 0 {
                assert(before[p - 1] == (
                    sorted.changes@[p - 1].0@,
                    sorted.changes@[p - 1].1 as int,
                ));
                assert(not_after(before[p - 1], x));
                assert forall|j: int| 0 <= j < p implies not_after(#[trigger] before[j], x) by {
                    if j < p - 1 {
                        assert(not_after(before[j], before[p - 1]));
                    }
                }
            }
        }
        let ghost old_changes = sorted.changes@;
        sorted.changes.insert(p, (row, w));
        proof {
            assert(sorted@ =~= before.insert(p as int, x));
            lemma_insert(before, p as int, x);
            assert(all.take(i + 1) =~= all.take(i as int).push(x));
            lemma_push_preserves(before, all.take(i as int), x);
            assert(equivalent(sorted@, all.take(i + 1))) by {
                assert forall|r: RowView| #[trigger]
                    weight(sorted@, r) == weight(all.take(i + 1), r) by {
                    assert(weight(before.insert(p as int, x), r) == weight(before.push(x), r));
                    assert(weight(before, r) == weight(all.take(i as int), r));
                    assert(before.push(x).drop_last() =~= before);
                    assert(all.take(i as int).push(x).drop_last() =~= all.take(i as int));
                }
            }
            assert(rearranged(sorted@, all.take(i + 1))) by {
                assert forall|wt: int, id: i64| #[trigger]
                    sorted@.filter(ranked(wt, id)) == all.take(i + 1).filter(ranked(wt, id)) by {
                    assert(before.insert(p as int, x).filter(ranked(wt, id)) == before.push(
                        x,
                    ).filter(ranked(wt, id)));
                    assert(before.push(x).filter(ranked(wt, id)) == all.take(i as int).push(
                        x,
                    ).filter(ranked(wt, id)));
                }
            }
            assert(before.push(x).drop_last() =~= before);
            assert(all.take(i as int).push(x).drop_last() =~= all.take(i as int));
            if distinct(all) {
                assert(before + all.skip(i as int) =~= before + seq![x] + all.skip(i + 1));
                lemma_insert_distinct(before, p as int, x, all.skip(i + 1));
            }
            if nonzero(all) {
                assert forall|j: int| 0 <= j < sorted@.len() implies (#[trigger] sorted@[j]).1
                    != 0 by {
                    if j < p {
                        assert(sorted@[j] == before[j]);
                    } else if j > p {
                        assert(sorted@[j] == before[j - 1]);
                    } else {
                        assert(all[i as int].1 != 0);
                    }
                }
            }
        }
        i += 1;
    }
    proof {
        assert(all.take(i as int) =~= all);
        assert(sorted@ + all.skip(i as int) =~= sorted@);
    }
    delta.changes = sorted.changes;
}

proof fn lemma_push_preserves(a: Seq<Change>, b: Seq<Change>, x: Change)
    requires
        rearranged(a, b),
    ensures
        rearranged(a.push(x), b.push(x)),
{
    assert forall|w: int, id: i64| #[trigger]
        a.push(x).filter(ranked(w, id)) == b.push(x).filter(ranked(w, id)) by {
        let f = ranked(w, id);
        reveal(Seq::filter);
        assert(a.filter(f) == b.filter(f));
        assert(a.push(x).drop_last() =~= a);
        assert(b.push(x).drop_last() =~= b);
    }
}

/// Rows leave before rows come.
pub proof fn law_deletions_come_first(changes: Seq<Change>, i: int, j: int)
    requires
        in_order(changes),
        0 <= i < changes.len(),
        0 <= j < changes.len(),
        changes[i].1 < 0,
        changes[j].1 > 0,
    ensures
        i < j,
{
    if j < i {
        assert(not_after(changes[j], changes[i]));
    } else if i == j {
        assert(false);
    }
}

// What a view holds.

/// The rows that a view stores, under their keys, with their weights.
pub type StoredRows<K> = Map<K, (RowView, int)>;

/// The stored weight of a key.
pub open spec fn weight_under<K>(rows: StoredRows<K>, key: K) -> Option<int> {
    if rows.dom().contains(key) {
        Some(rows[key].1)
    } else {
        None
    }
}

/// The rows of a view after a change has been written under its key.
pub open spec fn row_written<K>(
    rows: StoredRows<K>,
    key: spec_fn(RowView) -> K,
    c: Change,
) -> StoredRows<K> {
    match summed(weight_under(rows, key(c.0)), c.1) {
        Some(w) => rows.insert(key(c.0), (c.0, w)),
        None => rows.remove(key(c.0)),
    }
}

/// The rows of a view after changes have been written from first to last.
pub open spec fn rows_written<K>(
    rows: StoredRows<K>,
    key: spec_fn(RowView) -> K,
    changes: Seq<Change>,
) -> StoredRows<K>
    decreases changes.len(),
{
    if changes.len() == 0 {
        rows
    } else {
        rows_written(row_written(rows, key, changes.first()), key, changes.drop_first())
    }
}

/// The weight of a row in a view.
pub open spec fn held<K>(rows: StoredRows<K>, key: spec_fn(RowView) -> K, row: RowView) -> int {
    if rows.dom().contains(key(row)) && rows[key(row)].0 == row {
        rows[key(row)].1
    } else {
        0
    }
}

/// The weight of a row in a view with changes added.
pub open spec fn held_with<K>(
    rows: StoredRows<K>,
    key: spec_fn(RowView) -> K,
    changes: Seq<Change>,
    row: RowView,
) -> int {
    held(rows, key, row) + weight(changes, row)
}

/// Whether the sum of a view and changes is a view again: no row is there less than no times, and
/// no two rows have one key.
pub open spec fn adds_up<K>(
    rows: StoredRows<K>,
    key: spec_fn(RowView) -> K,
    changes: Seq<Change>,
) -> bool {
    &&& forall|row: RowView| #[trigger] held_with(rows, key, changes, row) >= 0
    &&& forall|a: RowView, b: RowView|
        key(a) == key(b) && #[trigger] held_with(rows, key, changes, a) > 0
            && #[trigger] held_with(rows, key, changes, b) > 0 ==> a == b
}

/// Whether every row is stored under its key, with a positive weight.
pub open spec fn filed<K>(rows: StoredRows<K>, key: spec_fn(RowView) -> K) -> bool {
    forall|k: K| #[trigger] rows.dom().contains(k) ==> rows[k].1 > 0 && key(rows[k].0) == k
}

/// Committing adds the changes to the view: once changes have been written in their order, every
/// row has the weight that it had before plus the weight that the changes give it.
pub proof fn law_committing_adds_the_changes<K>(
    rows: StoredRows<K>,
    key: spec_fn(RowView) -> K,
    changes: Seq<Change>,
    row: RowView,
)
    requires
        filed(rows, key),
        normal(changes),
        in_order(changes),
        adds_up(rows, key, changes),
    ensures
        held(rows_written(rows, key, changes), key, row) == held_with(rows, key, changes, row),
        filed(rows_written(rows, key, changes), key),
    decreases changes.len(),
{
    if changes.len() > 0 {
        let c = changes.first();
        let rest = changes.drop_first();
        let after = row_written(rows, key, c);
        assert(changes =~= seq![c] + rest);
        assert(distinct(rest)) by {
            assert forall|i: int, j: int|
                0 <= i < rest.len() && 0 <= j < rest.len() && i != j implies (
            #[trigger] rest[i]).0 != (#[trigger] rest[j]).0 by {
                assert(rest[i] == changes[i + 1] && rest[j] == changes[j + 1]);
            }
        }
        assert(nonzero(rest)) by {
            assert forall|i: int| 0 <= i < rest.len() implies (#[trigger] rest[i]).1 != 0 by {
                assert(rest[i] == changes[i + 1]);
            }
        }
        assert(in_order(rest)) by {
            assert forall|i: int, j: int| 0 <= i < j < rest.len() implies not_after(
                #[trigger] rest[i],
                #[trigger] rest[j],
            ) by {
                assert(rest[i] == changes[i + 1] && rest[j] == changes[j + 1]);
            }
        }
        assert forall|r: RowView| #[trigger]
            held_with(after, key, rest, r) == held_with(rows, key, changes, r) by {
            lemma_one_written(rows, key, changes, r);
        }
        assert(filed(after, key)) by {
            assert forall|k: K| #[trigger] after.dom().contains(k) implies after[k].1 > 0 && key(
                after[k].0,
            ) == k by {
                if k != key(c.0) {
                    assert(rows.dom().contains(k));
                }
            }
        }
        law_committing_adds_the_changes(after, key, rest, row);
    }
}

proof fn lemma_one_written<K>(
    rows: StoredRows<K>,
    key: spec_fn(RowView) -> K,
    changes: Seq<Change>,
    r: RowView,
)
    requires
        filed(rows, key),
        normal(changes),
        in_order(changes),
        adds_up(rows, key, changes),
        changes.len() > 0,
    ensures
        held_with(row_written(rows, key, changes.first()), key, changes.drop_first(), r)
            == held_with(rows, key, changes, r),
{
    let c = changes.first();
    let rest = changes.drop_first();
    let after = row_written(rows, key, c);
    let one = seq![c];
    assert(changes =~= one + rest);
    lemma_weight_concat(one, rest, r);
    assert(one.drop_last() =~= Seq::<Change>::empty());
    assert(weight(one, r) == (if c.0 == r {
        c.1
    } else {
        0
    })) by {
        reveal_with_fuel(weight, 2);
    }
    let k = key(c.0);
    lemma_weight_distinct(changes, 0);
    assert(changes[0].1 != 0);
    assert(held_with(rows, key, changes, c.0) >= 0);
    if rows.dom().contains(k) {
        lemma_key_is_free(rows, key, changes);
    }
}

/// Where the first change finds its key taken, it is by its own row: another row would leave
/// first.
proof fn lemma_key_is_free<K>(
    rows: StoredRows<K>,
    key: spec_fn(RowView) -> K,
    changes: Seq<Change>,
)
    requires
        filed(rows, key),
        normal(changes),
        in_order(changes),
        adds_up(rows, key, changes),
        changes.len() > 0,
        rows.dom().contains(key(changes[0].0)),
    ensures
        rows[key(changes[0].0)].0 == changes[0].0,
{
    let c = changes[0];
    let other = rows[key(c.0)].0;
    if other != c.0 {
        lemma_weight_distinct(changes, 0);
        assert(held_with(rows, key, changes, c.0) == c.1);
        assert(c.1 != 0);
        assert(key(other) == key(c.0));
        assert(held_with(rows, key, changes, other) <= 0);
        assert(weight(changes, other) < 0);
        if forall|i: int| 0 <= i < changes.len() ==> (#[trigger] changes[i]).0 != other {
            lemma_weight_absent(changes, other);
        } else {
            let i = choose|i: int| 0 <= i < changes.len() && (#[trigger] changes[i]).0 == other;
            lemma_weight_distinct(changes, i);
            assert(not_after(changes[0], changes[i]));
        }
    }
}

// The commit itself.

/// Whether changes are those of a run, added up and put in the order of writing.
pub open spec fn prepared(changes: Seq<Change>, output: Seq<Change>) -> bool {
    &&& normal(changes)
    &&& equivalent(changes, output)
    &&& in_order(changes)
    &&& rearranged(changes, added_up(output))
}

/// A commit.
#[derive(Debug)]
pub enum CommitState {
    /// Not started.
    Init,
    /// The circuit is run, and its operators commit what they learn.
    CommitOperators { execute_state: ExecuteState },
    /// The changes are written to the view.
    UpdateView {
        delta: Delta,
        current_index: usize,
        write_row_state: WriteRowView,
        write_row_index_state: WriteRowViewIndex,
    },
}

/// What has been done for a commit.
#[derive(Debug)]
pub enum CommitEvent {
    /// The commit starts with these changes.
    Start(InputDeltas),
    /// Nothing yet: asks again for what is to be done.
    Resume,
    Operators(Event),
    Row(RowEvent),
}

/// What is to be done for a commit.
#[derive(Debug)]
pub enum CommitAction {
    Operators(Action),
    /// Turn to storage for a row. Its key is its row id, or `key` where the view is an index.
    Row { rowid: i64, key: Vec<Value>, action: RowAction },
    /// The commit is over, and these are the changes to the view.
    Done(Delta),
}

#[verifier::ext_equal]
pub enum CommitActionView {
    Operators(ActionView),
    Row { rowid: i64, key: Seq<Datum>, action: RowActionView },
    Done(Seq<Change>),
}

impl View for CommitAction {
    type V = CommitActionView;

    open spec fn view(&self) -> CommitActionView {
        match self {
            CommitAction::Operators(a) => CommitActionView::Operators(a@),
            CommitAction::Row { rowid, key, action } => CommitActionView::Row {
                rowid: *rowid,
                key: data(key@),
                action: action@,
            },
            CommitAction::Done(d) => CommitActionView::Done(d@),
        }
    }
}

/// How far the writing of a view has come.
#[verifier::ext_equal]
pub struct Writing {
    pub changes: Seq<Change>,
    pub at: int,
    pub table: WriteRowView,
    pub index: WriteRowViewIndexView,
}

/// A storage layout: the sort columns and the number of columns of a view.
pub struct Layout {
    pub order: Seq<int>,
    pub width: int,
}

/// The layout of the view of a circuit.
pub open spec fn layout_of(circuit: DbspCircuit) -> Layout {
    Layout {
        order: sort_positions(circuit.order_by.columns@),
        width: circuit.output_schema@.len() as int,
    }
}

/// The key of a row, beside its row id.
pub open spec fn key_of(l: Layout, row: RowView) -> Seq<Datum> {
    if l.order.len() == 0 {
        Seq::empty()
    } else {
        seek_key(row.values, row.rowid, l.order)
    }
}

/// One step of writing the current row.
pub open spec fn row_step(l: Layout, w: Writing, event: RowEventView) -> Result<
    (Writing, RowActionView),
    ErrorView,
> {
    let c = w.changes[w.at];
    if l.order.len() == 0 {
        match table_step(w.table, event, c.0.rowid, c.0.values, c.1) {
            Ok(n) => Ok((Writing { table: n.0, ..w }, n.1)),
            Err(e) => Err(e),
        }
    } else {
        match index_step(
            w.index,
            event,
            index_record(c.0.values, c.0.rowid, l.order, l.width, c.1),
            c.1,
        ) {
            Ok(n) => Ok((Writing { index: n.0, ..w }, n.1)),
            Err(e) => Err(e),
        }
    }
}

/// The start of writing a row.
pub open spec fn at_row(changes: Seq<Change>, at: int) -> Writing {
    Writing {
        changes,
        at,
        table: WriteRowView::GetRecord,
        index: WriteRowViewIndexView::GetRecord { sought: false },
    }
}

/// The state of a commit and what is to be done in it, where the row that is being written has
/// come to `w` by asking for `action`.
pub open spec fn writes(l: Layout, w: Writing, action: RowActionView) -> (
    Option<Writing>,
    CommitActionView,
) {
    let row = w.changes[w.at].0;
    (
        Some(w),
        CommitActionView::Row { rowid: row.rowid, key: key_of(l, row), action },
    )
}

/// The start of writing the row at a position, or the end of the commit where there is none.
pub open spec fn starts_row(l: Layout, changes: Seq<Change>, at: int) -> (
    Option<Writing>,
    CommitActionView,
) {
    if at >= changes.len() {
        (None, CommitActionView::Done(changes))
    } else {
        let n = row_step(l, at_row(changes, at), RowEventView::Resume)->Ok_0;
        writes(l, n.0, n.1)
    }
}

/// What follows an event while a view is being written.
pub open spec fn writing_step(l: Layout, w: Writing, event: RowEventView) -> Result<
    (Option<Writing>, CommitActionView),
    ErrorView,
> {
    match row_step(l, w, event) {
        Err(e) => Err(e),
        Ok(n) => if n.1 == RowActionView::Done {
            Ok(starts_row(l, w.changes, w.at + 1))
        } else {
            Ok(writes(l, n.0, n.1))
        },
    }
}

impl CommitState {
    /// How far the writing has come, where it has begun.
    pub open spec fn writing(&self) -> Option<Writing> {
        match self {
            CommitState::UpdateView {
                delta,
                current_index,
                write_row_state,
                write_row_index_state,
            } => Some(
                Writing {
                    changes: delta@,
                    at: *current_index as int,
                    table: *write_row_state,
                    index: write_row_index_state@,
                },
            ),
            _ => None,
        }
    }

    pub open spec fn wf(&self, nodes: Seq<NodeView>) -> bool {
        match self {
            CommitState::Init => true,
            CommitState::CommitOperators { execute_state } => execute_state.wf(nodes),
            CommitState::UpdateView { delta, current_index, .. } => *current_index < delta@.len(),
        }
    }

    /// Whether an event can come next.
    pub open spec fn expects(&self, nodes: Seq<NodeView>, event: CommitEvent) -> bool {
        match (self, event) {
            (CommitState::Init, CommitEvent::Start(inputs)) => inputs.wf(),
            (CommitState::CommitOperators { execute_state }, CommitEvent::Operators(e)) => {
                execute_state.expects(nodes, e)
            },
            (CommitState::CommitOperators { execute_state }, CommitEvent::Resume) => true,
            (CommitState::UpdateView { delta, current_index, .. }, CommitEvent::Row(e)) => {
                weights_fit(e@, delta@[*current_index as int].1)
            },
            (CommitState::UpdateView { .. }, CommitEvent::Resume) => true,
            _ => false,
        }
    }
}

/// The run that a commit goes on with.
pub open spec fn commit_run(state: CommitState, event: CommitEvent) -> ExecuteState {
    match (state, event) {
        (CommitState::Init, CommitEvent::Start(inputs)) => ExecuteState::Init {
            input_data: inputs,
        },
        (CommitState::CommitOperators { execute_state }, _) => execute_state,
        _ => ExecuteState::Uninitialized,
    }
}

pub open spec fn run_event(event: CommitEvent) -> Event {
    match event {
        CommitEvent::Operators(e) => e,
        _ => Event::Resume,
    }
}

pub open spec fn storage_event(event: CommitEvent) -> RowEventView {
    match event {
        CommitEvent::Row(e) => e@,
        _ => RowEventView::Resume,
    }
}

/// The passes that the run of a commit comes to.
pub open spec fn committed_run(
    circuit: DbspCircuit,
    state: CommitState,
    event: CommitEvent,
    root: i64,
) -> Result<Seq<PassView>, ErrorView> {
    settled(
        circuit@,
        moved(
            circuit@,
            commit_run(state, event).passes(root),
            run_event(event),
            !(circuit.internal_state_root == 0 && circuit.internal_state_index_root == 0),
        ),
    )
}

/// Whether the weights that a finished run puts out can be added up.
pub open spec fn output_fits(circuit: DbspCircuit, state: CommitState, event: CommitEvent) -> bool {
    circuit.root matches Some(root) ==> state.writing() is None ==> (committed_run(
        circuit,
        state,
        event,
        root,
    ) matches Ok(s) ==> (action_of(circuit@, s, true) matches ActionView::Done(d) ==> mass(d)
        <= isize::MAX))
}

impl DbspCircuit {
    /// Goes on with writing the current row.
    fn write_current(
        &self,
        delta: &Delta,
        at: usize,
        table: &mut WriteRowView,
        index: &mut WriteRowViewIndex,
        event: RowEvent,
    ) -> (r: Result<(RowAction, Vec<Value>), LimboError>)
        requires
            self.output_schema.columns@.len() < usize::MAX,
            at < delta@.len(),
            weights_fit(event@, delta@[at as int].1),
        ensures
            match row_step(
                layout_of(*self),
                (Writing {
                    changes: delta@,
                    at: at as int,
                    table: *old(table),
                    index: old(index)@,
                }),
                event@,
            ) {
                Ok(n) => {
                    &&& r matches Ok(t) && t.0@ == n.1 && data(t.1@) == key_of(
                        layout_of(*self),
                        delta@[at as int].0,
                    )
                    &&& n.0 == (Writing {
                        changes: delta@,
                        at: at as int,
                        table: *final(table),
                        index: final(index)@,
                    })
                },
                Err(e) => r matches Err(err) && err@ == e,
            },
    {
        let row = &delta.changes[at].0;
        let weight: isize = delta.changes[at].1;
        assert(delta@[at as int] == (row@, weight as int));
        if self.order_by.columns.len() == 0 {
            let key: Vec<Value> = Vec::new();
            assert(data(key@) =~= Seq::<Datum>::empty());
            assert(sort_positions(self.order_by.columns@).len() == 0);
            match table.write_row(event, row.rowid, &row.values, weight) {
                Ok(a) => Ok((a, key)),
                Err(e) => Err(e),
            }
        } else {
            assert(sort_positions(self.order_by.columns@).len() > 0);
            let (key, record) = build_composite_keys(
                &row.values,
                row.rowid,
                self.output_schema.columns.len() + 1,
                &self.order_by.columns,
                weight,
            );
            assert(data(record@).len() == record@.len());
            match index.write_row(event, &record, weight) {
                Ok(a) => Ok((a, key)),
                Err(e) => Err(e),
            }
        }
    }

    /// Starts to write a row, or ends the commit where there is none left.
    fn start_row(&self, delta: Delta, at: usize) -> (r: Result<
        (CommitState, CommitAction),
        LimboError,
    >)
        requires
            self.output_schema.columns@.len() < usize::MAX,
        ensures
            r matches Ok(n) && (n.0.writing(), n.1@) == starts_row(
                layout_of(*self),
                delta@,
                at as int,
            ),
            r->Ok_0.0 is CommitOperators == false,
            r->Ok_0.1@ is Done == (r->Ok_0.0 is Init),
            r->Ok_0.0.wf(self@),
    {
        if at >= delta.changes.len() {
            return Ok((CommitState::Init, CommitAction::Done(delta)));
        }
        let mut table = WriteRowView::new();
        let mut index = WriteRowViewIndex::new();
        match self.write_current(&delta, at, &mut table, &mut index, RowEvent::Resume) {
            Ok(t) => {
                let (action, key) = t;
                let rowid: i64 = delta.changes[at].0.rowid;
                Ok(
                    (
                        CommitState::UpdateView {
                            delta,
                            current_index: at,
                            write_row_state: table,
                            write_row_index_state: index,
                        },
                        CommitAction::Row { rowid, key, action },
                    ),
                )
            },
            Err(e) => Err(e),
        }
    }

    /// Goes on with a commit: takes in what has been done and tells what is to be done next. The
    /// recursive operators of a view that was opened from disk are given their state back, and the
    /// circuit is run; what it puts out is added up, put in the order of writing, and
    /// written row by row. A circuit without a root has nothing to commit. Once a commit is over,
    /// or an error has ended it, the next one can start.
    pub fn commit(&self, commit_state: &mut CommitState, event: CommitEvent) -> (r: Result<
        CommitAction,
        LimboError,
    >)
        requires
            self.wf(),
            self.output_schema.columns@.len() < usize::MAX,
            old(commit_state).wf(self@),
            old(commit_state).expects(self@, event),
            output_fits(*self, *old(commit_state), event),
        ensures
            self.root is Some && r is Ok && r->Ok_0@ is Done ==> *final(commit_state) is Init,
            r is Err ==> *final(commit_state) is Init,
            match self.root {
                None => r matches Ok(a) && a@ == CommitActionView::Done(no_changes())
                    && *final(commit_state) == *old(commit_state),
                Some(root) => match old(commit_state).writing() {
                    Some(w) => match writing_step(layout_of(*self), w, storage_event(event)) {
                        Err(e) => r matches Err(err) && err@ == e,
                        Ok(n) => {
                            &&& r matches Ok(a) && (final(commit_state).writing(), a@) == n
                            &&& final(commit_state).wf(self@)
                        },
                    },
                    None => if asks_for_state(
                        *self,
                        commit_run(*old(commit_state), event),
                        run_event(event),
                    ) {
                        &&& r matches Ok(a) && a@ == CommitActionView::Operators(
                            ActionView::Restore { nodes: restorable(*self) },
                        )
                        &&& *final(commit_state) == (CommitState::CommitOperators {
                            execute_state: commit_run(*old(commit_state), event),
                        })
                        &&& final(commit_state).wf(self@)
                    } else {
                        match committed_run(*self, *old(commit_state), event, root) {
                            Err(e) => r matches Err(err) && err@ == e,
                            Ok(s) => match action_of(self@, s, true) {
                                ActionView::Done(output) => {
                                    &&& r is Ok
                                    &&& exists|changes: Seq<Change>| #[trigger]
                                        prepared(changes, output) && (
                                            final(commit_state).writing(),
                                            r->Ok_0@,
                                        ) == starts_row(layout_of(*self), changes, 0)
                                    &&& final(commit_state).wf(self@)
                                },
                                action => {
                                    &&& r matches Ok(a) && a@ == CommitActionView::Operators(action)
                                    &&& final(commit_state).wf(self@)
                                    &&& *final(commit_state) matches CommitState::CommitOperators {
                                        execute_state,
                                    } && execute_state.passes(root) == s
                                },
                            },
                        }
                    },
                },
            },
    {
        if self.root.is_none() {
            let d = Delta::new();
            assert(d@ =~= no_changes());
            return Ok(CommitAction::Done(d));
        }
        let mut state = CommitState::Init;
        std::mem::swap(&mut state, commit_state);
        let (run, run_event) = match (state, event) {
            (
                CommitState::UpdateView {
                    delta,
                    current_index,
                    write_row_state,
                    write_row_index_state,
                },
                event,
            ) => {
                let mut table = write_row_state;
                let mut index = write_row_index_state;
                let count: usize = delta.changes.len();
                assert(current_index < count);
                let row_event = match event {
                    CommitEvent::Row(e) => e,
                    _ => RowEvent::Resume,
                };
                return match self.write_current(
                    &delta,
                    current_index,
                    &mut table,
                    &mut index,
                    row_event,
                ) {
                    Err(e) => Err(e),
                    Ok(t) => {
                        let (action, key) = t;
                        match action {
                            RowAction::Done => match self.start_row(delta, current_index + 1) {
                                Ok(n) => {
                                    *commit_state = n.0;
                                    Ok(n.1)
                                },
                                Err(e) => Err(e),
                            },
                            action => {
                                let rowid: i64 = delta.changes[current_index].0.rowid;
                                *commit_state =
                                CommitState::UpdateView {
                                    delta,
                                    current_index,
                                    write_row_state: table,
                                    write_row_index_state: index,
                                };
                                Ok(CommitAction::Row { rowid, key, action })
                            },
                        }
                    },
                };
            },
            (CommitState::Init, CommitEvent::Start(inputs)) => (
                ExecuteState::Init { input_data: inputs },
                Event::Resume,
            ),
            (CommitState::CommitOperators { execute_state }, CommitEvent::Operators(e)) => (
                execute_state,
                e,
            ),
            (CommitState::CommitOperators { execute_state }, _) => (execute_state, Event::Resume),
            (_, _) => return Err(parse_error("Commit has not been started")),
        };
        let mut run = run;
        if let Some(nodes) = self.before_run(&run, &run_event) {
            *commit_state = CommitState::CommitOperators { execute_state: run };
            return Ok(CommitAction::Operators(Action::Restore { nodes }));
        }
        match self.run_circuit(&mut run, run_event, true) {
            Err(e) => Err(e),
            Ok(Action::Done(output)) => {
                let ghost out = output@;
                let mut delta = output;
                delta.consolidate();
                let ghost added = delta@;
                sort_changes(&mut delta);
                proof {
                    assert forall|row: RowView| #[trigger]
                        weight(delta@, row) == weight(out, row) by {
                        assert(weight(delta@, row) == weight(added, row));
                        assert(weight(added, row) == weight(out, row));
                    }
                    assert(prepared(delta@, out));
                }
                match self.start_row(delta, 0) {
                    Ok(n) => {
                        *commit_state = n.0;
                        Ok(n.1)
                    },
                    Err(e) => Err(e),
                }
            },
            Ok(action) => {
                *commit_state = CommitState::CommitOperators { execute_state: run };
                Ok(CommitAction::Operators(action))
            },
        }
    }
}

/// A commit writes the rows of its changes one after the other: when one is done, the next is begun,
/// under its own row id and with the key that it sorts by, and after the last the commit is done.
pub proof fn law_a_commit_goes_from_row_to_row(l: Layout, w: Writing, event: RowEventView)
    requires
        0 <= w.at < w.changes.len(),
        row_step(l, w, event) matches Ok(n) && n.1 == RowActionView::Done,
    ensures
        ({
            let s = writing_step(l, w, event);
            if w.at + 1 == w.changes.len() {
                s == Ok::<(Option<Writing>, CommitActionView), ErrorView>(
                    (None, CommitActionView::Done(w.changes)),
                )
            } else {
                let next = w.changes[w.at + 1].0;
                &&& s matches Ok(n) && (n.0 matches Some(x) && x.changes == w.changes && x.at == w.at
                    + 1) && (n.1 matches CommitActionView::Row { rowid, key, .. } && rowid
                    == next.rowid && (if l.order.len() == 0 {
                    key.len() == 0
                } else {
                    &&& key.len() == l.order.len() + 1
                    &&& forall|k: int|
                        0 <= k < l.order.len() ==> #[trigger] key[k] == (if 0 <= l.order[k]
                            < next.values.len() {
                            next.values[l.order[k]]
                        } else {
                            Datum::Null
                        })
                    &&& key.last() == Datum::Numeric(NumericView::Integer(next.rowid))
                }))
            }
        }),
{
}

} // verus!
